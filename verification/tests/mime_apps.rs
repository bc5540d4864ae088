use open::mime_apps::{MimeApps, Section};
use open::mime_type::{wildcard_of, MimeType};
use open::text::chars_of;

fn mt(s: &str) -> MimeType {
    MimeType::parse(s).unwrap()
}

fn names(v: Option<&Vec<String>>) -> Vec<String> {
    v.cloned().unwrap_or_default()
}

#[test]
fn mime_type_parse_lowercases_and_splits_type() {
    let m = mt("Text/HTML");
    assert_eq!(m.as_str(), "text/html");
    assert_eq!(m.type_(), "text");
    assert!(MimeType::parse("pdf").is_none());
    assert!(MimeType::parse("/html").is_none());
    assert_eq!(mt("*/*").as_str(), "*/*");
    assert_eq!(wildcard_of(&m).unwrap().as_str(), "text/*");
}

#[test]
fn load_reads_the_three_sections() {
    let content = "[Default Applications]\n\
                   text/html=firefox.desktop;chromium.desktop;\n\
                   image/png=imv.desktop\n\
                   \n\
                   [Added Associations]\n\
                   text/plain=nvim.desktop;\n\
                   \n\
                   [Removed Associations]\n\
                   video/mp4=vlc.desktop\n";
    let apps = MimeApps::load(content);
    assert_eq!(names(apps.defaults.get(&mt("text/html"))), vec!["firefox.desktop", "chromium.desktop"]);
    assert_eq!(names(apps.defaults.get(&mt("image/png"))), vec!["imv.desktop"]);
    assert!(apps.defaults.get(&mt("text/plain")).is_none());
    assert!(apps.defaults.get(&mt("video/mp4")).is_none());
    assert_eq!(apps.defaults.len(), 2);
}

#[test]
fn load_skips_invalid_lines_and_keeps_the_last_duplicate() {
    let content = "text/html=ignored.desktop\n\
                   [Default Applications]\r\n\
                   garbage line\n\
                   not a mime=x.desktop\n\
                   text/html=a.desktop\n\
                   text/html=b.desktop\n";
    let apps = MimeApps::load(content);
    assert_eq!(names(apps.defaults.get(&mt("text/html"))), vec!["b.desktop"]);
    assert_eq!(apps.defaults.len(), 1);
}

#[test]
fn crlf_lines_still_match_headers() {
    // The `\r` is stripped by `lines`, so the header still matches.
    let apps = MimeApps::load("[Default Applications]\r\ntext/html=a.desktop\r\n");
    assert_eq!(names(apps.defaults.get(&mt("text/html"))), vec!["a.desktop"]);
}

#[test]
fn default_entries_fall_back_to_wildcard() {
    let apps = MimeApps::load("[Default Applications]\ntext/*=nvim.desktop\ntext/html=firefox.desktop\n");
    assert_eq!(names(apps.default_entries(&mt("text/html"))), vec!["firefox.desktop"]);
    assert_eq!(names(apps.default_entries(&mt("text/plain"))), vec!["nvim.desktop"]);
    assert!(apps.default_entries(&mt("image/png")).is_none());
}

#[test]
fn to_text_writes_each_section() {
    let mut apps = MimeApps::new();
    apps.add_association(Section::Default, mt("text/html"), &chars_of("firefox.desktop;"));
    apps.add_association(Section::Added, mt("text/plain"), &chars_of("nvim.desktop;vim.desktop"));
    apps.add_association(Section::Unset, mt("image/png"), &chars_of("imv.desktop"));
    assert_eq!(
        apps.to_text(),
        "[Default Applications]\ntext/html=firefox.desktop\n\n\
         [Added Associations]\ntext/plain=nvim.desktop;vim.desktop\n\n\
         [Removed Associations]\n"
    );
}

#[test]
fn to_text_then_load_gives_back_the_maps() {
    let mut apps = MimeApps::new();
    apps.add_association(Section::Default, mt("text/html"), &chars_of("firefox.desktop;chromium.desktop"));
    apps.add_association(Section::Default, mt("x-scheme-handler/https"), &chars_of("firefox.desktop"));
    apps.add_association(Section::Removed, mt("video/mp4"), &chars_of(""));
    let again = MimeApps::load(&apps.to_text());
    assert_eq!(again.to_text(), apps.to_text());
    assert_eq!(names(again.defaults.get(&mt("text/html"))), vec!["firefox.desktop", "chromium.desktop"]);
}

#[test]
fn insert_default_replaces() {
    let mut apps = MimeApps::load("[Default Applications]\ntext/html=a.desktop;b.desktop\n");
    apps.insert_default(mt("text/html"), vec!["c.desktop".to_string()]);
    assert_eq!(names(apps.defaults.get(&mt("text/html"))), vec!["c.desktop"]);
    assert_eq!(apps.defaults.len(), 1);
}

#[test]
fn empty_name_lists_register_nothing() {
    let apps = MimeApps::load("[Default Applications]\ntext/html=\nimage/png=;\ntext/plain=a.desktop\n");
    assert!(apps.defaults.get(&mt("text/html")).is_none());
    // `;` alone lists one name, the empty one.
    assert_eq!(names(apps.defaults.get(&mt("image/png"))), vec![""]);
    assert_eq!(apps.defaults.len(), 2);
    let apps = MimeApps::load("[Default Applications]\ntext/html=a.desktop\ntext/html=\n");
    assert_eq!(names(apps.defaults.get(&mt("text/html"))), vec!["a.desktop"]);
    let mut apps = MimeApps::new();
    apps.add_association(Section::Default, mt("text/html"), &chars_of(""));
    apps.insert_default(mt("image/png"), vec![]);
    assert_eq!(apps.defaults.len(), 0);
}

#[test]
fn names_with_an_inner_carriage_return_read_back() {
    let mut apps = MimeApps::new();
    apps.insert_default(mt("text/html"), vec!["a\rb.desktop".to_string(), "c.desktop".to_string()]);
    let again = MimeApps::load(&apps.to_text());
    assert_eq!(names(again.defaults.get(&mt("text/html"))), vec!["a\rb.desktop", "c.desktop"]);
    assert_eq!(again.to_text(), apps.to_text());
}

#[test]
fn empty_lists_outside_the_defaults_are_kept() {
    let content = "[Default Applications]\ntext/html=\n\n[Added Associations]\ntext/plain=\n\n[Removed Associations]\nvideo/mp4=\n";
    let apps = MimeApps::load(content);
    assert_eq!(apps.defaults.len(), 0);
    assert_eq!(
        apps.to_text(),
        "[Default Applications]\n\n[Added Associations]\ntext/plain=\n\n[Removed Associations]\nvideo/mp4=\n"
    );
    let again = MimeApps::load(&apps.to_text());
    assert_eq!(again.to_text(), apps.to_text());
    let mut apps = MimeApps::new();
    apps.add_association(Section::Added, mt("image/png"), &chars_of(""));
    assert_eq!(apps.to_text(), "[Default Applications]\n\n[Added Associations]\nimage/png=\n\n[Removed Associations]\n");
}
