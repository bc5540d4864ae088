use open::desktop_entry::DesktopEntry;
use open::mime_apps::MimeApps;
use open::mime_type::MimeType;
use open::{
    get_mime_type, group_by_entry, launch_order, mime_from_name_guess, mime_from_path_guess, open,
    set_default, try_get_mime_type, MimeLookup,
};

fn known(l: MimeLookup) -> String {
    match l {
        MimeLookup::Known(m) => m.as_str().to_string(),
        _ => panic!("expected a known type"),
    }
}

#[test]
fn mime_of_mime_types_and_urls() {
    assert_eq!(known(get_mime_type("text/html", false)), "text/html");
    assert_eq!(known(get_mime_type("text/*", false)), "text/*");
    assert_eq!(known(get_mime_type("https://example.com", false)), "x-scheme-handler/https");
    assert_eq!(known(get_mime_type("https://", false)), "x-scheme-handler/https");
}

#[test]
fn a_bare_scheme_names_its_handler() {
    assert_eq!(known(get_mime_type("https:", false)), "x-scheme-handler/https");
    assert_eq!(known(try_get_mime_type("mailto:", false).unwrap()), "x-scheme-handler/mailto");
    assert!(try_get_mime_type("my app:", false).is_none());
    match get_mime_type(":", false) {
        MimeLookup::GuessFromFileName(n) => assert_eq!(n, ".:"),
        _ => panic!("expected a file name guess"),
    }
    assert!(matches!(get_mime_type("https:", true), MimeLookup::GuessFromPath));
}

#[test]
fn the_launch_that_takes_the_terminal_comes_last() {
    assert_eq!(launch_order(&vec![true, false], true), vec![(1, false), (0, true)]);
    assert_eq!(
        launch_order(&vec![true, false, true, false], true),
        vec![(1, false), (3, false), (0, false), (2, true)]
    );
    assert_eq!(launch_order(&vec![true, false], false), vec![(1, false), (0, false)]);
    assert_eq!(launch_order(&vec![false, false], true), vec![(0, false), (1, false)]);
    assert!(launch_order(&vec![], true).is_empty());
}

#[test]
fn mime_of_files_and_file_types() {
    assert!(matches!(get_mime_type("text/html", true), MimeLookup::GuessFromPath));
    match get_mime_type("pdf", false) {
        MimeLookup::GuessFromFileName(n) => assert_eq!(n, ".pdf"),
        _ => panic!("expected a file name guess"),
    }
    match get_mime_type("document.pdf", false) {
        MimeLookup::GuessFromFileName(n) => assert_eq!(n, ".document.pdf"),
        _ => panic!("expected a file name guess"),
    }
    match get_mime_type(".pdf", false) {
        MimeLookup::GuessFromFileName(n) => assert_eq!(n, ".pdf"),
        _ => panic!("expected a file name guess"),
    }
}

#[test]
fn try_get_mime_type_refuses_invalid_schemes() {
    assert!(try_get_mime_type("my app://x", false).is_none());
    assert_eq!(known(try_get_mime_type("mailto://x", false).unwrap()), "x-scheme-handler/mailto");
    assert!(matches!(try_get_mime_type("my app://x", true), Some(MimeLookup::GuessFromPath)));
}

#[test]
fn guesses_become_media_types() {
    let zero = MimeType::parse("application/x-zerosize").unwrap();
    assert_eq!(mime_from_path_guess(&zero, None).unwrap().as_str(), "text/plain");
    let md = || Some((MimeType::parse("text/markdown").unwrap(), false));
    assert_eq!(mime_from_path_guess(&zero, md()).unwrap().as_str(), "text/markdown");
    let unsure = Some((MimeType::parse("text/markdown").unwrap(), true));
    assert_eq!(mime_from_path_guess(&zero, unsure).unwrap().as_str(), "text/plain");
    let pdf = MimeType::parse("application/pdf").unwrap();
    assert_eq!(mime_from_path_guess(&pdf, md()).unwrap().as_str(), "application/pdf");
    let png = MimeType::parse("image/png").unwrap();
    assert!(mime_from_name_guess(MimeType::parse("image/png").unwrap(), true).is_none());
    assert_eq!(mime_from_name_guess(png, false).unwrap().as_str(), "image/png");
}

#[test]
fn open_groups_paths_by_application() {
    let resolved = vec![
        ("a.png".to_string(), "/x/imv.desktop".to_string()),
        ("b.pdf".to_string(), "/x/zathura.desktop".to_string()),
        ("c.png".to_string(), "/x/imv.desktop".to_string()),
    ];
    let groups = group_by_entry(&resolved);
    assert_eq!(groups.len(), 2);
    assert_eq!(groups[0].0, "/x/imv.desktop");
    assert_eq!(groups[0].1, vec!["a.png".to_string(), "c.png".to_string()]);
    assert_eq!(groups[1].0, "/x/zathura.desktop");
    assert_eq!(groups[1].1, vec!["b.pdf".to_string()]);
    assert!(group_by_entry(&vec![]).is_empty());
}

#[test]
fn open_plans_each_group_once_with_the_terminal_last() {
    let resolved = vec![
        ("notes.txt".to_string(), "/x/vim.desktop".to_string()),
        ("page.html".to_string(), "/x/firefox.desktop".to_string()),
        ("todo.txt".to_string(), "/x/vim.desktop".to_string()),
    ];
    let terminal = vec!["/x/vim.desktop".to_string()];
    let plan = open(&resolved, &terminal, true);
    assert_eq!(plan.len(), 2);
    assert_eq!(plan[0].group, 1);
    assert_eq!(plan[0].entry, "/x/firefox.desktop");
    assert_eq!(plan[0].paths, vec!["page.html".to_string()]);
    assert!(!plan[0].take_terminal);
    assert_eq!(plan[1].group, 0);
    assert_eq!(plan[1].entry, "/x/vim.desktop");
    assert_eq!(plan[1].paths, vec!["notes.txt".to_string(), "todo.txt".to_string()]);
    assert!(plan[1].take_terminal);
    let plan = open(&resolved, &terminal, false);
    assert!(plan.iter().all(|g| !g.take_terminal));
    assert!(open(&vec![], &terminal, true).is_empty());
}

#[test]
fn set_default_makes_the_entry_the_only_default() {
    let mut apps = MimeApps::load("[Default Applications]\ntext/html=chromium.desktop;x.desktop\n[Added Associations]\ntext/html=y.desktop\n");
    let text = "[Desktop Entry]\nName=Firefox\nExec=firefox %u\n";
    let firefox = match DesktopEntry::load("/usr/share/applications/firefox.desktop", text.as_bytes()) {
        Ok(e) => e,
        Err(_) => panic!("firefox did not load"),
    };
    let html = MimeType::parse("text/html").unwrap();
    set_default(&mut apps, &html, &firefox);
    assert_eq!(apps.default_entries(&html).unwrap(), &vec!["firefox.desktop".to_string()]);
    assert_eq!(
        apps.to_text(),
        "[Default Applications]\ntext/html=firefox.desktop\n\n[Added Associations]\ntext/html=y.desktop\n\n[Removed Associations]\n"
    );
}
