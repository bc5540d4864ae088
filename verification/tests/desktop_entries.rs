use open::completions::EntryCache;
use open::desktop_entry::{
    data_file_candidates, desktop_file_candidate, get_terminal, terminal_mime_type, terminal_search,
    DesktopEntry, ExecPlan, LoadError, PathError, TerminalSearch,
};
use open::mime_apps::MimeApps;
use open::mime_type::MimeType;

const FIREFOX: &str = "[Desktop Entry]\n\
Version=1.0\n\
Name=Firefox\n\
GenericName=Web Browser\n\
GenericName[ar]=x\n\
Exec=/usr/lib/firefox/firefox %u\n\
Categories=Network;WebBrowser;\n\
\n\
[Desktop Action new-window]\n\
Name=New Window\n\
Exec=/usr/lib/firefox/firefox --new-window %u\n";

fn entry(name: &str, exec: &str, terminal: bool, categories: &str) -> DesktopEntry {
    let text = format!(
        "[Desktop Entry]\nName={}\nExec={}\nTerminal={}\nCategories={}\n",
        name, exec, terminal, categories
    );
    match DesktopEntry::load("/usr/share/applications/x.desktop", text.as_bytes()) {
        Ok(e) => e,
        Err(_) => panic!("entry did not load"),
    }
}

fn args(v: &[&str]) -> Vec<String> {
    v.iter().map(|s| s.to_string()).collect()
}

#[test]
fn load_reads_the_desktop_entry_section() {
    let e = match DesktopEntry::load("/usr/share/applications/firefox.desktop", FIREFOX.as_bytes()) {
        Ok(e) => e,
        Err(_) => panic!("firefox did not load"),
    };
    assert_eq!(e.name, "Firefox");
    assert_eq!(e.file_name, "firefox.desktop");
    assert!(!e.no_display);
    assert_eq!(e.executable_name().unwrap(), "firefox");
    let browser = vec![Some(e)];
    assert!(DesktopEntry::guess_from_category(browser, "WebBrowser").is_some());
}

#[test]
fn load_reports_missing_keys_in_order() {
    let no_exec = "[Desktop Entry]\nName=X\n";
    match DesktopEntry::load("a/x.desktop", no_exec.as_bytes()) {
        Err(LoadError::MissingKey { path, key }) => {
            assert_eq!(path, "a/x.desktop");
            assert_eq!(key, "Exec");
        },
        _ => panic!("expected a missing Exec"),
    }
    let empty_name = "[Desktop Entry]\nName=\nExec=x\n";
    match DesktopEntry::load("x.desktop", empty_name.as_bytes()) {
        Err(LoadError::MissingKey { key, .. }) => assert_eq!(key, "Name"),
        _ => panic!("expected a missing Name"),
    }
    let other_section = "[Desktop Action x]\nName=X\nExec=x\n";
    match DesktopEntry::load("x.desktop", other_section.as_bytes()) {
        Err(LoadError::MissingKey { key, .. }) => assert_eq!(key, "Exec"),
        _ => panic!("expected a missing Exec"),
    }
}

#[test]
fn load_reports_unparsable_files() {
    match DesktopEntry::load("x.desktop", b"[Desktop Entry]\nName=\xff\n") {
        Err(LoadError::Parse { path }) => assert_eq!(path, "x.desktop"),
        _ => panic!("expected a parse error"),
    }
}

#[test]
fn from_values_flags_and_categories() {
    let e = match DesktopEntry::from_values(
        "dir/nvim.desktop",
        Some("nvim %F".to_string()),
        Some("Neovim".to_string()),
        Some("true".to_string()),
        Some("Utility;TextEditor;".to_string()),
        Some("false".to_string()),
    ) {
        Ok(e) => e,
        Err(_) => panic!("nvim did not load"),
    };
    assert_eq!(e.file_name, "nvim.desktop");
    assert!(!e.no_display);
    assert!(DesktopEntry::guess_from_category(vec![Some(e)], "TextEditor").is_some());
    let hidden = match DesktopEntry::from_values(
        "h.desktop",
        Some("h".to_string()),
        Some("H".to_string()),
        None,
        None,
        Some("true".to_string()),
    ) {
        Ok(e) => e,
        Err(_) => panic!("h did not load"),
    };
    assert!(hidden.no_display);
}

#[test]
fn executable_name_takes_the_word_before_the_field_code() {
    assert_eq!(entry("Neovim", "nvim %F", false, "").executable_name().unwrap(), "nvim");
    assert_eq!(entry("Gimp", "'/usr/bin/gimp-3.2' --new %U", false, "").executable_name().unwrap(), "gimp-3.2");
    assert_eq!(entry("P", "env A=1 prog --flag %f", false, "").executable_name().unwrap(), "prog");
    assert!(entry("NoCode", "nvim", false, "").executable_name().is_none());
    assert!(entry("OnlyFlags", "--a %f", false, "").executable_name().is_none());
}

#[test]
fn execute_passes_all_arguments_for_list_codes() {
    let e = entry("Neovim", "nvim -p %F", false, "");
    match e.execute(&args(&["a", "b"]), false, None) {
        ExecPlan::Launch(l) => {
            assert_eq!(l.program, "nvim");
            assert_eq!(l.args, args(&["-p", "a", "b"]));
            assert!(!l.replace_process);
            assert!(!l.consume_terminal_after);
        },
        _ => panic!("expected a launch"),
    }
}

#[test]
fn execute_runs_once_per_argument_for_single_codes() {
    let e = entry("Firefox", "firefox %u", false, "");
    assert!(matches!(e.execute(&args(&["a", "b"]), false, None), ExecPlan::PerArgument));
    match e.execute(&args(&["a"]), true, None) {
        ExecPlan::Launch(l) => {
            assert_eq!(l.program, "firefox");
            assert_eq!(l.args, args(&["a"]));
            assert!(!l.replace_process);
            assert!(l.consume_terminal_after);
        },
        _ => panic!("expected a launch"),
    }
}

#[test]
fn execute_appends_arguments_without_field_codes() {
    let e = entry("Imv", "imv -f", false, "");
    match e.execute(&args(&["x.png"]), false, None) {
        ExecPlan::Launch(l) => assert_eq!(l.args, args(&["-f", "x.png"])),
        _ => panic!("expected a launch"),
    }
}

#[test]
fn execute_in_a_terminal() {
    let e = entry("Neovim", "nvim %F", true, "");
    let term = entry("Alacritty", "alacritty", false, "TerminalEmulator");
    assert!(matches!(e.execute(&args(&["a"]), false, None), ExecPlan::MissingTerminal));
    match e.execute(&args(&["a"]), false, Some(&term)) {
        ExecPlan::Launch(l) => {
            assert_eq!(l.program, "alacritty");
            assert_eq!(l.args, args(&["-e", "nvim", "a"]));
            assert!(!l.replace_process);
        },
        _ => panic!("expected a launch"),
    }
    match e.execute(&args(&["a"]), true, None) {
        ExecPlan::Launch(l) => {
            assert_eq!(l.program, "nvim");
            assert_eq!(l.args, args(&["a"]));
            assert!(l.replace_process);
            assert!(!l.consume_terminal_after);
        },
        _ => panic!("expected a launch"),
    }
}

fn mt(s: &str) -> MimeType {
    MimeType::parse(s).unwrap()
}

#[test]
fn path_from_mimetype_takes_the_first_installed_default() {
    let apps = MimeApps::load("[Default Applications]\ntext/html=a.desktop;b.desktop;c.desktop\n");
    let found = vec![None, Some("/usr/share/applications/b.desktop".to_string()), Some("/x/c.desktop".to_string())];
    match DesktopEntry::path_from_mimetype(&apps, &mt("text/html"), &found) {
        Ok(p) => assert_eq!(p, "/usr/share/applications/b.desktop"),
        Err(_) => panic!("expected a path"),
    }
    assert_eq!(
        data_file_candidates(&args(&["a.desktop", "b.desktop"])),
        args(&["applications/a.desktop", "applications/b.desktop"])
    );
}

#[test]
fn path_from_mimetype_errors() {
    let apps = MimeApps::load("[Default Applications]\ntext/html=a.desktop\nimage/*=x.desktop;y.desktop\n");
    match DesktopEntry::path_from_mimetype(&apps, &mt("video/mp4"), &vec![]) {
        Err(PathError::NoDefault { mime }) => assert_eq!(mime, "video/mp4"),
        _ => panic!("expected no default"),
    }
    match DesktopEntry::path_from_mimetype(&apps, &mt("text/html"), &vec![None]) {
        Err(PathError::NotInstalled { name, mime }) => {
            assert_eq!(name, "a.desktop");
            assert_eq!(mime, "text/html");
        },
        _ => panic!("expected not installed"),
    }
    match DesktopEntry::path_from_mimetype(&apps, &mt("image/png"), &vec![None, None]) {
        Err(PathError::NoneInstalled { names, mime }) => {
            assert_eq!(names, args(&["x.desktop", "y.desktop"]));
            assert_eq!(mime, "image/png");
        },
        _ => panic!("expected none installed"),
    }
}

#[test]
fn guess_from_category_takes_the_first_entry_in_the_category() {
    let loaded = vec![
        None,
        Some(entry("Files", "files %U", false, "System;FileManager")),
        Some(entry("Term", "term", false, "TerminalEmulator")),
        Some(entry("Other", "other", false, "TerminalEmulator")),
    ];
    assert_eq!(DesktopEntry::guess_from_category(loaded, "TerminalEmulator").unwrap().name, "Term");
    let loaded = vec![None, Some(entry("Term", "term", false, "System;TerminalEmulator;"))];
    assert_eq!(DesktopEntry::guess_from_category(loaded, "TerminalEmulator").unwrap().name, "Term");
    let loaded = vec![Some(entry("Files", "files %U", false, "System;FileManager"))];
    assert!(DesktopEntry::guess_from_category(loaded, "TerminalEmulator").is_none());
    assert!(DesktopEntry::guess_from_category(vec![None], "TerminalEmulator").is_none());
}

#[test]
fn guess_from_name_prefers_the_desktop_file() {
    assert_eq!(
        desktop_file_candidate("org.mozilla.firefox.desktop"),
        "applications/org.mozilla.firefox.desktop"
    );
    assert_eq!(desktop_file_candidate("firefox"), "applications/firefox.desktop");
    assert_eq!(desktop_file_candidate("desktop"), "applications/desktop.desktop");
    let mut cache = EntryCache::new();
    cache.insert("nvim".to_string(), "Neovim".to_string(), "/usr/share/applications/nvim.desktop".to_string());
    let found = Some("/usr/share/applications/org.mozilla.firefox.desktop".to_string());
    match DesktopEntry::guess_from_name(found, &cache, "org.mozilla.firefox.desktop") {
        Ok(p) => assert_eq!(p, "/usr/share/applications/org.mozilla.firefox.desktop"),
        Err(_) => panic!("expected the desktop file"),
    }
    match DesktopEntry::guess_from_name(None, &cache, "nvim") {
        Ok(p) => assert_eq!(p, "/usr/share/applications/nvim.desktop"),
        Err(_) => panic!("expected the cached entry"),
    }
    match DesktopEntry::guess_from_name(None, &cache, "org.mozilla.firefox.desktop") {
        Err(e) => assert_eq!(e.name, "org.mozilla.firefox.desktop"),
        Ok(_) => panic!("expected no entry"),
    }
}

#[test]
fn try_from_name_uses_the_cache() {
    let mut cache = EntryCache::new();
    cache.insert("nvim".to_string(), "Neovim".to_string(), "/usr/share/applications/nvim.desktop".to_string());
    match DesktopEntry::try_from_name(&cache, "nvim") {
        Ok(p) => assert_eq!(p, "/usr/share/applications/nvim.desktop"),
        Err(_) => panic!("expected a path"),
    }
    match DesktopEntry::try_from_name(&cache, "emacs") {
        Err(e) => assert_eq!(e.name, "emacs"),
        Ok(_) => panic!("expected no entry"),
    }
}

#[test]
fn terminal_lookup_decisions() {
    assert_eq!(terminal_mime_type().unwrap().as_str(), "x-scheme-handler/terminal");
    assert!(matches!(terminal_search(Some("kitty".to_string())), TerminalSearch::ByName(n) if n == "kitty"));
    assert!(matches!(terminal_search(None), TerminalSearch::ByCategory(c) if c == "TerminalEmulator"));
    let t = entry("Alacritty", "alacritty", false, "TerminalEmulator");
    let other = entry("Kitty", "kitty", false, "TerminalEmulator");
    assert_eq!(get_terminal(Some(Some(t)), None).unwrap().name, "Alacritty");
    assert!(get_terminal(Some(None), Some(other)).is_none());
    let other = entry("Kitty", "kitty", false, "TerminalEmulator");
    assert_eq!(get_terminal(None, Some(other)).unwrap().name, "Kitty");
    assert!(get_terminal(None, None).is_none());
}

#[test]
fn only_one_launch_takes_the_terminal() {
    let e = entry("Neovim", "nvim %F", true, "");
    let term = entry("Alacritty", "alacritty", false, "TerminalEmulator");
    let mut consume = true;
    match e.execute(&args(&["a"]), consume, None) {
        ExecPlan::Launch(l) => {
            assert!(l.replace_process);
            consume = l.consume_terminal_after;
        },
        _ => panic!("expected a launch"),
    }
    assert!(!consume);
    assert!(e.needs_terminal(consume));
    match e.execute(&args(&["b"]), consume, Some(&term)) {
        ExecPlan::Launch(l) => assert!(!l.replace_process),
        _ => panic!("expected a launch"),
    }
}

#[test]
fn can_execute_checks_for_a_program_and_an_argument() {
    let e = entry("Firefox", "firefox %u", false, "");
    assert!(e.can_execute(1, false, false));
    assert!(!e.can_execute(0, false, false));
    let blank = entry("Blank", " ", false, "");
    assert!(!blank.can_execute(1, false, false));
    let list = entry("Files", "files %U", false, "");
    assert!(list.can_execute(0, false, false));
    assert!(!entry("T", "t", true, "").needs_terminal(true));
}

#[test]
fn a_missing_terminal_needs_no_argument() {
    let e = entry("Vim", "vim %f", true, "");
    assert!(e.can_execute(0, false, false));
    assert!(matches!(e.execute(&args(&[]), false, None), ExecPlan::MissingTerminal));
    assert!(!e.can_execute(0, false, true));
    assert!(!e.can_execute(0, true, false));
    assert!(e.can_execute(1, true, false));
}

#[test]
fn execute_runs_once_per_argument_in_order() {
    let e = entry("Firefox", "firefox --new %u", false, "");
    let (plans, after) = e.execute_runs(&args(&["a", "b"]), true, None);
    assert_eq!(plans.len(), 2);
    for (plan, arg) in plans.iter().zip(["a", "b"]) {
        match plan {
            ExecPlan::Launch(l) => {
                assert_eq!(l.program, "firefox");
                assert_eq!(l.args, args(&["--new", arg]));
                assert!(!l.replace_process);
            },
            _ => panic!("expected a launch"),
        }
    }
    assert!(after);
}

#[test]
fn execute_runs_hand_the_terminal_on_once() {
    let e = entry("Vim", "vim %f", true, "");
    let term = entry("Alacritty", "alacritty", false, "TerminalEmulator");
    let (plans, after) = e.execute_runs(&args(&["a", "b"]), true, Some(&term));
    match &plans[0] {
        ExecPlan::Launch(l) => {
            assert_eq!(l.program, "vim");
            assert_eq!(l.args, args(&["a"]));
            assert!(l.replace_process);
            assert!(!l.consume_terminal_after);
        },
        _ => panic!("expected a launch"),
    }
    match &plans[1] {
        ExecPlan::Launch(l) => {
            assert_eq!(l.program, "alacritty");
            assert_eq!(l.args, args(&["-e", "vim", "b"]));
            assert!(!l.replace_process);
        },
        _ => panic!("expected a launch"),
    }
    assert!(!after);
    let (plans, after) = e.execute_runs(&args(&["a", "b"]), false, None);
    assert!(matches!(plans[0], ExecPlan::MissingTerminal));
    assert!(matches!(plans[1], ExecPlan::MissingTerminal));
    assert!(!after);
}
