use open::completions::{
    desktop_entry_cache_path, desktop_entry_source_dirs, update_completions, update_desktop_entry_cache,
    CacheState, EntryCache,
};
use open::desktop_entry::DesktopEntry;

fn entry(name: &str, exec: &str, no_display: bool) -> DesktopEntry {
    let text = format!("[Desktop Entry]\nName={}\nExec={}\nNoDisplay={}\n", name, exec, no_display);
    match DesktopEntry::load("x.desktop", text.as_bytes()) {
        Ok(e) => e,
        Err(_) => panic!("entry did not load"),
    }
}

#[test]
fn cache_paths() {
    assert_eq!(desktop_entry_cache_path("/home/u/.cache"), "/home/u/.cache/open/apps");
    assert_eq!(
        desktop_entry_source_dirs("/home/u/.local/share"),
        vec![
            "/home/u/.local/share/applications".to_string(),
            "/usr/share/applications".to_string(),
            "/usr/local/share/applications".to_string(),
        ]
    );
}

#[test]
fn cache_is_built_from_displayed_entries_with_an_executable() {
    let loaded = vec![
        (Some(entry("Neovim", "nvim %F", false)), "/a/nvim.desktop".to_string()),
        (None, "/a/broken.desktop".to_string()),
        (Some(entry("Hidden", "hidden %F", true)), "/a/hidden.desktop".to_string()),
        (Some(entry("NoCode", "nocode", false)), "/a/nocode.desktop".to_string()),
        (Some(entry("Neovim Qt", "nvim %U", false)), "/b/nvim-qt.desktop".to_string()),
    ];
    let cache = update_desktop_entry_cache(&loaded);
    assert_eq!(cache.get("nvim").unwrap(), "/b/nvim-qt.desktop");
    assert!(cache.get("hidden").is_none());
    assert!(cache.get("nocode").is_none());
    assert_eq!(cache.to_text(), "nvim\tNeovim Qt\t/b/nvim-qt.desktop\n");
}

#[test]
fn cache_text_reads_back() {
    let mut cache = EntryCache::new();
    cache.insert("nvim".to_string(), "Neovim".to_string(), "/a/nvim.desktop".to_string());
    cache.insert("firefox".to_string(), "Firefox".to_string(), "/a/firefox.desktop".to_string());
    let text = cache.to_text();
    assert_eq!(text, "nvim\tNeovim\t/a/nvim.desktop\nfirefox\tFirefox\t/a/firefox.desktop\n");
    let again = EntryCache::parse(&text).unwrap();
    assert_eq!(again.to_text(), text);
    assert_eq!(again.get("firefox").unwrap(), "/a/firefox.desktop");
}

#[test]
fn malformed_cache_is_refused() {
    assert!(EntryCache::parse("nvim\tNeovim\n").is_none());
    assert!(EntryCache::parse("\tNeovim\t/a\n").is_none());
    assert!(EntryCache::parse("nvim\tNeovim\t\n").is_none());
    assert!(EntryCache::parse("nvim\t\t/a\textra\n").is_some());
    assert!(EntryCache::parse("").is_some());
}

#[test]
fn update_completions_reuses_only_a_fresh_well_formed_cache() {
    let text = "nvim\tNeovim\t/a/nvim.desktop\n";
    match update_completions(Some(100), &vec![Some(50), None, Some(100)], Some(text)) {
        CacheState::Fresh(c) => assert_eq!(c.get("nvim").unwrap(), "/a/nvim.desktop"),
        _ => panic!("expected a fresh cache"),
    }
    assert!(matches!(update_completions(None, &vec![], Some(text)), CacheState::Outdated));
    assert!(matches!(update_completions(Some(100), &vec![Some(101)], Some(text)), CacheState::Outdated));
    assert!(matches!(update_completions(Some(100), &vec![], None), CacheState::Unreadable));
    assert!(matches!(update_completions(Some(100), &vec![], Some("bad line\n")), CacheState::Malformed));
    assert!(matches!(update_completions(Some(-5), &vec![Some(-6)], Some(text)), CacheState::Fresh(_)));
}
