use centripetal::{LocalStorage, Storage};

#[test]
fn categories_resolve_to_their_directories() {
    let s = LocalStorage::new("/home/user/.config/app".to_string(), "/home/user/.data/saves".to_string());
    assert_eq!(s.dir(Storage::Settings), "/home/user/.config/app");
    assert_eq!(s.dir(Storage::Saves), "/home/user/.data/saves");
}

#[test]
fn file_paths_join_directory_and_name() {
    let s = LocalStorage::new("/cfg".to_string(), "/data/saves".to_string());
    assert_eq!(s.file_path(Storage::Settings, "keyboard.pref"), "/cfg/keyboard.pref");
    assert_eq!(s.file_path(Storage::Saves, "slot1.save"), "/data/saves/slot1.save");
    assert_eq!(s.keyboard_pref_path(), "/cfg/keyboard.pref");
}

#[test]
fn platform_layout_puts_saves_under_the_data_directory() {
    let s = LocalStorage::from_platform("/home/u/.config/app".to_string(), "/home/u/.local/share/app".to_string());
    assert_eq!(s.dir(Storage::Settings), "/home/u/.config/app");
    assert_eq!(s.dir(Storage::Saves), "/home/u/.local/share/app/saves");
}

#[test]
fn platform_discovery_yields_usable_paths_when_a_home_exists() {
    // environment-dependent: when the platform reports directories, the
    // resolved paths must be non-empty and join cleanly
    if let Some(s) = LocalStorage::discover() {
        assert!(!s.dir(Storage::Settings).is_empty());
        assert!(!s.dir(Storage::Saves).is_empty());
        let p = s.keyboard_pref_path();
        assert!(p.ends_with("/keyboard.pref"));
    }
}
