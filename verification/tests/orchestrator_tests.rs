use centripetal::{
    encode_value, InputKeyboardPref, KeyId, LoadAction, LoadState, PersistError, PrefLoader,
};

#[test]
fn first_tick_starts_the_load_exactly_once() {
    let mut l = PrefLoader::new();
    assert_eq!(l.phase(), LoadState::Idle);
    assert_eq!(l.tick(None), LoadAction::StartLoad);
    assert_eq!(l.phase(), LoadState::Loading);
    // while the read is in flight, ticking just waits
    assert_eq!(l.tick(None), LoadAction::Wait);
    assert_eq!(l.tick(None), LoadAction::Wait);
    assert_eq!(l.phase(), LoadState::Loading);
}

#[test]
fn successful_load_adopts_the_stored_value() {
    let stored = InputKeyboardPref {
        up: KeyId(1),
        down: KeyId(2),
        left: KeyId(3),
        right: KeyId(4),
    };
    let bytes = encode_value(&stored).unwrap();
    let mut l = PrefLoader::new();
    l.tick(None);
    assert_eq!(l.tick(Some(Ok(bytes))), LoadAction::Wait);
    assert_eq!(l.phase(), LoadState::Settled);
    assert_eq!(*l.value(), stored);
}

#[test]
fn missing_file_defaults_and_schedules_one_write() {
    let mut l = PrefLoader::new();
    l.tick(None);
    let action = l.tick(Some(Err(PersistError::NotFound)));
    assert_eq!(action, LoadAction::PersistDefault);
    assert_eq!(*l.value(), InputKeyboardPref::default());
    // settled: no further action is ever requested
    assert_eq!(l.tick(None), LoadAction::Wait);
    assert_eq!(l.tick(None), LoadAction::Wait);
    assert_eq!(l.phase(), LoadState::Settled);
}

#[test]
fn defaulted_file_reloads_to_the_same_value() {
    // first run: no file; the default becomes live and is persisted
    let mut first = PrefLoader::new();
    first.tick(None);
    assert_eq!(
        first.tick(Some(Err(PersistError::NotFound))),
        LoadAction::PersistDefault
    );
    let written = encode_value(first.value()).unwrap();
    // next run: the persisted default loads back unchanged
    let mut second = PrefLoader::new();
    second.tick(None);
    assert_eq!(second.tick(Some(Ok(written))), LoadAction::Wait);
    assert_eq!(*second.value(), *first.value());
}

#[test]
fn other_errors_default_without_write_back() {
    let mut l = PrefLoader::new();
    l.tick(None);
    let action = l.tick(Some(Err(PersistError::Io)));
    assert_eq!(action, LoadAction::Report(PersistError::Io));
    assert_eq!(*l.value(), InputKeyboardPref::default());
}

#[test]
fn malformed_file_defaults_and_reports() {
    let mut l = PrefLoader::new();
    l.tick(None);
    let action = l.tick(Some(Ok(vec![9, 9, 9])));
    assert!(matches!(action, LoadAction::Report(_)));
    assert_eq!(*l.value(), InputKeyboardPref::default());
    assert_eq!(l.phase(), LoadState::Settled);
}
