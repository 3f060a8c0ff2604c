use lastlog::{
    get_module, is_valid, primary_files, modules, AccountDirectory, Backend,
    DbError, Override, Selection,
};

fn utmp_bytes() -> Vec<u8> {
    let mut e = vec![0u8; 384];
    e[0..4].copy_from_slice(&7i32.to_le_bytes());
    e[8..12].copy_from_slice(b"tty1");
    e[44..49].copy_from_slice(b"alice");
    e[340..344].copy_from_slice(&100i32.to_le_bytes());
    e
}

#[test]
fn unopenable_override_fails_without_probing_defaults() {
    let d = AccountDirectory::new();
    let found = vec![vec![true, true, true], vec![true]];
    let r = get_module(&modules(false), &Override::Unopenable, &d, 0, &found);
    assert_eq!(r, Err(DbError::InvalidInput));
}

#[test]
fn override_validated_in_priority_order() {
    let d = AccountDirectory::new();
    let r = get_module(&modules(false), &Override::Opened(utmp_bytes()), &d, 0, &vec![]);
    assert_eq!(r, Ok(Selection::Override(Backend::Utmp)));
    let slots = vec![0u8; 292];
    let r = get_module(&modules(false), &Override::Opened(slots), &d, 0, &vec![]);
    assert_eq!(r, Ok(Selection::Override(Backend::LastLog)));
}

#[test]
fn override_that_no_reader_accepts_is_not_found() {
    let d = AccountDirectory::new();
    let found = vec![vec![true, true, true], vec![true]];
    let r = get_module(&modules(false), &Override::Opened(vec![1, 2, 3]), &d, 0, &found);
    assert_eq!(r, Err(DbError::NotFound));
}

#[test]
fn defaults_probed_in_order() {
    let d = AccountDirectory::new();
    let found = vec![vec![false, false, true], vec![true]];
    let r = get_module(&modules(false), &Override::Unset, &d, 0, &found);
    assert_eq!(r, Ok(Selection::Default(Backend::Utmp, 2)));
    let found = vec![vec![false, false, false], vec![true]];
    let r = get_module(&modules(false), &Override::Unset, &d, 0, &found);
    assert_eq!(r, Ok(Selection::Default(Backend::LastLog, 0)));
}

#[test]
fn no_working_database_is_not_found() {
    let d = AccountDirectory::new();
    let found = vec![vec![false, false, false], vec![false]];
    let r = get_module(&modules(false), &Override::Unset, &d, 0, &found);
    assert_eq!(r, Err(DbError::NotFound));
}

#[test]
fn windows_reader_always_valid() {
    let d = AccountDirectory::new();
    assert!(is_valid(Backend::Windows, &[], &d, 0));
    let r = get_module(&modules(true), &Override::Unset, &d, 0, &vec![vec![true]]);
    assert_eq!(r, Ok(Selection::Default(Backend::Windows, 0)));
}

#[test]
fn well_known_locations() {
    assert_eq!(primary_files(Backend::Utmp), vec!["/var/run/utmp", "/var/log/utmp", "/var/log/wtmp"]);
    assert_eq!(primary_files(Backend::LastLog), vec!["/var/log/lastlog"]);
    assert_eq!(primary_files(Backend::Windows), vec![""]);
}
