use lastlog::utmp::{read_until, UTMP_ENTRY_SIZE};
use lastlog::{
    iter_accounts, search_self, search_uid, search_username, system_boot, AccountDirectory,
    CurrentUser, DbError, LoginTime, RecordType, Source, Until, Utmp,
};

fn entry(kind: i32, line: &str, user: &str, sec: i32) -> Vec<u8> {
    let mut e = vec![0u8; UTMP_ENTRY_SIZE];
    e[0..4].copy_from_slice(&kind.to_le_bytes());
    e[4..8].copy_from_slice(&1234i32.to_le_bytes());
    e[8..8 + line.len()].copy_from_slice(line.as_bytes());
    e[44..44 + user.len()].copy_from_slice(user.as_bytes());
    e[340..344].copy_from_slice(&sec.to_le_bytes());
    e
}

fn log(entries: &[Vec<u8>]) -> Vec<u8> {
    entries.concat()
}

fn alice_bob() -> AccountDirectory {
    let mut d = AccountDirectory::new();
    d.insert(1, "alice".to_string());
    d.insert(2, "bob".to_string());
    d
}

#[test]
fn entry_size_is_fixed() {
    assert_eq!(UTMP_ENTRY_SIZE, 384);
}

#[test]
fn latest_wins_in_full_scan() {
    let data = log(&[
        entry(7, "pts/0", "alice", 100),
        entry(7, "pts/1", "alice", 300),
        entry(7, "pts/2", "alice", 200),
    ]);
    let d = alice_bob();
    let all = Utmp {}.read_all(&data, &d).unwrap();
    let alice = all.iter().find(|r| r.name == "alice").unwrap();
    assert_eq!(alice.last_login, LoginTime::Last(300));
    assert_eq!(alice.tty, "pts/1");
    let accounts = Utmp {}.iter_accounts(&data, &d).unwrap();
    let alice = accounts.iter().find(|r| r.name == "alice").unwrap();
    assert_eq!(alice.last_login, LoginTime::Last(300));
}

#[test]
fn point_lookup_stops_at_newest_entry() {
    let data = log(&[
        entry(7, "pts/0", "alice", 100),
        entry(7, "pts/1", "alice", 300),
        entry(7, "pts/2", "alice", 200),
    ]);
    let d = alice_bob();
    let r = Utmp {}.search_username("alice", &data, &d).unwrap();
    assert_eq!(r.last_login, LoginTime::Last(200));
    assert_eq!(r.uid, Some(1));
}

#[test]
fn never_logged_in_accounts_are_synthesized() {
    let data = log(&[entry(7, "tty1", "alice", 500)]);
    let d = alice_bob();
    let records = iter_accounts(&Source::Utmp(data), &d).unwrap();
    assert_eq!(records.len(), 2);
    let bob = records.iter().find(|r| r.name == "bob").unwrap();
    assert_eq!(bob.last_login, LoginTime::Never);
    assert_eq!(bob.uid, Some(2));
    assert_eq!(bob.rtype, RecordType::User);
    let alice = records.iter().find(|r| r.name == "alice").unwrap();
    assert_eq!(alice.last_login, LoginTime::Last(500));
    assert_eq!(alice.tty, "tty1");
}

#[test]
fn early_stop_reads_only_trailing_entry() {
    let data = log(&[
        entry(7, "pts/0", "bob", 100),
        entry(7, "pts/1", "bob", 150),
        entry(7, "pts/2", "alice", 200),
    ]);
    let d = alice_bob();
    let scan = read_until(&d, &data, &Until::Name("alice".to_string())).unwrap();
    assert_eq!(scan.entries_read, 1);
    let scan = read_until(&d, &data, &Until::Uid(1)).unwrap();
    assert_eq!(scan.entries_read, 1);
    let scan = read_until(&d, &data, &Until::Uid(2)).unwrap();
    assert_eq!(scan.entries_read, 2);
    let scan = read_until(&d, &data, &Until::Sessions).unwrap();
    assert_eq!(scan.entries_read, 3);
    assert!(scan.stopped_at.is_none());
    let scan = read_until(&d, &data, &Until::Name("alice".to_string())).unwrap();
    assert_eq!(scan.stopped_at.unwrap().last_login, LoginTime::Last(200));
}

#[test]
fn unknown_uid_is_invalid_input() {
    let data = log(&[entry(7, "tty1", "alice", 500)]);
    let d = alice_bob();
    assert_eq!(search_uid(99999, &Source::Utmp(data), &d).unwrap_err(), DbError::InvalidInput);
}

#[test]
fn unknown_name_is_invalid_input() {
    let data = log(&[entry(7, "tty1", "alice", 500)]);
    let d = alice_bob();
    assert_eq!(
        search_username("mallory", &Source::Utmp(data), &d).unwrap_err(),
        DbError::InvalidInput
    );
}

#[test]
fn lookup_by_uid_finds_latest() {
    let data = log(&[entry(7, "tty1", "bob", 50), entry(7, "tty2", "alice", 500)]);
    let d = alice_bob();
    let r = search_uid(2, &Source::Utmp(data.clone()), &d).unwrap();
    assert_eq!(r.name, "bob");
    assert_eq!(r.last_login, LoginTime::Last(50));
    let me = search_self(&CurrentUser::Uid(1), &Source::Utmp(data), &d).unwrap();
    assert_eq!(me.last_login, LoginTime::Last(500));
}

#[test]
fn out_of_range_kind_tag_is_corrupt() {
    let data = log(&[entry(7, "tty1", "alice", 500), entry(11, "tty1", "alice", 600)]);
    let d = alice_bob();
    assert!(!Utmp {}.is_valid(&data, &d));
    assert_eq!(search_uid(1, &Source::Utmp(data.clone()), &d).unwrap_err(), DbError::InvalidData);
    assert_eq!(Utmp {}.read_all(&data, &d).unwrap_err(), DbError::InvalidData);
    let ten = log(&[entry(10, "tty1", "alice", 600)]);
    assert_eq!(Utmp {}.read_all(&ten, &d).unwrap_err(), DbError::InvalidData);
    let negative = log(&[entry(-1, "tty1", "alice", 600)]);
    assert_eq!(Utmp {}.read_all(&negative, &d).unwrap_err(), DbError::InvalidData);
}

#[test]
fn zero_timestamp_entry_is_corrupt() {
    let data = log(&[entry(7, "tty1", "alice", 0)]);
    let d = alice_bob();
    assert!(!Utmp {}.is_valid(&data, &d));
    assert_eq!(Utmp {}.read_all(&data, &d).unwrap_err(), DbError::InvalidData);
}

#[test]
fn non_utf8_user_is_corrupt() {
    let mut e = entry(7, "tty1", "alice", 500);
    e[45] = 0xff;
    let d = alice_bob();
    assert!(!Utmp {}.is_valid(&e, &d));
    assert_eq!(Utmp {}.read_all(&e, &d).unwrap_err(), DbError::InvalidData);
}

#[test]
fn partial_trailing_entry_is_corrupt() {
    let mut data = log(&[entry(7, "tty1", "alice", 500)]);
    data.push(0);
    let d = alice_bob();
    assert_eq!(Utmp {}.read_all(&data, &d).unwrap_err(), DbError::InvalidData);
    assert!(!Utmp {}.is_valid(&[0u8; 10], &d));
}

#[test]
fn valid_log_passes_sniff_test() {
    let data = log(&[entry(11, "x", "y", 1), entry(7, "tty1", "alice", 500)]);
    let d = alice_bob();
    assert!(Utmp {}.is_valid(&data, &d));
}

#[test]
fn empty_log_gives_never_records() {
    let d = alice_bob();
    let all = Utmp {}.read_all(&[], &d).unwrap();
    assert_eq!(all.len(), 2);
    assert!(all.iter().all(|r| r.last_login == LoginTime::Never));
}

#[test]
fn boot_record_is_found() {
    let data = log(&[
        entry(2, "~", "reboot", 1000),
        entry(7, "tty1", "alice", 1100),
        entry(8, "tty1", "", 1200),
    ]);
    let d = alice_bob();
    let boot = system_boot(&data, &d).unwrap();
    assert_eq!(boot.rtype, RecordType::BootTime);
    assert_eq!(boot.name, "reboot");
    assert_eq!(boot.uid, None);
    assert_eq!(boot.last_login, LoginTime::Last(1000));
}

#[test]
fn missing_boot_record_is_not_found() {
    let data = log(&[entry(7, "tty1", "alice", 1100)]);
    let d = alice_bob();
    assert_eq!(system_boot(&data, &d).unwrap_err(), DbError::NotFound);
}

#[test]
fn iteration_keeps_only_known_user_sessions() {
    let data = log(&[
        entry(2, "~", "reboot", 1000),
        entry(7, "pts/3", "stranger", 1050),
        entry(7, "tty1", "alice", 1100),
    ]);
    let d = alice_bob();
    let records = Utmp {}.iter_accounts(&data, &d).unwrap();
    let mut names: Vec<&str> = records.iter().map(|r| r.name.as_str()).collect();
    names.sort();
    assert_eq!(names, vec!["alice", "bob"]);
}

#[test]
fn name_missing_from_directory_is_invalid_input() {
    let data = log(&[entry(7, "pts/3", "stranger", 1050)]);
    let d = alice_bob();
    assert_eq!(
        Utmp {}.search_username("stranger", &data, &d).unwrap_err(),
        DbError::InvalidInput
    );
    assert_eq!(
        search_username("stranger", &Source::Utmp(data), &d).unwrap_err(),
        DbError::InvalidInput
    );
}

#[test]
fn non_session_entries_do_not_hide_sessions() {
    let data = log(&[
        entry(7, "tty1", "alice", 100),
        entry(8, "tty1", "alice", 200),
        entry(6, "tty2", "bob", 300),
    ]);
    let d = alice_bob();
    let records = Utmp {}.iter_accounts(&data, &d).unwrap();
    assert_eq!(records.len(), 2);
    let alice = records.iter().find(|r| r.name == "alice").unwrap();
    assert_eq!(alice.last_login, LoginTime::Last(100));
    assert_eq!(alice.rtype, RecordType::User);
    let bob = records.iter().find(|r| r.name == "bob").unwrap();
    assert_eq!(bob.last_login, LoginTime::Never);
    let r = search_uid(2, &Source::Utmp(data.clone()), &d).unwrap();
    assert_eq!(r.rtype, RecordType::User);
    assert_eq!(r.last_login, LoginTime::Never);
    let r = search_uid(1, &Source::Utmp(data.clone()), &d).unwrap();
    assert_eq!(r.last_login, LoginTime::Last(100));
    let scan = read_until(&d, &data, &Until::Uid(1)).unwrap();
    assert_eq!(scan.entries_read, 3);
    let all = Utmp {}.read_all(&data, &d).unwrap();
    let alice = all.iter().find(|r| r.name == "alice").unwrap();
    assert_eq!(alice.rtype, RecordType::DeadProc);
}

#[test]
fn newest_boot_record_survives_later_entries_of_its_name() {
    let data = log(&[
        entry(2, "~", "reboot", 1000),
        entry(2, "~", "reboot", 2000),
        entry(1, "~", "reboot", 2500),
        entry(7, "tty1", "alice", 2600),
    ]);
    let d = alice_bob();
    let boot = system_boot(&data, &d).unwrap();
    assert_eq!(boot.rtype, RecordType::BootTime);
    assert_eq!(boot.last_login, LoginTime::Last(2000));
}

#[test]
fn latest_boot_wins_over_append_order() {
    let data = log(&[
        entry(2, "~", "reboot", 500),
        entry(2, "~", "reboot", 300),
        entry(7, "tty1", "alice", 600),
    ]);
    let d = alice_bob();
    let boot = system_boot(&data, &d).unwrap();
    assert_eq!(boot.last_login, LoginTime::Last(500));
}

#[test]
fn boot_query_fails_on_corrupt_entry() {
    let data = log(&[entry(11, "~", "reboot", 500), entry(2, "~", "reboot", 300)]);
    let d = alice_bob();
    assert_eq!(system_boot(&data, &d).unwrap_err(), DbError::InvalidData);
}
