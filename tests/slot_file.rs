use lastlog::lastlog::{read_lastlog, LASTLOG_ENTRY_SIZE};
use lastlog::{
    guess_uid, iter_accounts, search_uid, search_username, AccountDirectory, DbError, LastLog,
    LoginTime, RecordType, Source,
};

fn write_slot(data: &mut Vec<u8>, uid: usize, ts: u32, line: &str) {
    let start = uid * LASTLOG_ENTRY_SIZE;
    if data.len() < start + LASTLOG_ENTRY_SIZE {
        data.resize(start + LASTLOG_ENTRY_SIZE, 0);
    }
    let slot = &mut data[start..start + LASTLOG_ENTRY_SIZE];
    slot.fill(0);
    slot[0..4].copy_from_slice(&ts.to_le_bytes());
    slot[4..4 + line.len()].copy_from_slice(line.as_bytes());
    slot[36..40].copy_from_slice(b"host");
}

fn directory() -> AccountDirectory {
    let mut d = AccountDirectory::new();
    d.insert(3, "carol".to_string());
    d.insert(0, "root".to_string());
    d.insert(1, "daemon".to_string());
    d
}

#[test]
fn slot_size_is_fixed() {
    assert_eq!(LASTLOG_ENTRY_SIZE, 292);
}

#[test]
fn written_slot_reads_back() {
    let mut data = Vec::new();
    write_slot(&mut data, 3, 1_700_000_000, "pts/7");
    let d = directory();
    let r = search_uid(3, &Source::LastLog(data.clone()), &d).unwrap();
    assert_eq!(r.last_login, LoginTime::Last(1_700_000_000));
    assert_eq!(r.tty, "pts/7");
    assert_eq!(r.name, "carol");
    assert_eq!(r.uid, Some(3));
    assert_eq!(r.rtype, RecordType::User);
    let r = search_username("carol", &Source::LastLog(data), &d).unwrap();
    assert_eq!(r.last_login, LoginTime::Last(1_700_000_000));
}

#[test]
fn zero_slot_reads_back_as_never() {
    let mut data = Vec::new();
    write_slot(&mut data, 3, 0, "");
    let r = read_lastlog(&data, "carol", 3).unwrap();
    assert_eq!(r.last_login, LoginTime::Never);
    assert_eq!(r.tty, "");
}

#[test]
fn slot_past_end_fails() {
    let mut data = Vec::new();
    write_slot(&mut data, 1, 10, "tty1");
    assert_eq!(read_lastlog(&data, "carol", 3).unwrap_err(), DbError::UnexpectedEof);
    let mut short = data.clone();
    short.pop();
    assert_eq!(read_lastlog(&short, "daemon", 1).unwrap_err(), DbError::UnexpectedEof);
}

#[test]
fn non_utf8_terminal_fails() {
    let mut data = Vec::new();
    write_slot(&mut data, 0, 10, "tty1");
    data[5] = 0xfe;
    assert_eq!(read_lastlog(&data, "root", 0).unwrap_err(), DbError::InvalidData);
}

#[test]
fn unknown_ids_and_names_are_invalid_input() {
    let mut data = Vec::new();
    write_slot(&mut data, 3, 10, "tty1");
    let d = directory();
    assert_eq!(search_uid(99999, &Source::LastLog(data.clone()), &d).unwrap_err(), DbError::InvalidInput);
    assert_eq!(
        search_username("nobody", &Source::LastLog(data), &d).unwrap_err(),
        DbError::InvalidInput
    );
}

#[test]
fn all_slots_in_uid_order() {
    let mut data = Vec::new();
    write_slot(&mut data, 0, 5, "tty1");
    write_slot(&mut data, 1, 0, "");
    write_slot(&mut data, 3, 7, "pts/0");
    let d = directory();
    let records = iter_accounts(&Source::LastLog(data.clone()), &d).unwrap();
    let uids: Vec<Option<u32>> = records.iter().map(|r| r.uid).collect();
    assert_eq!(uids, vec![Some(0), Some(1), Some(3)]);
    assert_eq!(records[0].last_login, LoginTime::Last(5));
    assert_eq!(records[1].last_login, LoginTime::Never);
    assert_eq!(records[2].last_login, LoginTime::Last(7));
    assert_eq!(records[2].name, "carol");
    data.truncate(3 * LASTLOG_ENTRY_SIZE);
    assert_eq!(iter_accounts(&Source::LastLog(data), &d).unwrap_err(), DbError::UnexpectedEof);
}

#[test]
fn sniff_test_reads_guessed_slot() {
    let mut data = Vec::new();
    write_slot(&mut data, 1, 5, "tty1");
    assert!(LastLog {}.is_valid(&data, 0));
    assert!(LastLog {}.is_valid(&data, 1));
    assert!(!LastLog {}.is_valid(&data, 2));
}

#[test]
fn uid_guess_from_user_name() {
    let d = directory();
    assert_eq!(guess_uid(Some("carol"), &d), 3);
    assert_eq!(guess_uid(Some("nobody"), &d), 0);
    assert_eq!(guess_uid(None, &d), 0);
}

#[test]
fn non_utf8_remote_host_fails() {
    let mut data = Vec::new();
    write_slot(&mut data, 0, 10, "tty1");
    data[40] = 0xff;
    assert_eq!(read_lastlog(&data, "root", 0).unwrap_err(), DbError::InvalidData);
}
