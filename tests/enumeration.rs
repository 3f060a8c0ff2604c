use lastlog::windows::get_latest_default;
use lastlog::{
    search_self, search_uid, search_username, AccountDirectory, CurrentUser, DbError, LoginTime,
    Source, WinAccount, Windows,
};

fn acct(name: &str, uid: u32, last_logon: u32) -> WinAccount {
    WinAccount { name: name.to_string(), uid, last_logon }
}

#[test]
fn enumerated_accounts_become_records() {
    let records = Windows {}.iter_accounts(&vec![acct("alice", 1001, 0), acct("bob", 1002, 77)]);
    assert_eq!(records.len(), 2);
    assert_eq!(records[0].tty, "N/A");
    assert_eq!(records[0].last_login, LoginTime::Never);
    assert_eq!(records[1].last_login, LoginTime::Last(77));
    assert_eq!(records[1].uid, Some(1002));
}

#[test]
fn placeholder_login_is_moved_to_searched_account() {
    let accounts = vec![acct("defaultuser0", 1000, 300), acct("defaultuser1", 999, 500), acct("alice", 1001, 0)];
    let d = AccountDirectory::new();
    let r = search_username("alice", &Source::Windows(accounts.clone()), &d).unwrap();
    assert_eq!(r.last_login, LoginTime::Last(500));
    let r = search_uid(1001, &Source::Windows(accounts), &d).unwrap();
    assert_eq!(r.last_login, LoginTime::Last(500));
    assert_eq!(r.name, "alice");
}

#[test]
fn no_correction_when_a_real_account_logged_in() {
    let accounts = vec![acct("defaultuser0", 1000, 300), acct("bob", 1002, 100), acct("alice", 1001, 0)];
    let d = AccountDirectory::new();
    let r = search_username("alice", &Source::Windows(accounts), &d).unwrap();
    assert_eq!(r.last_login, LoginTime::Never);
}

#[test]
fn latest_default_cases() {
    let records = Windows {}.iter_accounts(&vec![acct("alice", 1, 0), acct("bob", 2, 0)]);
    assert_eq!(get_latest_default(&records), None);
    let records = Windows {}.iter_accounts(&vec![acct("defaultuser7", 1, 40), acct("bob", 2, 0)]);
    assert_eq!(get_latest_default(&records), Some(LoginTime::Last(40)));
    let records = Windows {}.iter_accounts(&vec![acct("Defaultuser7", 1, 40)]);
    assert_eq!(get_latest_default(&records), None);
}

#[test]
fn unknown_enumerated_account_is_invalid_input() {
    let d = AccountDirectory::new();
    let accounts = vec![acct("alice", 1001, 5)];
    assert_eq!(
        search_self(&CurrentUser::Name("zed".to_string()), &Source::Windows(accounts.clone()), &d).unwrap_err(),
        DbError::InvalidInput
    );
    assert_eq!(search_uid(99999, &Source::Windows(accounts), &d).unwrap_err(), DbError::InvalidInput);
}
