//! Reader over the host's account enumeration: no file, one entry per
//! account with its last-logon time.
use vstd::prelude::*;

use crate::common::{login_time_of, unix_timestamp, views, same_result, DbError, LoginTime, Record, RecordType, RecordView};
use crate::utmp::{first_with_name, first_with_uid};

verus! {

/// One account as the host enumerates it.
#[derive(Debug, Clone)]
pub struct WinAccount {
    pub name: String,
    pub uid: u32,
    /// Seconds since the epoch of the last logon; 0 for never.
    pub last_logon: u32,
}

/// The terminal label of an enumerated account, which has none.
pub open spec fn not_applicable() -> Seq<char> {
    seq!['N', '/', 'A']
}

/// The record of an enumerated account.
pub open spec fn win_record(a: WinAccount) -> RecordView {
    RecordView {
        rtype: RecordType::User,
        uid: Some(a.uid),
        name: a.name@,
        tty: not_applicable(),
        last_login: login_time_of(a.last_logon),
    }
}

/// The records of enumerated accounts, in order.
pub open spec fn win_records(a: Seq<WinAccount>) -> Seq<RecordView> {
    a.map_values(|x: WinAccount| win_record(x))
}

/// The prefix of the names of the host's placeholder accounts.
pub open spec fn default_prefix() -> Seq<char> {
    seq!['d', 'e', 'f', 'a', 'u', 'l', 't', 'u', 's', 'e', 'r']
}

/// The name is a placeholder account's.
pub open spec fn is_default_name(n: Seq<char>) -> bool {
    default_prefix().len() <= n.len() && n.subrange(0, default_prefix().len() as int)
        == default_prefix()
}

/// Every account with a login on record is a placeholder account.
pub open spec fn only_defaults(s: Seq<RecordView>) -> bool {
    forall|i: int|
        0 <= i < s.len() ==> s[i].last_login == LoginTime::Never || is_default_name(s[i].name)
}

/// The latest login among the placeholder accounts, if any has one.
pub open spec fn latest_default_login(s: Seq<RecordView>) -> Option<u64>
    decreases s.len(),
{
    if s.len() == 0 {
        None
    } else {
        let p = latest_default_login(s.drop_last());
        let r = s.last();
        match r.last_login {
            LoginTime::Last(t) => if is_default_name(r.name) {
                match p {
                    Some(q) => if t > q {
                        Some(t)
                    } else {
                        Some(q)
                    },
                    None => Some(t),
                }
            } else {
                p
            },
            LoginTime::Never => p,
        }
    }
}

/// The login to substitute onto the searched account: the latest login of
/// the placeholder accounts, when only they have logins on record.
pub open spec fn default_correction(s: Seq<RecordView>) -> Option<LoginTime> {
    if only_defaults(s) {
        match latest_default_login(s) {
            Some(t) => Some(LoginTime::Last(t)),
            None => None,
        }
    } else {
        None
    }
}

/// `r` with its login replaced by the correction, if there is one.
pub open spec fn corrected(r: RecordView, c: Option<LoginTime>) -> RecordView {
    match c {
        Some(t) => RecordView {
            rtype: r.rtype,
            uid: r.uid,
            name: r.name,
            tty: r.tty,
            last_login: t,
        },
        None => r,
    }
}

/// Outcome of a lookup by name among enumerated accounts.
pub open spec fn win_name_result(a: Seq<WinAccount>, n: Seq<char>) -> Result<RecordView, DbError> {
    match first_with_name(win_records(a), n) {
        Some(r) => Ok(corrected(r, default_correction(win_records(a)))),
        None => Err(DbError::InvalidInput),
    }
}

/// Outcome of a lookup by user id among enumerated accounts.
pub open spec fn win_uid_result(a: Seq<WinAccount>, uid: u32) -> Result<RecordView, DbError> {
    match first_with_uid(win_records(a), uid) {
        Some(r) => Ok(corrected(r, default_correction(win_records(a)))),
        None => Err(DbError::InvalidInput),
    }
}

/// Whether `name` is a placeholder account's.
fn is_default_account(name: &String) -> (b: bool)
    ensures
        b == is_default_name(name@),
{
    let s = name.as_str();
    let p = "defaultuser";
    proof {
        reveal_strlit("defaultuser");
        assert(p@ =~= default_prefix());
    }
    let n = s.unicode_len();
    let m = p.unicode_len();
    if n < m {
        return false;
    }
    let mut i: usize = 0;
    while i < m
        invariant
            i <= m,
            m == p@.len(),
            m <= n,
            n == s@.len(),
            p@ == default_prefix(),
            s@ == name@,
            forall|j: int| 0 <= j < i ==> s@[j] == p@[j],
        decreases m - i,
    {
        if s.get_char(i) != p.get_char(i) {
            assert(s@.subrange(0, m as int)[i as int] != p@[i as int]);
            return false;
        }
        i = i + 1;
    }
    assert(s@.subrange(0, m as int) =~= p@);
    true
}

/// The login that the host probably misattributed to a placeholder account:
/// when every account with a login on record is a placeholder one, the
/// latest of their logins; otherwise, or when none has a login, `None`.
pub fn get_latest_default(records: &Vec<Record>) -> (r: Option<LoginTime>)
    ensures
        r == default_correction(views(records@)),
{
    let ghost s = views(records@);
    let n = records.len();
    let mut i: usize = 0;
    let mut best: Option<u64> = None;
    assert(s.take(0) =~= Seq::<RecordView>::empty());
    while i < n
        invariant
            i <= n,
            n == records@.len(),
            s == views(records@),
            forall|j: int| 0 <= j < i ==> (#[trigger] s[j]).last_login == LoginTime::Never
                || is_default_name(s[j].name),
            best == latest_default_login(s.take(i as int)),
        decreases n - i,
    {
        assert(s.take(i + 1).drop_last() =~= s.take(i as int));
        assert(s.take(i + 1).last() == s[i as int]);
        assert(s[i as int] == records@[i as int]@);
        let dflt = is_default_account(&records[i].name);
        match records[i].last_login {
            LoginTime::Never => {},
            LoginTime::Last(t) => {
                if !dflt {
                    assert(!only_defaults(s));
                    return None;
                }
                best = match best {
                    Some(q) => if t > q {
                        Some(t)
                    } else {
                        Some(q)
                    },
                    None => Some(t),
                };
            },
        }
        i = i + 1;
    }
    assert(s.take(n as int) =~= s);
    match best {
        Some(t) => Some(LoginTime::Last(t)),
        None => None,
    }
}

/// Reader over the host's account enumeration.
pub struct Windows {}

impl Windows {
    /// There is no file to sniff: always valid.
    pub fn is_valid(&self) -> (b: bool)
        ensures
            b,
    {
        true
    }

    /// The records of the enumerated accounts, in order.
    pub fn iter_accounts(&self, accounts: &Vec<WinAccount>) -> (r: Vec<Record>)
        ensures
            views(r@) == win_records(accounts@),
    {
        let n = accounts.len();
        let mut out: Vec<Record> = Vec::new();
        let mut i: usize = 0;
        while i < n
            invariant
                i <= n,
                n == accounts@.len(),
                views(out@) == win_records(accounts@.take(i as int)),
            decreases n - i,
        {
            let a = &accounts[i];
            let tty = "N/A".to_owned();
            proof {
                reveal_strlit("N/A");
                assert(tty@ =~= not_applicable());
            }
            let ghost v = views(out@);
            let rec = Record {
                rtype: RecordType::User,
                uid: Some(a.uid),
                name: a.name.clone(),
                tty,
                last_login: unix_timestamp(a.last_logon),
            };
            assert(rec@ == win_record(accounts@[i as int]));
            out.push(rec);
            assert(win_records(accounts@.take(i + 1)) =~= win_records(accounts@.take(i as int)).push(
                win_record(accounts@[i as int]),
            ));
            assert(views(out@) =~= v.push(rec@));
            i = i + 1;
        }
        assert(accounts@.take(n as int) =~= accounts@);
        out
    }

    /// The record of the account named `username`, its login corrected for
    /// a misattribution to a placeholder account.
    pub fn search_username(&self, username: &str, accounts: &Vec<WinAccount>) -> (r: Result<
        Record,
        DbError,
    >)
        ensures
            same_result(r, win_name_result(accounts@, username@)),
    {
        let records = self.iter_accounts(accounts);
        let latest = get_latest_default(&records);
        let key = username.to_owned();
        let ghost s = views(records@);
        let n = records.len();
        let mut i: usize = 0;
        assert(s.subrange(0, n as int) =~= s);
        while i < n
            invariant
                i <= n,
                n == records@.len(),
                s == views(records@),
                s == win_records(accounts@),
                key@ == username@,
                latest == default_correction(s),
                first_with_name(s, username@) == first_with_name(
                    s.subrange(i as int, n as int),
                    username@,
                ),
            decreases n - i,
        {
            assert(s.subrange(i as int, n as int).drop_first() =~= s.subrange(i + 1, n as int));
            assert(s.subrange(i as int, n as int)[0] == records@[i as int]@);
            if records[i].name == key {
                let mut out = records[i].duplicate();
                if let Some(t) = latest {
                    out.last_login = t;
                }
                return Ok(out);
            }
            i = i + 1;
        }
        Err(DbError::InvalidInput)
    }

    /// The record of the account with user id `uid`, its login corrected for
    /// a misattribution to a placeholder account.
    pub fn search_uid(&self, uid: u32, accounts: &Vec<WinAccount>) -> (r: Result<Record, DbError>)
        ensures
            same_result(r, win_uid_result(accounts@, uid)),
    {
        let records = self.iter_accounts(accounts);
        let latest = get_latest_default(&records);
        let ghost s = views(records@);
        let n = records.len();
        let mut i: usize = 0;
        assert(s.subrange(0, n as int) =~= s);
        while i < n
            invariant
                i <= n,
                n == records@.len(),
                s == views(records@),
                s == win_records(accounts@),
                latest == default_correction(s),
                first_with_uid(s, uid) == first_with_uid(s.subrange(i as int, n as int), uid),
            decreases n - i,
        {
            assert(s.subrange(i as int, n as int).drop_first() =~= s.subrange(i + 1, n as int));
            assert(s.subrange(i as int, n as int)[0] == records@[i as int]@);
            let hit = match records[i].uid {
                Some(x) => x == uid,
                None => false,
            };
            if hit {
                let mut out = records[i].duplicate();
                if let Some(t) = latest {
                    out.last_login = t;
                }
                return Ok(out);
            }
            i = i + 1;
        }
        Err(DbError::InvalidInput)
    }
}

} // verus!
