//! Resolves the most recent login of system accounts from login-accounting
//! data: utmp/wtmp-style logs scanned backward, lastlog-style slot arrays,
//! or the accounts that the host enumerates.
//!
//! The caller loads the data (a file's bytes, or the enumerated accounts)
//! and the account directory; this crate decides which reader applies and
//! resolves records from them.
use vstd::prelude::*;

pub mod common;
pub mod directory;
pub mod lastlog;
pub mod passwd;
pub mod laws;
pub mod utmp;
pub mod windows;

pub use common::{new_record, unix_timestamp, DbError, LoginTime, Record, RecordType};
pub use directory::{Account, AccountDirectory};
pub use lastlog::{guess_uid, read_passwd_idmap, LastLog};
pub use passwd::read_passwd_nmap;
pub use utmp::{Until, Utmp};
pub use windows::{WinAccount, Windows};

use common::{same_result, same_results, RecordView};
use lastlog::{
    lastlog_name_result, lastlog_slot, lastlog_uid_result, read_slots, sorted_by_uid, uid_owner,
};
use utmp::{
    latest_of_kind, read_latest_of_kind, scanned, utmp_accounts_result, utmp_entry, utmp_name_result,
    utmp_uid_result, StopKey,
};
use windows::{win_name_result, win_records, win_uid_result};

verus! {

/// One of the readers.
#[derive(Debug, Clone, Copy, PartialEq, Eq, Structural)]
pub enum Backend {
    Utmp,
    LastLog,
    Windows,
}

/// The readers to try, in priority order: the account enumeration on a
/// Windows host, the log before the slot file elsewhere.
pub fn modules(windows_host: bool) -> (r: Vec<Backend>)
    ensures
        r@ == if windows_host {
            seq![Backend::Windows]
        } else {
            seq![Backend::Utmp, Backend::LastLog]
        },
{
    if windows_host {
        let r = vec![Backend::Windows];
        assert(r@ =~= seq![Backend::Windows]);
        r
    } else {
        let r = vec![Backend::Utmp, Backend::LastLog];
        assert(r@ =~= seq![Backend::Utmp, Backend::LastLog]);
        r
    }
}

/// What the explicit path override gave.
pub enum Override {
    /// No override is set.
    Unset,
    /// An override is set, and the file cannot be opened.
    Unopenable,
    /// An override is set; these are the file's bytes.
    Opened(Vec<u8>),
}

/// Where the selected reader reads from.
#[derive(Debug, Clone, Copy, PartialEq, Eq, Structural)]
pub enum Selection {
    /// The override file, which this reader validated.
    Override(Backend),
    /// The reader's well-known location with this index in its list.
    Default(Backend, usize),
}

/// The reader `b` accepts the data: the structural sniff test.
pub open spec fn module_accepts(
    b: Backend,
    data: Seq<u8>,
    d: Seq<(u32, Seq<char>)>,
    guessed_uid: u32,
) -> bool {
    match b {
        Backend::Utmp => data.len() >= 384 && utmp_entry(
            d,
            data.subrange(data.len() - 384, data.len() as int),
        ).is_some(),
        Backend::LastLog => lastlog_slot(data, Seq::empty(), guessed_uid) is Ok,
        Backend::Windows => true,
    }
}

/// Runs the sniff test of reader `b` on `data`.
pub fn is_valid(b: Backend, data: &[u8], dir: &AccountDirectory, guessed_uid: u32) -> (r: bool)
    requires
        dir.wf(),
    ensures
        r == module_accepts(b, data@, dir@, guessed_uid),
{
    match b {
        Backend::Utmp => Utmp {}.is_valid(data, dir),
        Backend::LastLog => LastLog {}.is_valid(data, guessed_uid),
        Backend::Windows => Windows {}.is_valid(),
    }
}

/// The well-known locations of reader `b`, in the order they are tried.
pub fn primary_files(b: Backend) -> (r: Vec<&'static str>)
    ensures
        match b {
            Backend::Utmp => r@.len() == 3 && r@[0]@ == "/var/run/utmp"@ && r@[1]@
                == "/var/log/utmp"@ && r@[2]@ == "/var/log/wtmp"@,
            Backend::LastLog => r@.len() == 1 && r@[0]@ == "/var/log/lastlog"@,
            Backend::Windows => r@.len() == 1 && r@[0]@ == ""@,
        },
{
    match b {
        Backend::Utmp => Utmp {}.primary_files(),
        Backend::LastLog => LastLog {}.primary_files(),
        Backend::Windows => vec![""],
    }
}

/// Position `p` is where the first `true` of `f` stands.
pub open spec fn first_true(f: Seq<bool>, p: int) -> bool {
    0 <= p < f.len() && f[p] && forall|q: int| 0 <= q < p ==> !f[q]
}

/// Whether module `m` has a well-known location that exists.
pub open spec fn has_location(found: Seq<Vec<bool>>, m: int) -> bool {
    0 <= m < found.len() && exists|p: int| 0 <= p < found[m]@.len() && found[m]@[p]
}

/// Picks the reader to use.
///
/// With an override that cannot be opened, the resolution fails at once
/// with `InvalidInput`. With one that opened, the first reader in `modules`
/// that accepts its bytes is used, and if none does the resolution fails
/// with `NotFound`, without falling back to the well-known locations. With
/// no override, the first reader with a well-known location that exists
/// (`found[m][p]`: location `p` of reader `m` is a regular file) is used,
/// at its first such location; if there is none, `NotFound`.
pub fn get_module(
    modules: &Vec<Backend>,
    ov: &Override,
    dir: &AccountDirectory,
    guessed_uid: u32,
    found: &Vec<Vec<bool>>,
) -> (r: Result<Selection, DbError>)
    requires
        dir.wf(),
    ensures
        match ov {
            Override::Unopenable => r == Err::<Selection, DbError>(DbError::InvalidInput),
            Override::Opened(data) => match r {
                Ok(Selection::Override(b)) => exists|i: int|
                    first_true(
                        modules@.map_values(|m: Backend| module_accepts(m, data@, dir@, guessed_uid)),
                        i,
                    ) && modules@[i] == b,
                Ok(Selection::Default(_, _)) => false,
                Err(e) => e == DbError::NotFound && forall|i: int|
                    0 <= i < modules@.len() ==> !module_accepts(
                        #[trigger] modules@[i],
                        data@,
                        dir@,
                        guessed_uid,
                    ),
            },
            Override::Unset => match r {
                Ok(Selection::Default(b, p)) => exists|m: int|
                    0 <= m < modules@.len() && m < found@.len() && modules@[m] == b && first_true(
                        found@[m]@,
                        p as int,
                    ) && forall|k: int| 0 <= k < m ==> !has_location(found@, k),
                Ok(Selection::Override(_)) => false,
                Err(e) => e == DbError::NotFound && forall|m: int|
                    0 <= m < modules@.len() ==> !has_location(found@, m),
            },
        },
{
    match ov {
        Override::Unopenable => Err(DbError::InvalidInput),
        Override::Opened(data) => match first_accepting(modules, data.as_slice(), dir, guessed_uid) {
            Some(i) => Ok(Selection::Override(modules[i])),
            None => Err(DbError::NotFound),
        },
        Override::Unset => match first_location(modules.len(), found) {
            Some((m, p)) => Ok(Selection::Default(modules[m], p)),
            None => Err(DbError::NotFound),
        },
    }
}

/// The position of the first reader in `modules` that accepts `data`.
fn first_accepting(modules: &Vec<Backend>, data: &[u8], dir: &AccountDirectory, guessed_uid: u32) -> (r:
    Option<usize>)
    requires
        dir.wf(),
    ensures
        r matches Some(i) ==> first_true(
            modules@.map_values(|m: Backend| module_accepts(m, data@, dir@, guessed_uid)),
            i as int,
        ),
        r is None ==> forall|i: int|
            0 <= i < modules@.len() ==> !module_accepts(
                #[trigger] modules@[i],
                data@,
                dir@,
                guessed_uid,
            ),
{
    let ghost f = modules@.map_values(|m: Backend| module_accepts(m, data@, dir@, guessed_uid));
    let n = modules.len();
    let mut i: usize = 0;
    while i < n
        invariant
            i <= n,
            n == modules@.len(),
            dir.wf(),
            f == modules@.map_values(|m: Backend| module_accepts(m, data@, dir@, guessed_uid)),
            forall|q: int| 0 <= q < i ==> !f[q],
        decreases n - i,
    {
        if is_valid(modules[i], data, dir, guessed_uid) {
            assert(first_true(f, i as int));
            return Some(i);
        }
        i = i + 1;
    }
    assert forall|q: int| 0 <= q < modules@.len() implies !module_accepts(
        #[trigger] modules@[q],
        data@,
        dir@,
        guessed_uid,
    ) by {
        assert(!f[q]);
    }
    None
}

/// The first reader among the first `n` with a well-known location that
/// exists, and the first such location.
fn first_location(n: usize, found: &Vec<Vec<bool>>) -> (r: Option<(usize, usize)>)
    ensures
        r matches Some((m, p)) ==> m < n && m < found@.len() && first_true(found@[m as int]@, p as int)
            && forall|k: int| 0 <= k < m ==> !has_location(found@, k),
        r is None ==> forall|m: int| 0 <= m < n ==> !has_location(found@, m),
{
    let mut m: usize = 0;
    while m < n
        invariant
            m <= n,
            forall|k: int| 0 <= k < m ==> !has_location(found@, k),
        decreases n - m,
    {
        if m < found.len() {
            let locs = &found[m];
            let ln = locs.len();
            let mut p: usize = 0;
            while p < ln
                invariant
                    p <= ln,
                    ln == locs@.len(),
                    m < n,
                    m < found@.len(),
                    *locs == found@[m as int],
                    forall|q: int| 0 <= q < p ==> !locs@[q],
                    forall|k: int| 0 <= k < m ==> !has_location(found@, k),
                decreases ln - p,
            {
                if locs[p] {
                    assert(first_true(locs@, p as int));
                    return Some((m, p));
                }
                p = p + 1;
            }
        }
        m = m + 1;
    }
    None
}

/// The data that the selected reader reads.
pub enum Source {
    /// A utmp/wtmp-style log's bytes.
    Utmp(Vec<u8>),
    /// A lastlog-style file's bytes.
    LastLog(Vec<u8>),
    /// The accounts that the host enumerates.
    Windows(Vec<WinAccount>),
}

/// Outcome of a lookup by user id in a source.
pub open spec fn uid_result(src: Source, d: Seq<(u32, Seq<char>)>, uid: u32) -> Result<
    RecordView,
    DbError,
> {
    match src {
        Source::Utmp(data) => utmp_uid_result(d, data@, uid),
        Source::LastLog(data) => lastlog_uid_result(d, data@, uid),
        Source::Windows(a) => win_uid_result(a@, uid),
    }
}

/// Outcome of a lookup by name in a source.
pub open spec fn name_result(src: Source, d: Seq<(u32, Seq<char>)>, n: Seq<char>) -> Result<
    RecordView,
    DbError,
> {
    match src {
        Source::Utmp(data) => utmp_name_result(d, data@, n),
        Source::LastLog(data) => lastlog_name_result(d, data@, n),
        Source::Windows(a) => win_name_result(a@, n),
    }
}

/// The latest login record of every account, from the selected source.
pub fn iter_accounts(source: &Source, dir: &AccountDirectory) -> (r: Result<Vec<Record>, DbError>)
    requires
        dir.wf(),
    ensures
        match source {
            Source::LastLog(data) => exists|o: Seq<(u32, Seq<char>)>|
                #![trigger sorted_by_uid(o)]
                sorted_by_uid(o) && (forall|x: (u32, Seq<char>)| o.contains(x) <==> uid_owner(dir@, x))
                    && same_results(r, read_slots(data@, o)),
            Source::Utmp(data) => same_results(r, utmp_accounts_result(dir@, data@)),
            Source::Windows(a) => same_results(r, Ok(win_records(a@))),
        },
{
    match source {
        Source::Utmp(data) => Utmp {}.iter_accounts(data.as_slice(), dir),
        Source::LastLog(data) => LastLog {}.iter_accounts(data.as_slice(), dir),
        Source::Windows(a) => Ok(Windows {}.iter_accounts(a)),
    }
}

/// The latest login record of the account with user id `uid`.
pub fn search_uid(uid: u32, source: &Source, dir: &AccountDirectory) -> (r: Result<Record, DbError>)
    requires
        dir.wf(),
    ensures
        same_result(r, uid_result(*source, dir@, uid)),
{
    match source {
        Source::Utmp(data) => Utmp {}.search_uid(uid, data.as_slice(), dir),
        Source::LastLog(data) => LastLog {}.search_uid(uid, data.as_slice(), dir),
        Source::Windows(a) => Windows {}.search_uid(uid, a),
    }
}

/// The latest login record of the account named `username`.
pub fn search_username(username: &str, source: &Source, dir: &AccountDirectory) -> (r: Result<
    Record,
    DbError,
>)
    requires
        dir.wf(),
    ensures
        same_result(r, name_result(*source, dir@, username@)),
{
    match source {
        Source::Utmp(data) => Utmp {}.search_username(username, data.as_slice(), dir),
        Source::LastLog(data) => LastLog {}.search_username(username, data.as_slice(), dir),
        Source::Windows(a) => Windows {}.search_username(username, a),
    }
}

/// Who the current user is, as the host tells it.
pub enum CurrentUser {
    /// The user id (Unix hosts).
    Uid(u32),
    /// The account name (Windows hosts).
    Name(String),
}

/// The latest login record of the current user: looked up by user id where
/// the host gives one, by name otherwise.
pub fn search_self(me: &CurrentUser, source: &Source, dir: &AccountDirectory) -> (r: Result<
    Record,
    DbError,
>)
    requires
        dir.wf(),
    ensures
        match me {
            CurrentUser::Uid(uid) => same_result(r, uid_result(*source, dir@, *uid)),
            CurrentUser::Name(n) => same_result(r, name_result(*source, dir@, n@)),
        },
{
    match me {
        CurrentUser::Uid(uid) => search_uid(*uid, source, dir),
        CurrentUser::Name(n) => search_username(n.as_str(), source, dir),
    }
}

/// Outcome of the boot-time query on a log: of all its boot-time entries,
/// the one with the latest login.
pub open spec fn boot_result(d: Seq<(u32, Seq<char>)>, data: Seq<u8>) -> Result<RecordView, DbError> {
    match scanned(d, data, StopKey::All) {
        Ok(recs) => match latest_of_kind(recs, RecordType::BootTime) {
            Some(r) => Ok(r),
            None => Err(DbError::NotFound),
        },
        Err(e) => Err(e),
    }
}

/// The most recent boot-time record of a utmp/wtmp-style log: the boot
/// entry with the latest timestamp, whatever the order of appending.
pub fn system_boot(data: &[u8], dir: &AccountDirectory) -> (r: Result<Record, DbError>)
    requires
        dir.wf(),
    ensures
        same_result(r, boot_result(dir@, data@)),
{
    match read_latest_of_kind(dir, data, RecordType::BootTime) {
        Ok(Some(rec)) => Ok(rec),
        Ok(None) => Err(DbError::NotFound),
        Err(e) => Err(e),
    }
}

} // verus!
