//! Reader of lastlog-style files: an array of fixed-size slots where slot
//! `i` holds the latest login of user id `i`.
use vstd::prelude::*;
use vstd::slice::slice_subrange;

use crate::common::{
    decode_text, le_u32, login_time_of, read_u32_le, text_of, unix_timestamp, views, same_result, same_results, DbError,
    Record, RecordType, RecordView,
};
use crate::directory::{last_of_uid, name_of_uid, uid_of_name, Account, AccountDirectory};

verus! {

/// Size in bytes of one slot: a 32-bit timestamp, a 32-byte terminal field
/// and a 256-byte remote-host field.
pub const LASTLOG_ENTRY_SIZE: usize = 292;

/// Offsets of the terminal field.
const LINE_AT: usize = 4;

const LINE_END: usize = 36;

/// Offset of the remote-host field, which runs to the end of the slot.
const HOST_AT: usize = 36;

/// Byte offset of the slot of user id `uid`.
pub open spec fn slot_offset(uid: u32) -> int {
    uid as int * 292
}

/// The bytes of the slot of user id `uid`.
pub open spec fn slot_bytes(data: Seq<u8>, uid: u32) -> Seq<u8> {
    data.subrange(slot_offset(uid), slot_offset(uid) + 292)
}

/// What reading the slot of `uid` for the account named `name` gives: a
/// slot past the end of the data is a failed read, and a terminal or
/// remote-host field that is not UTF-8 is corrupt.
pub open spec fn lastlog_slot(data: Seq<u8>, name: Seq<char>, uid: u32) -> Result<
    RecordView,
    DbError,
> {
    if slot_offset(uid) + 292 > data.len() {
        Err(DbError::UnexpectedEof)
    } else {
        let e = slot_bytes(data, uid);
        match text_of(e.subrange(4, 36)) {
            None => Err(DbError::InvalidData),
            Some(tty) => if text_of(e.subrange(36, 292)) is None {
                Err(DbError::InvalidData)
            } else {
                Ok(
                RecordView {
                    rtype: RecordType::User,
                    uid: Some(uid),
                    name,
                    tty,
                    last_login: login_time_of(le_u32(e, 0)),
                },
            )
            },
        }
    }
}

/// Outcome of a lookup by user id.
pub open spec fn lastlog_uid_result(d: Seq<(u32, Seq<char>)>, data: Seq<u8>, uid: u32) -> Result<
    RecordView,
    DbError,
> {
    match name_of_uid(d, uid) {
        None => Err(DbError::InvalidInput),
        Some(name) => lastlog_slot(data, name, uid),
    }
}

/// Outcome of a lookup by name.
pub open spec fn lastlog_name_result(d: Seq<(u32, Seq<char>)>, data: Seq<u8>, n: Seq<char>) -> Result<
    RecordView,
    DbError,
> {
    match uid_of_name(d, n) {
        None => Err(DbError::InvalidInput),
        Some(uid) => lastlog_slot(data, n, uid),
    }
}

/// The slots of the accounts `a`, read in order; the first failure fails all.
pub open spec fn read_slots(data: Seq<u8>, a: Seq<(u32, Seq<char>)>) -> Result<
    Seq<RecordView>,
    DbError,
>
    decreases a.len(),
{
    if a.len() == 0 {
        Ok(Seq::empty())
    } else {
        match read_slots(data, a.drop_last()) {
            Err(e) => Err(e),
            Ok(p) => match lastlog_slot(data, a.last().1, a.last().0) {
                Err(e) => Err(e),
                Ok(r) => Ok(p.push(r)),
            },
        }
    }
}

/// Strictly ascending by user id.
pub open spec fn sorted_by_uid(a: Seq<(u32, Seq<char>)>) -> bool {
    forall|i: int, j: int| 0 <= i < j < a.len() ==> a[i].0 < a[j].0
}

/// The view of a list of accounts.
pub open spec fn accounts_view(v: Seq<Account>) -> Seq<(u32, Seq<char>)> {
    v.map_values(|a: Account| (a.uid, a.name@))
}

/// `x` is the last account of `d` with its user id.
pub open spec fn uid_owner(d: Seq<(u32, Seq<char>)>, x: (u32, Seq<char>)) -> bool {
    exists|j: int| last_of_uid(d, j) && d[j] == x
}

/// The map from user ids to names: for each user id of the directory its
/// last account, ordered by ascending user id so that the slots are visited
/// front to back.
pub fn read_passwd_idmap(dir: &AccountDirectory) -> (r: Vec<Account>)
    requires
        dir.wf(),
    ensures
        sorted_by_uid(accounts_view(r@)),
        forall|x: (u32, Seq<char>)| accounts_view(r@).contains(x) <==> uid_owner(dir@, x),
{
    let ghost d = dir@;
    let n = dir.len();
    let mut out: Vec<Account> = Vec::new();
    let mut i: usize = n;
    while i > 0
        invariant
            i <= n,
            n == d.len(),
            d == dir@,
            sorted_by_uid(accounts_view(out@)),
            forall|x: (u32, Seq<char>)|
                accounts_view(out@).contains(x) <==> exists|j: int|
                    i <= j < n && last_of_uid(d, j) && d[j] == x,
            forall|j: int| #![trigger d[j]] i <= j < n ==> exists|q: int|
                0 <= q < out@.len() && (#[trigger] accounts_view(out@)[q]).0 == d[j].0,
        decreases i,
    {
        let acc = dir.get(i - 1);
        let ghost x = d[i - 1];
        let ghost o = accounts_view(out@);
        let m = out.len();
        let mut p: usize = 0;
        while p < m && out[p].uid < acc.uid
            invariant
                p <= m,
                m == out@.len(),
                o == accounts_view(out@),
                x.0 == acc.uid,
                forall|j: int| 0 <= j < p ==> o[j].0 < x.0,
            decreases m - p,
        {
            p = p + 1;
        }
        if p < m && out[p].uid == acc.uid {
            proof {
                assert(o[p as int].0 == x.0);
                assert(!last_of_uid(d, i - 1)) by {
                    assert(o.contains(o[p as int]));
                    let j = choose|j: int| i <= j < n && last_of_uid(d, j) && d[j] == o[p as int];
                    assert(d[j].0 == d[i - 1].0);
                }
                assert forall|y: (u32, Seq<char>)|
                    o.contains(y) <==> exists|j: int| i - 1 <= j < n && last_of_uid(d, j) && d[j]
                        == y by {
                    if exists|j: int| i - 1 <= j < n && last_of_uid(d, j) && d[j] == y {
                        let j = choose|j: int| i - 1 <= j < n && last_of_uid(d, j) && d[j] == y;
                        assert(j != i - 1);
                    }
                }
                assert forall|j: int| #![trigger d[j]] i - 1 <= j < n implies exists|q: int|
                    0 <= q < o.len() && (#[trigger] o[q]).0 == d[j].0 by {
                    if j == i - 1 {
                        assert(o[p as int].0 == d[j].0);
                    }
                }
            }
        } else {
            proof {
                assert forall|j: int| 0 <= j < o.len() implies o[j].0 != x.0 by {
                    if j >= p {
                        if p < m {
                            assert(o[p as int].0 > x.0);
                            if j > p {
                                assert(o[p as int].0 < o[j].0);
                            }
                        }
                    }
                }
                assert(last_of_uid(d, i - 1)) by {
                    assert forall|k: int| i - 1 < k < n implies (#[trigger] d[k]).0 != d[i - 1].0 by {
                        let q = choose|q: int| 0 <= q < o.len() && (#[trigger] o[q]).0 == d[k].0;
                        assert(o[q].0 != x.0);
                    }
                }
            }
            out.insert(p, Account { uid: acc.uid, name: acc.name.clone() });
            proof {
                let o2 = accounts_view(out@);
                assert(o2 =~= o.insert(p as int, x));
                assert(sorted_by_uid(o2)) by {
                    assert forall|a: int, b: int| 0 <= a < b < o2.len() implies o2[a].0 < o2[b].0 by {
                        if a < p && b > p {
                            assert(o2[b] == o[b - 1]);
                        } else if a == p && b > p {
                            assert(o2[b] == o[b - 1]);
                            if p < m {
                                assert(o[p as int].0 >= x.0);
                                assert(o[p as int].0 != x.0);
                                if b - 1 > p {
                                    assert(o[p as int].0 < o[b - 1].0);
                                }
                            }
                        } else if b == p {
                            assert(o2[a] == o[a]);
                        } else if b < p {
                            assert(o2[a] == o[a] && o2[b] == o[b]);
                        } else {
                            assert(o2[a] == o[a - 1] && o2[b] == o[b - 1]);
                        }
                    }
                }
                assert forall|y: (u32, Seq<char>)|
                    o2.contains(y) <==> exists|j: int| i - 1 <= j < n && last_of_uid(d, j) && d[j]
                        == y by {
                    if o2.contains(y) {
                        let k = choose|k: int| 0 <= k < o2.len() && o2[k] == y;
                        if k < p {
                            assert(o.contains(y)) by {
                                assert(o[k] == y);
                            }
                        } else if k > p {
                            assert(o.contains(y)) by {
                                assert(o[k - 1] == y);
                            }
                        }
                    }
                    if exists|j: int| i - 1 <= j < n && last_of_uid(d, j) && d[j] == y {
                        let j = choose|j: int| i - 1 <= j < n && last_of_uid(d, j) && d[j] == y;
                        if j == i - 1 {
                            assert(o2[p as int] == y);
                        } else {
                            assert(o.contains(y));
                            let q = choose|q: int| 0 <= q < o.len() && o[q] == y;
                            if q < p {
                                assert(o2[q] == y);
                            } else {
                                assert(o2[q + 1] == y);
                            }
                        }
                    }
                }
                assert forall|j: int| #![trigger d[j]] i - 1 <= j < n implies exists|q: int|
                    0 <= q < o2.len() && (#[trigger] o2[q]).0 == d[j].0 by {
                    if j == i - 1 {
                        assert(o2[p as int].0 == d[j].0);
                    } else {
                        let q = choose|q: int| 0 <= q < o.len() && (#[trigger] o[q]).0 == d[j].0;
                        if q < p {
                            assert(o2[q] == o[q]);
                        } else {
                            assert(o2[q + 1] == o[q]);
                        }
                    }
                }
            }
        }
        i = i - 1;
    }
    proof {
        assert forall|x: (u32, Seq<char>)|
            accounts_view(out@).contains(x) <==> uid_owner(dir@, x) by {
            if uid_owner(dir@, x) {
                let j = choose|j: int| last_of_uid(d, j) && d[j] == x;
                assert(0 <= j < n);
            }
        }
    }
    out
}

/// Reads the slot of user id `uid` and labels it with `name`.
pub fn read_lastlog(data: &[u8], name: &str, uid: u32) -> (r: Result<Record, DbError>)
    ensures
        same_result(r, lastlog_slot(data@, name@, uid)),
{
    let len = data.len();
    let off64: u64 = uid as u64 * LASTLOG_ENTRY_SIZE as u64;
    if off64 + LASTLOG_ENTRY_SIZE as u64 > len as u64 {
        return Err(DbError::UnexpectedEof);
    }
    let off = off64 as usize;
    let ghost e = slot_bytes(data@, uid);
    let ts = read_u32_le(data, off);
    assert(ts == le_u32(e, 0));
    let line_field = slice_subrange(data, off + LINE_AT, off + LINE_END);
    assert(line_field@ =~= e.subrange(4, 36));
    let tty = match decode_text(line_field) {
        Some(s) => s,
        None => return Err(DbError::InvalidData),
    };
    let host_field = slice_subrange(data, off + HOST_AT, off + LASTLOG_ENTRY_SIZE);
    assert(host_field@ =~= e.subrange(36, 292));
    if decode_text(host_field).is_none() {
        return Err(DbError::InvalidData);
    }
    Ok(
        Record {
            rtype: RecordType::User,
            uid: Some(uid),
            name: name.to_owned(),
            tty,
            last_login: unix_timestamp(ts),
        },
    )
}

/// Best guess of the current user's id: the id of the account named `user`,
/// or 0 (the superuser) when the name is unknown or not given.
pub fn guess_uid(user: Option<&str>, dir: &AccountDirectory) -> (r: u32)
    requires
        dir.wf(),
    ensures
        r == (match user {
            Some(u) => match uid_of_name(dir@, u@) {
                Some(x) => x,
                None => 0,
            },
            None => 0,
        }),
{
    match user {
        Some(u) => match dir.lookup_name(&u.to_owned()) {
            Some(x) => x,
            None => 0,
        },
        None => 0,
    }
}

/// Reader of lastlog-style files.
pub struct LastLog {}

impl LastLog {
    /// A structural sniff test: the slot of the guessed current user decodes.
    pub fn is_valid(&self, data: &[u8], guessed_uid: u32) -> (b: bool)
        ensures
            b == lastlog_slot(data@, Seq::empty(), guessed_uid) is Ok,
    {
        let r = read_lastlog(data, "", guessed_uid);
        proof {
            reveal_strlit("");
        }
        r.is_ok()
    }

    /// Well-known locations of the file, in the order they are tried.
    pub fn primary_files(&self) -> (r: Vec<&'static str>)
        ensures
            r@.len() == 1,
            r@[0]@ == "/var/log/lastlog"@,
    {
        vec!["/var/log/lastlog"]
    }

    /// The slot of each user id of the directory (labelled with the last
    /// account of that id), in ascending user-id order.
    pub fn iter_accounts(&self, data: &[u8], dir: &AccountDirectory) -> (r: Result<Vec<Record>, DbError>)
        requires
            dir.wf(),
        ensures
            exists|order: Seq<(u32, Seq<char>)>|
                #![trigger sorted_by_uid(order)]
                sorted_by_uid(order) && (forall|x: (u32, Seq<char>)|
                    order.contains(x) <==> uid_owner(dir@, x)) && same_results(r, read_slots(data@, order)),
    {
        let users = read_passwd_idmap(dir);
        let ghost order = accounts_view(users@);
        let n = users.len();
        let mut records: Vec<Record> = Vec::new();
        let mut i: usize = 0;
        assert(order.take(0) =~= Seq::<(u32, Seq<char>)>::empty());
        assert(views(records@) =~= Seq::<RecordView>::empty());
        while i < n
            invariant
                i <= n,
                n == users@.len(),
                order == accounts_view(users@),
                sorted_by_uid(order),
                forall|x: (u32, Seq<char>)| order.contains(x) <==> uid_owner(dir@, x),
                read_slots(data@, order.take(i as int)) == Ok::<Seq<RecordView>, DbError>(
                    views(records@),
                ),
            decreases n - i,
        {
            assert(order.take(i + 1).drop_last() =~= order.take(i as int));
            assert(order.take(i + 1).last() == order[i as int]);
            let rec = match read_lastlog(data, users[i].name.as_str(), users[i].uid) {
                Ok(rec) => rec,
                Err(e) => {
                    proof {
                        assert(order.take(n as int) =~= order);
                        assert(order.take(i as int + 1 - 1) =~= order.take(i as int));
                        lemma_read_slots_err(data@, order, i as int + 1);
                        assert(sorted_by_uid(order));
                    }
                    return Err(e);
                },
            };
            let ghost v = views(records@);
            records.push(rec);
            assert(views(records@) =~= v.push(rec@));
            i = i + 1;
        }
        assert(order.take(n as int) =~= order);
        assert(sorted_by_uid(order));
        Ok(records)
    }

    /// The slot of the account with user id `uid`; an id that is not in the
    /// directory is an invalid lookup key.
    pub fn search_uid(&self, uid: u32, data: &[u8], dir: &AccountDirectory) -> (r: Result<Record, DbError>)
        requires
            dir.wf(),
        ensures
            same_result(r, lastlog_uid_result(dir@, data@, uid)),
    {
        match dir.lookup_uid(uid) {
            None => Err(DbError::InvalidInput),
            Some(name) => read_lastlog(data, name.as_str(), uid),
        }
    }

    /// The slot of the account named `username`; a name that is not in the
    /// directory is an invalid lookup key.
    pub fn search_username(&self, username: &str, data: &[u8], dir: &AccountDirectory) -> (r: Result<
        Record,
        DbError,
    >)
        requires
            dir.wf(),
        ensures
            same_result(r, lastlog_name_result(dir@, data@, username@)),
    {
        match dir.lookup_name(&username.to_owned()) {
            None => Err(DbError::InvalidInput),
            Some(uid) => read_lastlog(data, username, uid),
        }
    }
}

/// A failure on the slot of the `k`-th account of `a` (the first to fail)
/// fails the whole read with that error.
proof fn lemma_read_slots_err(data: Seq<u8>, a: Seq<(u32, Seq<char>)>, k: int)
    requires
        1 <= k <= a.len(),
        read_slots(data, a.take(k - 1)) is Ok,
        lastlog_slot(data, a[k - 1].1, a[k - 1].0) is Err,
    ensures
        read_slots(data, a) == Err::<Seq<RecordView>, DbError>(
            lastlog_slot(data, a[k - 1].1, a[k - 1].0)->Err_0,
        ),
    decreases a.len(),
{
    if a.len() == k {
        assert(a.drop_last() =~= a.take(k - 1));
    } else {
        assert(a.drop_last().take(k - 1) =~= a.take(k - 1));
        lemma_read_slots_err(data, a.drop_last(), k);
    }
}

} // verus!
