//! Reader of utmp/wtmp-style logs: fixed-size entries appended over time,
//! read backward from the newest one and merged into a latest-per-name view.
use vstd::prelude::*;
use vstd::slice::slice_subrange;

use crate::common::{
    decode_text, le_u32, login_time_of, never_record, new_record, read_u32_le, record_type_of,
    text_of, unix_timestamp, views, later, same_result, same_results, DbError, Record, RecordType, RecordView,
};
use crate::directory::{uid_of_name, AccountDirectory};

verus! {

/// Size in bytes of one log entry.
pub const UTMP_ENTRY_SIZE: usize = 384;

/// Offsets of the fields that the reader decodes.
const KIND_AT: usize = 0;

const LINE_AT: usize = 8;

const LINE_END: usize = 40;

const USER_AT: usize = 44;

const USER_END: usize = 76;

const SEC_AT: usize = 340;

/// The bytes of entry `k` (counted from the start of the log).
pub open spec fn entry_bytes(data: Seq<u8>, k: int) -> Seq<u8> {
    data.subrange(k * 384, k * 384 + 384)
}

/// What one entry decodes to, or `None` for a corrupt entry: a kind tag
/// outside the closed set, a zero timestamp, or a text field that is not UTF-8.
pub open spec fn utmp_entry(d: Seq<(u32, Seq<char>)>, e: Seq<u8>) -> Option<RecordView> {
    let tag = le_u32(e, 0);
    let sec = le_u32(e, 340);
    let line = text_of(e.subrange(8, 40));
    let user = text_of(e.subrange(44, 76));
    if tag <= 9 && sec != 0 && line.is_some() && user.is_some() {
        Some(
            RecordView {
                rtype: record_type_of(tag as int).unwrap(),
                uid: uid_of_name(d, user.unwrap()),
                name: user.unwrap(),
                tty: line.unwrap(),
                last_login: login_time_of(sec),
            },
        )
    } else {
        None
    }
}

/// Which entries a scan merges, and when it may stop.
#[derive(Debug)]
pub enum Until {
    /// Merge entries of every kind; scan the whole log.
    All,
    /// Merge user-session entries only; scan the whole log.
    Sessions,
    /// Merge user-session entries; stop at the newest one of this user id.
    Uid(u32),
    /// Merge user-session entries; stop at the newest one of this name.
    Name(String),
}

/// Mathematical value of an [`Until`].
pub ghost enum StopKey {
    All,
    Sessions,
    Uid(u32),
    Name(Seq<char>),
}

impl View for Until {
    type V = StopKey;

    open spec fn view(&self) -> StopKey {
        match self {
            Until::All => StopKey::All,
            Until::Sessions => StopKey::Sessions,
            Until::Uid(x) => StopKey::Uid(*x),
            Until::Name(n) => StopKey::Name(n@),
        }
    }
}

/// The scan `u` merges the entry `r`: every entry, or user sessions only.
pub open spec fn merges(u: StopKey, r: RecordView) -> bool {
    match u {
        StopKey::All => true,
        _ => r.rtype == RecordType::User,
    }
}

/// The merged entry `r` satisfies the lookup `u`.
pub open spec fn stops(u: StopKey, r: RecordView) -> bool {
    match u {
        StopKey::All => false,
        StopKey::Sessions => false,
        StopKey::Uid(x) => r.uid == Some(x),
        StopKey::Name(n) => r.name == n,
    }
}

/// `p` in front of a successful result; an error stays.
pub open spec fn prepend(p: Seq<RecordView>, x: Result<Seq<RecordView>, DbError>) -> Result<
    Seq<RecordView>,
    DbError,
> {
    match x {
        Ok(s) => Ok(p + s),
        Err(e) => Err(e),
    }
}

/// The entries merged when scanning backward from entry `k - 1`, newest
/// first, up to and including the first merged one that satisfies `u`.
/// Every entry on the way is decoded; one that `u` does not merge is skipped.
pub open spec fn scan_back(d: Seq<(u32, Seq<char>)>, data: Seq<u8>, k: nat, u: StopKey) -> Result<
    Seq<RecordView>,
    DbError,
>
    decreases k,
{
    if k == 0 {
        Ok(Seq::empty())
    } else {
        match utmp_entry(d, entry_bytes(data, k - 1)) {
            None => Err(DbError::InvalidData),
            Some(r) => if !merges(u, r) {
                scan_back(d, data, (k - 1) as nat, u)
            } else if stops(u, r) {
                Ok(seq![r])
            } else {
                prepend(seq![r], scan_back(d, data, (k - 1) as nat, u))
            },
        }
    }
}

/// How many entries the scan from entry `k - 1` decodes before it stops,
/// fails or reaches the start of the log.
pub open spec fn scan_count(d: Seq<(u32, Seq<char>)>, data: Seq<u8>, k: nat, u: StopKey) -> nat
    decreases k,
{
    if k == 0 {
        0
    } else {
        match utmp_entry(d, entry_bytes(data, k - 1)) {
            None => 1,
            Some(r) => if merges(u, r) && stops(u, r) {
                1
            } else {
                1 + scan_count(d, data, (k - 1) as nat, u)
            },
        }
    }
}

/// The entry at which a scan that merged `recs` stopped, if it stopped.
pub open spec fn stop_entry(recs: Seq<RecordView>, u: StopKey) -> Option<RecordView> {
    if recs.len() > 0 && stops(u, recs.last()) {
        Some(recs.last())
    } else {
        None
    }
}

/// The entries that a scan of the whole log decodes; a log that ends in a
/// partial entry is corrupt.
pub open spec fn scanned(d: Seq<(u32, Seq<char>)>, data: Seq<u8>, u: StopKey) -> Result<
    Seq<RecordView>,
    DbError,
> {
    if data.len() % 384 != 0 {
        Err(DbError::InvalidData)
    } else {
        scan_back(d, data, data.len() / 384, u)
    }
}

/// No name stands twice.
pub open spec fn names_unique(m: Seq<RecordView>) -> bool {
    forall|i: int, j: int| 0 <= i < j < m.len() ==> m[i].name != m[j].name
}

/// Some record is named `n`.
pub open spec fn has_record(m: Seq<RecordView>, n: Seq<char>) -> bool {
    exists|i: int| 0 <= i < m.len() && m[i].name == n
}

/// The position of the record named `n`.
pub open spec fn record_index(m: Seq<RecordView>, n: Seq<char>) -> int {
    choose|i: int| 0 <= i < m.len() && m[i].name == n
}

/// Merges `r` into `m`: it is added for a new name, and replaces the record
/// of its name only when strictly later.
pub open spec fn set_latest_spec(m: Seq<RecordView>, r: RecordView) -> Seq<RecordView> {
    if has_record(m, r.name) {
        let i = record_index(m, r.name);
        if later(r.last_login, m[i].last_login) {
            m.update(i, r)
        } else {
            m
        }
    } else {
        m.push(r)
    }
}

/// The latest-per-name view of entries taken in scan order.
pub open spec fn merge(recs: Seq<RecordView>) -> Seq<RecordView>
    decreases recs.len(),
{
    if recs.len() == 0 {
        Seq::empty()
    } else {
        set_latest_spec(merge(recs.drop_last()), recs.last())
    }
}

/// `m` with a "never logged in" record added for each account of `d`
/// whose name has no record.
pub open spec fn synthesize(m: Seq<RecordView>, d: Seq<(u32, Seq<char>)>) -> Seq<RecordView>
    decreases d.len(),
{
    if d.len() == 0 {
        m
    } else {
        let p = synthesize(m, d.drop_last());
        if has_record(p, d.last().1) {
            p
        } else {
            p.push(never_record(d.last().0, d.last().1))
        }
    }
}

/// The records that a scan of the log resolves to.
pub open spec fn resolved(d: Seq<(u32, Seq<char>)>, data: Seq<u8>, u: StopKey) -> Result<
    Seq<RecordView>,
    DbError,
> {
    match scanned(d, data, u) {
        Ok(recs) => Ok(synthesize(merge(recs), d)),
        Err(e) => Err(e),
    }
}

/// The first record with user id `u`.
pub open spec fn first_with_uid(s: Seq<RecordView>, u: u32) -> Option<RecordView>
    decreases s.len(),
{
    if s.len() == 0 {
        None
    } else if s[0].uid == Some(u) {
        Some(s[0])
    } else {
        first_with_uid(s.drop_first(), u)
    }
}

/// The first record named `n`.
pub open spec fn first_with_name(s: Seq<RecordView>, n: Seq<char>) -> Option<RecordView>
    decreases s.len(),
{
    if s.len() == 0 {
        None
    } else if s[0].name == n {
        Some(s[0])
    } else {
        first_with_name(s.drop_first(), n)
    }
}

/// A user session of a known account.
pub open spec fn is_account_session(r: RecordView) -> bool {
    r.rtype == RecordType::User && r.uid.is_some()
}

/// The user sessions of known accounts, in order.
pub open spec fn account_sessions(s: Seq<RecordView>) -> Seq<RecordView>
    decreases s.len(),
{
    if s.len() == 0 {
        Seq::empty()
    } else {
        let p = account_sessions(s.drop_last());
        if is_account_session(s.last()) {
            p.push(s.last())
        } else {
            p
        }
    }
}

/// A point lookup's result: found, or the lookup key is unknown.
pub open spec fn lookup_result(x: Option<RecordView>) -> Result<RecordView, DbError> {
    match x {
        Some(r) => Ok(r),
        None => Err(DbError::InvalidInput),
    }
}

/// Outcome of a lookup by user id in a log.
pub open spec fn utmp_uid_result(d: Seq<(u32, Seq<char>)>, data: Seq<u8>, uid: u32) -> Result<
    RecordView,
    DbError,
> {
    match resolved(d, data, StopKey::Uid(uid)) {
        Ok(s) => lookup_result(first_with_uid(s, uid)),
        Err(e) => Err(e),
    }
}

/// Outcome of a lookup by name in a log: a name that the directory lacks
/// is an invalid key, whatever the log holds.
pub open spec fn utmp_name_result(d: Seq<(u32, Seq<char>)>, data: Seq<u8>, n: Seq<char>) -> Result<
    RecordView,
    DbError,
> {
    if uid_of_name(d, n) is None {
        Err(DbError::InvalidInput)
    } else {
        match resolved(d, data, StopKey::Name(n)) {
            Ok(s) => lookup_result(first_with_name(s, n)),
            Err(e) => Err(e),
        }
    }
}

/// Outcome of listing the accounts of a log.
pub open spec fn utmp_accounts_result(d: Seq<(u32, Seq<char>)>, data: Seq<u8>) -> Result<
    Seq<RecordView>,
    DbError,
> {
    match resolved(d, data, StopKey::Sessions) {
        Ok(s) => Ok(account_sessions(s)),
        Err(e) => Err(e),
    }
}

/// Decodes the entry at `off`.
pub fn decode_entry(data: &[u8], off: usize, dir: &AccountDirectory) -> (r: Result<Record, DbError>)
    requires
        off + 384 <= data@.len(),
        dir.wf(),
    ensures
        match utmp_entry(dir@, data@.subrange(off as int, off + 384)) {
            Some(v) => r matches Ok(rec) && rec@ == v,
            None => r == Err::<Record, DbError>(DbError::InvalidData),
        },
{
    let ghost e = data@.subrange(off as int, off + 384);
    let len = data.len();
    assert(off + 384 <= len);
    let tag = read_u32_le(data, off + KIND_AT);
    let sec = read_u32_le(data, off + SEC_AT);
    assert(tag == le_u32(e, 0));
    assert(sec == le_u32(e, 340));
    if tag > 9 || sec == 0 {
        return Err(DbError::InvalidData);
    }
    let line_field = slice_subrange(data, off + LINE_AT, off + LINE_END);
    let user_field = slice_subrange(data, off + USER_AT, off + USER_END);
    assert(line_field@ =~= e.subrange(8, 40));
    assert(user_field@ =~= e.subrange(44, 76));
    let tty = match decode_text(line_field) {
        Some(s) => s,
        None => return Err(DbError::InvalidData),
    };
    let name = match decode_text(user_field) {
        Some(s) => s,
        None => return Err(DbError::InvalidData),
    };
    let rtype = match RecordType::try_from(tag as i32) {
        Some(k) => k,
        None => return Err(DbError::InvalidData),
    };
    let uid = dir.lookup_name(&name);
    Ok(Record { rtype, uid, name, tty, last_login: unix_timestamp(sec) })
}

/// Whether the scan `u` merges `r`.
pub fn until_merges(u: &Until, r: &Record) -> (b: bool)
    ensures
        b == merges(u@, r@),
{
    match u {
        Until::All => true,
        _ => r.rtype == RecordType::User,
    }
}

/// Whether the lookup `u` is satisfied by the merged entry `r`.
pub fn until_holds(u: &Until, r: &Record) -> (b: bool)
    ensures
        b == stops(u@, r@),
{
    match u {
        Until::All => false,
        Until::Sessions => false,
        Until::Uid(x) => match r.uid {
            Some(y) => y == *x,
            None => false,
        },
        Until::Name(n) => r.name == *n,
    }
}

/// Position of the record named `name`, if any.
fn position_of_name(all: &Vec<Record>, name: &String) -> (r: Option<usize>)
    ensures
        r is None ==> !has_record(views(all@), name@),
        r matches Some(i) ==> i < all@.len() && all@[i as int].name@ == name@,
{
    let n = all.len();
    let mut i: usize = 0;
    while i < n
        invariant
            i <= n,
            n == all@.len(),
            forall|j: int| 0 <= j < i ==> all@[j].name@ != name@,
        decreases n - i,
    {
        if all[i].name == *name {
            return Some(i);
        }
        i = i + 1;
    }
    assert forall|j: int| 0 <= j < views(all@).len() implies views(all@)[j].name != name@ by {
        assert(views(all@)[j] == all@[j]@);
    }
    None
}

/// Merges `new` into the latest-per-name records `all`.
pub fn set_latest(all: &mut Vec<Record>, new: Record)
    requires
        names_unique(views(old(all)@)),
    ensures
        views(final(all)@) == set_latest_spec(views(old(all)@), new@),
        names_unique(views(final(all)@)),
{
    let ghost m = views(all@);
    match position_of_name(all, &new.name) {
        Some(i) => {
            assert(m[i as int].name == new@.name);
            assert(has_record(m, new@.name));
            let ghost j = record_index(m, new@.name);
            assert(j == i);
            if new.last_login.is_later_than(&all[i].last_login) {
                all.set(i, new);
                assert(views(all@) =~= m.update(i as int, new@));
            }
        },
        None => {
            all.push(new);
            assert(views(all@) =~= m.push(new@));
        },
    }
}

/// Whether some record is named `name`.
fn contains_name(all: &Vec<Record>, name: &String) -> (b: bool)
    ensures
        b == has_record(views(all@), name@),
{
    match position_of_name(all, name) {
        Some(i) => {
            assert(views(all@)[i as int].name == name@);
            true
        },
        None => false,
    }
}

/// Result of a scan: the resolved records, how many entries were decoded,
/// and the entry at which the scan stopped, if it did.
pub struct Scan {
    pub records: Vec<Record>,
    pub entries_read: usize,
    pub stopped_at: Option<Record>,
}

/// The view of an optional record.
pub open spec fn opt_view(r: Option<Record>) -> Option<RecordView> {
    match r {
        Some(x) => Some(x@),
        None => None,
    }
}

/// Scans the log backward from its newest entry, merging each entry that
/// `until` merges into a latest-per-name view, until `until` holds of a
/// merged entry; then adds a "never logged in" record for each account
/// with none. Any corrupt entry met on the way fails the scan.
pub fn read_until(dir: &AccountDirectory, data: &[u8], until: &Until) -> (r: Result<Scan, DbError>)
    requires
        dir.wf(),
    ensures
        match scanned(dir@, data@, until@) {
            Ok(recs) => r matches Ok(s) && views(s.records@) == synthesize(merge(recs), dir@)
                && s.entries_read == scan_count(dir@, data@, (data@.len() / 384) as nat, until@)
                && opt_view(s.stopped_at) == stop_entry(recs, until@),
            Err(e) => r matches Err(x) && x == e,
        },
{
    let len = data.len();
    if len % UTMP_ENTRY_SIZE != 0 {
        return Err(DbError::InvalidData);
    }
    let n: usize = len / UTMP_ENTRY_SIZE;
    let mut k: usize = n;
    let mut read: usize = 0;
    let mut stopped = false;
    let mut stopped_at: Option<Record> = None;
    let mut records: Vec<Record> = Vec::new();
    let ghost mut recs: Seq<RecordView> = Seq::empty();
    assert(views(records@) =~= Seq::<RecordView>::empty());
    assert(recs + Seq::<RecordView>::empty() =~= recs);
    while k > 0 && !stopped
        invariant
            k <= n,
            n == len / 384,
            len == data@.len(),
            len % 384 == 0,
            dir.wf(),
            read == n - k,
            stopped ==> scan_count(dir@, data@, n as nat, until@) == read,
            !stopped ==> scan_count(dir@, data@, n as nat, until@) == read + scan_count(
                dir@,
                data@,
                k as nat,
                until@,
            ),
            opt_view(stopped_at) == stop_entry(recs, until@),
            !stopped ==> stopped_at is None,
            stopped ==> scan_back(dir@, data@, n as nat, until@) == Ok::<Seq<RecordView>, DbError>(recs),
            !stopped ==> scan_back(dir@, data@, n as nat, until@) == prepend(
                recs,
                scan_back(dir@, data@, k as nat, until@),
            ),
            views(records@) == merge(recs),
            names_unique(views(records@)),
        decreases k,
    {
        let ghost before = recs;
        assert((k - 1) * 384 + 384 <= len) by (nonlinear_arith)
            requires
                k <= n,
                n == len / 384,
                k > 0,
        ;
        let off = (k - 1) * UTMP_ENTRY_SIZE;
        assert(data@.subrange(off as int, off + 384) == entry_bytes(data@, k - 1));
        let rec = match decode_entry(data, off, dir) {
            Ok(rec) => rec,
            Err(e) => {
                return Err(e);
            },
        };
        if until_merges(until, &rec) {
            let stop = until_holds(until, &rec);
            proof {
                recs = recs.push(rec@);
                assert(recs.drop_last() =~= before);
                if stop {
                    assert(before + seq![rec@] =~= recs);
                } else {
                    assert(forall|s: Seq<RecordView>| before + (seq![rec@] + s) == recs + s) by {
                        assert forall|s: Seq<RecordView>| before + (seq![rec@] + s) == recs + s by {
                            assert(before + (seq![rec@] + s) =~= recs + s);
                        }
                    }
                }
            }
            if stop {
                stopped_at = Some(rec.duplicate());
            }
            set_latest(&mut records, rec);
            stopped = stop;
        }
        read = read + 1;
        k = k - 1;
    }
    if !stopped {
        assert(recs + Seq::<RecordView>::empty() =~= recs);
    }
    let dn = dir.len();
    let mut i: usize = 0;
    assert(dir@.take(0) =~= Seq::<(u32, Seq<char>)>::empty());
    while i < dn
        invariant
            i <= dn,
            dn == dir@.len(),
            dir.wf(),
            views(records@) == synthesize(merge(recs), dir@.take(i as int)),
        decreases dn - i,
    {
        let acc = dir.get(i);
        assert(dir@.take(i + 1).drop_last() =~= dir@.take(i as int));
        assert(dir@.take(i + 1).last() == dir@[i as int]);
        if !contains_name(&records, &acc.name) {
            let ghost v = views(records@);
            records.push(new_record(acc.uid, acc.name.clone()));
            assert(views(records@) =~= v.push(never_record(dir@[i as int].0, dir@[i as int].1)));
        }
        i = i + 1;
    }
    assert(dir@.take(dn as int) =~= dir@);
    Ok(Scan { records, entries_read: read, stopped_at })
}

/// Of the entries `recs` (in scan order), the one of kind `k` with the
/// strictly greatest login; of entries with equal logins, the first met.
pub open spec fn latest_of_kind(recs: Seq<RecordView>, k: RecordType) -> Option<RecordView>
    decreases recs.len(),
{
    if recs.len() == 0 {
        None
    } else {
        let p = latest_of_kind(recs.drop_last(), k);
        let r = recs.last();
        if r.rtype == k && (p is None || later(r.last_login, p->Some_0.last_login)) {
            Some(r)
        } else {
            p
        }
    }
}

/// Scans the whole log and returns, among its entries of kind `kind`, the
/// one with the latest login (of equal ones, the newest appended). Any
/// corrupt entry fails the scan.
pub fn read_latest_of_kind(dir: &AccountDirectory, data: &[u8], kind: RecordType) -> (r: Result<
    Option<Record>,
    DbError,
>)
    requires
        dir.wf(),
    ensures
        match scanned(dir@, data@, StopKey::All) {
            Ok(recs) => r matches Ok(x) && opt_view(x) == latest_of_kind(recs, kind),
            Err(e) => r matches Err(x) && x == e,
        },
{
    let len = data.len();
    if len % UTMP_ENTRY_SIZE != 0 {
        return Err(DbError::InvalidData);
    }
    let n: usize = len / UTMP_ENTRY_SIZE;
    let mut k: usize = n;
    let mut best: Option<Record> = None;
    let ghost mut recs: Seq<RecordView> = Seq::empty();
    assert(recs + Seq::<RecordView>::empty() =~= recs);
    while k > 0
        invariant
            k <= n,
            n == len / 384,
            len == data@.len(),
            len % 384 == 0,
            dir.wf(),
            scan_back(dir@, data@, n as nat, StopKey::All) == prepend(
                recs,
                scan_back(dir@, data@, k as nat, StopKey::All),
            ),
            opt_view(best) == latest_of_kind(recs, kind),
        decreases k,
    {
        let ghost before = recs;
        assert((k - 1) * 384 + 384 <= len) by (nonlinear_arith)
            requires
                k <= n,
                n == len / 384,
                k > 0,
        ;
        let off = (k - 1) * UTMP_ENTRY_SIZE;
        assert(data@.subrange(off as int, off + 384) == entry_bytes(data@, k - 1));
        let rec = match decode_entry(data, off, dir) {
            Ok(rec) => rec,
            Err(e) => {
                return Err(e);
            },
        };
        proof {
            recs = recs.push(rec@);
            assert(recs.drop_last() =~= before);
            assert forall|s: Seq<RecordView>| before + (seq![rec@] + s) == recs + s by {
                assert(before + (seq![rec@] + s) =~= recs + s);
            }
        }
        let take = rec.rtype == kind && match &best {
            None => true,
            Some(b) => rec.last_login.is_later_than(&b.last_login),
        };
        if take {
            best = Some(rec);
        }
        k = k - 1;
    }
    assert(recs + Seq::<RecordView>::empty() =~= recs);
    Ok(best)
}

/// Reader of utmp/wtmp-style logs.
pub struct Utmp {}

impl Utmp {
    /// Every record that a scan of the whole log resolves to: the latest
    /// entry of each name (process entries and reboots included), and a
    /// "never logged in" record for each account with no entry.
    pub fn read_all(&self, data: &[u8], dir: &AccountDirectory) -> (r: Result<Vec<Record>, DbError>)
        requires
            dir.wf(),
        ensures
            same_results(r, resolved(dir@, data@, StopKey::All)),
    {
        match read_until(dir, data, &Until::All) {
            Ok(s) => Ok(s.records),
            Err(e) => Err(e),
        }
    }

    /// A structural sniff test: the newest entry decodes.
    pub fn is_valid(&self, data: &[u8], dir: &AccountDirectory) -> (b: bool)
        requires
            dir.wf(),
        ensures
            b == (data@.len() >= 384 && utmp_entry(
                dir@,
                data@.subrange(data@.len() - 384, data@.len() as int),
            ).is_some()),
    {
        let len = data.len();
        if len < UTMP_ENTRY_SIZE {
            return false;
        }
        decode_entry(data, len - UTMP_ENTRY_SIZE, dir).is_ok()
    }

    /// Well-known locations of the log, in the order they are tried.
    pub fn primary_files(&self) -> (r: Vec<&'static str>)
        ensures
            r@.len() == 3,
            r@[0]@ == "/var/run/utmp"@,
            r@[1]@ == "/var/log/utmp"@,
            r@[2]@ == "/var/log/wtmp"@,
    {
        vec!["/var/run/utmp", "/var/log/utmp", "/var/log/wtmp"]
    }

    /// The latest user session of every known account.
    pub fn iter_accounts(&self, data: &[u8], dir: &AccountDirectory) -> (r: Result<Vec<Record>, DbError>)
        requires
            dir.wf(),
        ensures
            same_results(r, utmp_accounts_result(dir@, data@)),
    {
        let all = match read_until(dir, data, &Until::Sessions) {
            Ok(s) => s.records,
            Err(e) => return Err(e),
        };
        let ghost s = views(all@);
        let n = all.len();
        let mut out: Vec<Record> = Vec::new();
        let mut i: usize = 0;
        assert(s.take(0) =~= Seq::<RecordView>::empty());
        assert(views(out@) =~= Seq::<RecordView>::empty());
        while i < n
            invariant
                i <= n,
                n == all@.len(),
                s == views(all@),
                views(out@) == account_sessions(s.take(i as int)),
            decreases n - i,
        {
            assert(s.take(i + 1).drop_last() =~= s.take(i as int));
            assert(s.take(i + 1).last() == all@[i as int]@);
            let rec = &all[i];
            if rec.rtype == RecordType::User && rec.uid.is_some() {
                let ghost v = views(out@);
                out.push(rec.duplicate());
                assert(views(out@) =~= v.push(all@[i as int]@));
            }
            i = i + 1;
        }
        assert(s.take(n as int) =~= s);
        Ok(out)
    }

    /// The latest record of the account with user id `uid`; the scan stops
    /// at that account's newest entry.
    pub fn search_uid(&self, uid: u32, data: &[u8], dir: &AccountDirectory) -> (r: Result<Record, DbError>)
        requires
            dir.wf(),
        ensures
            same_result(r, utmp_uid_result(dir@, data@, uid)),
    {
        let until = Until::Uid(uid);
        let all = match read_until(dir, data, &until) {
            Ok(s) => s.records,
            Err(e) => return Err(e),
        };
        let ghost s = views(all@);
        let n = all.len();
        let mut i: usize = 0;
        assert(s.subrange(0, n as int) =~= s);
        while i < n
            invariant
                i <= n,
                n == all@.len(),
                s == views(all@),
                resolved(dir@, data@, StopKey::Uid(uid)) == Ok::<Seq<RecordView>, DbError>(s),
                first_with_uid(s, uid) == first_with_uid(s.subrange(i as int, n as int), uid),
            decreases n - i,
        {
            assert(s.subrange(i as int, n as int).drop_first() =~= s.subrange(i + 1, n as int));
            assert(s.subrange(i as int, n as int)[0] == all@[i as int]@);
            let hit = match all[i].uid {
                Some(x) => x == uid,
                None => false,
            };
            if hit {
                let out = all[i].duplicate();
                return Ok(out);
            }
            i = i + 1;
        }
        Err(DbError::InvalidInput)
    }

    /// The latest record of the account named `username`; the scan stops at
    /// that name's newest entry.
    pub fn search_username(&self, username: &str, data: &[u8], dir: &AccountDirectory) -> (r: Result<
        Record,
        DbError,
    >)
        requires
            dir.wf(),
        ensures
            same_result(r, utmp_name_result(dir@, data@, username@)),
    {
        let key = username.to_owned();
        if dir.lookup_name(&key).is_none() {
            return Err(DbError::InvalidInput);
        }
        let until = Until::Name(key.clone());
        let all = match read_until(dir, data, &until) {
            Ok(s) => s.records,
            Err(e) => return Err(e),
        };
        let ghost s = views(all@);
        let n = all.len();
        let mut i: usize = 0;
        assert(s.subrange(0, n as int) =~= s);
        while i < n
            invariant
                i <= n,
                n == all@.len(),
                s == views(all@),
                key@ == username@,
                uid_of_name(dir@, username@) is Some,
                resolved(dir@, data@, StopKey::Name(username@)) == Ok::<Seq<RecordView>, DbError>(s),
                first_with_name(s, username@) == first_with_name(
                    s.subrange(i as int, n as int),
                    username@,
                ),
            decreases n - i,
        {
            assert(s.subrange(i as int, n as int).drop_first() =~= s.subrange(i + 1, n as int));
            assert(s.subrange(i as int, n as int)[0] == all@[i as int]@);
            if all[i].name == key {
                let out = all[i].duplicate();
                return Ok(out);
            }
            i = i + 1;
        }
        Err(DbError::InvalidInput)
    }
}

} // verus!
