//! Properties that relate several functions of the library, proved over the
//! spec functions that their contracts use.
use vstd::prelude::*;
use vstd::arithmetic::div_mod::lemma_fundamental_div_mod;

use crate::common::{
    later, le_u32, login_time_of, never_record, text_of, DbError, RecordType, RecordView,
};
use crate::directory::{directory_wf, has_name, has_uid, uid_of_name};
use crate::lastlog::{lastlog_slot, lastlog_uid_result, slot_offset};
use crate::{uid_result, Source};
use crate::utmp::{
    entry_bytes, first_with_uid, has_record, merge, names_unique, record_index, resolved,
    latest_of_kind, scan_back, scan_count, scanned, set_latest_spec, merges, stops, synthesize, utmp_entry, utmp_uid_result, StopKey,
};

verus! {

/// The four little-endian bytes of `ts`.
pub open spec fn le_bytes(ts: u32) -> Seq<u8> {
    seq![
        (ts % 256) as u8,
        ((ts / 256) % 256) as u8,
        ((ts / 65536) % 256) as u8,
        (ts / 16777216) as u8,
    ]
}

/// `data` with the slot of `uid` overwritten by `slot`.
pub open spec fn write_slot(data: Seq<u8>, uid: u32, slot: Seq<u8>) -> Seq<u8> {
    data.subrange(0, slot_offset(uid)) + slot + data.subrange(slot_offset(uid) + 292, data.len() as int)
}

/// Reading a little-endian value back gives the value written.
pub proof fn lemma_le_round_trip(ts: u32)
    ensures
        le_u32(le_bytes(ts), 0) == ts,
{
    let x = ts as int;
    lemma_fundamental_div_mod(x, 256);
    lemma_fundamental_div_mod(x / 256, 256);
    lemma_fundamental_div_mod(x / 65536, 256);
    assert((x / 256) / 256 == x / 65536) by {
        vstd::arithmetic::div_mod::lemma_div_denominator(x, 256, 256);
    }
    assert((x / 65536) / 256 == x / 16777216) by {
        vstd::arithmetic::div_mod::lemma_div_denominator(x, 65536, 256);
    }
    assert(x / 16777216 < 256) by {
        vstd::arithmetic::div_mod::lemma_div_by_multiple_is_strongly_ordered(x, 4294967296, 256, 16777216);
    }
    assert(x / 16777216 >= 0) by {
        vstd::arithmetic::div_mod::lemma_div_pos_is_pos(x, 16777216);
    }
    assert(x % 256 < 256);
}

/// Round trip of the slot reader: after a slot made of the timestamp `ts`,
/// a text terminal field and a text remote-host field is written at the slot of
/// `uid`, reading that slot gives a user-session record of `uid` whose login
/// is `ts` (never, exactly when `ts` is 0) and whose terminal is that text.
pub proof fn lastlog_round_trip(
    data: Seq<u8>,
    uid: u32,
    ts: u32,
    line: Seq<u8>,
    host: Seq<u8>,
    name: Seq<char>,
)
    requires
        slot_offset(uid) + 292 <= data.len(),
        line.len() == 32,
        host.len() == 256,
        text_of(line) is Some,
        text_of(host) is Some,
    ensures
        lastlog_slot(write_slot(data, uid, le_bytes(ts) + line + host), name, uid) == Ok::<
            RecordView,
            DbError,
        >(
            RecordView {
                rtype: RecordType::User,
                uid: Some(uid),
                name,
                tty: text_of(line)->Some_0,
                last_login: login_time_of(ts),
            },
        ),
{
    let slot = le_bytes(ts) + line + host;
    let w = write_slot(data, uid, slot);
    let o = slot_offset(uid);
    assert(w.subrange(o, o + 292) =~= slot);
    assert(slot.subrange(4, 36) =~= line);
    assert(slot.subrange(36, 292) =~= host);
    assert(slot.subrange(0, 4) =~= le_bytes(ts));
    lemma_le_round_trip(ts);
    assert(le_u32(slot, 0) == le_u32(le_bytes(ts), 0));
}

/// A log entry whose kind tag lies outside the closed set is corrupt: it
/// does not decode, and a scan that reaches it fails with `InvalidData`.
pub proof fn corrupt_kind_rejected(d: Seq<(u32, Seq<char>)>, data: Seq<u8>, u: StopKey)
    requires
        data.len() >= 384,
        data.len() % 384 == 0,
        le_u32(entry_bytes(data, data.len() / 384 - 1), 0) > 9,
    ensures
        utmp_entry(d, entry_bytes(data, data.len() / 384 - 1)) is None,
        scanned(d, data, u) == Err::<Seq<RecordView>, DbError>(DbError::InvalidData),
{
}

/// Early stop: when the newest entry of the log is one that the lookup
/// merges and it satisfies the lookup, the scan decodes that one entry and
/// nothing before it.
pub proof fn early_stop_bound(d: Seq<(u32, Seq<char>)>, data: Seq<u8>, u: StopKey)
    requires
        data.len() >= 384,
        data.len() % 384 == 0,
        utmp_entry(d, entry_bytes(data, data.len() / 384 - 1)) is Some,
        merges(u, utmp_entry(d, entry_bytes(data, data.len() / 384 - 1))->Some_0),
        stops(u, utmp_entry(d, entry_bytes(data, data.len() / 384 - 1))->Some_0),
    ensures
        scanned(d, data, u) == Ok::<Seq<RecordView>, DbError>(
            seq![utmp_entry(d, entry_bytes(data, data.len() / 384 - 1))->Some_0],
        ),
        scan_count(d, data, (data.len() / 384) as nat, u) == 1,
{
}

/// Merging keeps one record per name.
pub proof fn lemma_merge_unique(recs: Seq<RecordView>)
    ensures
        names_unique(merge(recs)),
    decreases recs.len(),
{
    if recs.len() > 0 {
        lemma_merge_unique(recs.drop_last());
    }
}

/// Latest wins: after a whole log is merged, each name that has an entry
/// has a record, and that record's login is no earlier than the login of
/// any entry of that name, whatever the order of the entries.
pub proof fn latest_wins(recs: Seq<RecordView>)
    ensures
        names_unique(merge(recs)),
        forall|i: int|
            0 <= i < recs.len() ==> has_record(merge(recs), #[trigger] recs[i].name) && !later(
                recs[i].last_login,
                merge(recs)[record_index(merge(recs), recs[i].name)].last_login,
            ),
    decreases recs.len(),
{
    lemma_merge_unique(recs);
    if recs.len() > 0 {
        let p = recs.drop_last();
        let x = recs.last();
        latest_wins(p);
        let mp = merge(p);
        let m = merge(recs);
        assert(m == set_latest_spec(mp, x));
        assert forall|i: int| 0 <= i < recs.len() implies has_record(m, #[trigger] recs[i].name)
            && !later(recs[i].last_login, m[record_index(m, recs[i].name)].last_login) by {
            let n = recs[i].name;
            if has_record(mp, x.name) {
                let xi = record_index(mp, x.name);
                if i < recs.len() - 1 {
                    assert(recs[i] == p[i]);
                    assert(has_record(mp, n));
                    let k = record_index(mp, n);
                    if n == x.name {
                        assert(k == xi);
                        if later(x.last_login, mp[xi].last_login) {
                            assert(m[xi] == x);
                            assert(has_record(m, n));
                            assert(record_index(m, n) == xi);
                        } else {
                            assert(m == mp);
                        }
                    } else {
                        if later(x.last_login, mp[xi].last_login) {
                            assert(m[k] == mp[k]);
                            assert(has_record(m, n));
                            assert(record_index(m, n) == k);
                        } else {
                            assert(m == mp);
                        }
                    }
                } else {
                    assert(recs[i] == x);
                    if later(x.last_login, mp[xi].last_login) {
                        assert(m[xi] == x);
                        assert(has_record(m, n));
                        assert(record_index(m, n) == xi);
                    } else {
                        assert(m == mp);
                    }
                }
            } else {
                let last = mp.len() as int;
                assert(m == mp.push(x));
                assert(m[last] == x);
                if i < recs.len() - 1 {
                    assert(recs[i] == p[i]);
                    assert(has_record(mp, n));
                    let k = record_index(mp, n);
                    assert(m[k] == mp[k]);
                    assert(has_record(m, n));
                    assert(record_index(m, n) == k);
                } else {
                    assert(recs[i] == x);
                    assert(has_record(m, n));
                    assert(record_index(m, n) == last);
                }
            }
        }
    }
}

/// Every user id that a record carries belongs to an account of `d`.
pub open spec fn uids_known(s: Seq<RecordView>, d: Seq<(u32, Seq<char>)>) -> bool {
    forall|i: int| 0 <= i < s.len() ==> known_uid((#[trigger] s[i]).uid, d)
}

/// A user id that is absent, or that belongs to an account of `d`.
pub open spec fn known_uid(u: Option<u32>, d: Seq<(u32, Seq<char>)>) -> bool {
    match u {
        Some(x) => has_uid(d, x),
        None => true,
    }
}

proof fn lemma_uid_of_name_known(d: Seq<(u32, Seq<char>)>, n: Seq<char>)
    ensures
        known_uid(uid_of_name(d, n), d),
{
    if has_name(d, n) {
        let x = uid_of_name(d, n)->Some_0;
        assert(has_uid(d, x));
    }
}

proof fn lemma_scan_uids_known(d: Seq<(u32, Seq<char>)>, data: Seq<u8>, k: nat, u: StopKey)
    ensures
        scan_back(d, data, k, u) matches Ok(s) ==> uids_known(s, d),
    decreases k,
{
    if k > 0 {
        lemma_scan_uids_known(d, data, (k - 1) as nat, u);
        let e = entry_bytes(data, k - 1);
        if let Some(r) = utmp_entry(d, e) {
            lemma_uid_of_name_known(d, r.name);
            if let Ok(rest) = scan_back(d, data, (k - 1) as nat, u) {
                let s = seq![r] + rest;
                assert forall|i: int| 0 <= i < s.len() implies known_uid((#[trigger] s[i]).uid, d) by {
                    if i > 0 {
                        assert(s[i] == rest[i - 1]);
                    }
                }
            }
        }
    }
}

proof fn lemma_merge_uids_known(recs: Seq<RecordView>, d: Seq<(u32, Seq<char>)>)
    requires
        uids_known(recs, d),
    ensures
        uids_known(merge(recs), d),
    decreases recs.len(),
{
    if recs.len() > 0 {
        let p = recs.drop_last();
        assert(uids_known(p, d)) by {
            assert forall|i: int| 0 <= i < p.len() implies known_uid((#[trigger] p[i]).uid, d) by {
                assert(p[i] == recs[i]);
            }
        }
        lemma_merge_uids_known(p, d);
        assert(recs.last() == recs[recs.len() - 1]);
    }
}

proof fn lemma_synthesize_uids_known(
    m: Seq<RecordView>,
    dd: Seq<(u32, Seq<char>)>,
    d: Seq<(u32, Seq<char>)>,
)
    requires
        uids_known(m, d),
        forall|k: int| 0 <= k < dd.len() ==> has_uid(d, #[trigger] dd[k].0),
    ensures
        uids_known(synthesize(m, dd), d),
    decreases dd.len(),
{
    if dd.len() > 0 {
        let q = dd.drop_last();
        assert forall|k: int| 0 <= k < q.len() implies has_uid(d, #[trigger] q[k].0) by {
            assert(q[k] == dd[k]);
        }
        lemma_synthesize_uids_known(m, q, d);
        assert(has_uid(d, dd[dd.len() - 1].0));
    }
}

proof fn lemma_first_with_uid_none(s: Seq<RecordView>, d: Seq<(u32, Seq<char>)>, uid: u32)
    requires
        uids_known(s, d),
        !has_uid(d, uid),
    ensures
        first_with_uid(s, uid) is None,
    decreases s.len(),
{
    if s.len() > 0 {
        let t = s.drop_first();
        assert forall|i: int| 0 <= i < t.len() implies known_uid((#[trigger] t[i]).uid, d) by {
            assert(t[i] == s[i + 1]);
        }
        assert(s[0] == s[0]);
        lemma_first_with_uid_none(t, d, uid);
    }
}

/// An unknown lookup key is never answered with a made-up record: for a
/// user id that no account of the directory has, the slot reader fails with
/// `InvalidInput`, and so does the log reader whenever the log itself
/// decodes.
pub proof fn unknown_uid_rejected(d: Seq<(u32, Seq<char>)>, data: Seq<u8>, uid: u32)
    requires
        !has_uid(d, uid),
    ensures
        lastlog_uid_result(d, data, uid) == Err::<RecordView, DbError>(DbError::InvalidInput),
        resolved(d, data, StopKey::Uid(uid)) is Ok ==> utmp_uid_result(d, data, uid) == Err::<
            RecordView,
            DbError,
        >(DbError::InvalidInput),
{
    if data.len() % 384 == 0 {
        lemma_scan_uids_known(d, data, data.len() / 384, StopKey::Uid(uid));
        if let Ok(recs) = scanned(d, data, StopKey::Uid(uid)) {
            lemma_merge_uids_known(recs, d);
            assert forall|k: int| 0 <= k < d.len() implies has_uid(d, #[trigger] d[k].0) by {}
            lemma_synthesize_uids_known(merge(recs), d, d);
            lemma_first_with_uid_none(synthesize(merge(recs), d), d, uid);
        }
    }
}

/// Never-logged-in synthesis: the records that come before stay as they
/// are; every account of the directory gets a record; an account without
/// one of its own gets a "never logged in" user-session record; and each
/// added record is such a record.
pub proof fn never_logged_in_synthesis(m: Seq<RecordView>, d: Seq<(u32, Seq<char>)>)
    requires
        directory_wf(d),
    ensures
        synthesize(m, d).len() >= m.len(),
        synthesize(m, d).subrange(0, m.len() as int) == m,
        forall|k: int| 0 <= k < d.len() ==> has_record(synthesize(m, d), #[trigger] d[k].1),
        forall|k: int|
            0 <= k < d.len() && !has_record(m, #[trigger] d[k].1) ==> synthesize(m, d).contains(
                never_record(d[k].0, d[k].1),
            ),
        forall|j: int|
            m.len() <= j < synthesize(m, d).len() ==> exists|k: int|
                0 <= k < d.len() && !has_record(m, d[k].1) && #[trigger] synthesize(m, d)[j]
                    == never_record(d[k].0, d[k].1),
    decreases d.len(),
{
    let s = synthesize(m, d);
    if d.len() == 0 {
        assert(s.subrange(0, m.len() as int) =~= m);
    } else {
        let q = d.drop_last();
        let p = synthesize(m, q);
        assert(directory_wf(q)) by {
            assert forall|i: int, j: int| 0 <= i < j < q.len() implies q[i].1 != q[j].1 by {
                assert(q[i] == d[i] && q[j] == d[j]);
            }
        }
        never_logged_in_synthesis(m, q);
        let a = d.last();
        assert(a == d[d.len() - 1]);
        if has_record(p, a.1) {
            assert(s == p);
        } else {
            assert(s == p.push(never_record(a.0, a.1)));
            assert(s.subrange(0, m.len() as int) =~= p.subrange(0, m.len() as int));
            assert(s[p.len() as int] == never_record(a.0, a.1));
            assert(has_record(s, a.1));
            assert(!has_record(m, a.1)) by {
                if has_record(m, a.1) {
                    let i = choose|i: int| 0 <= i < m.len() && m[i].name == a.1;
                    assert(p[i] == m[i]);
                }
            }
        }
        assert forall|k: int| 0 <= k < d.len() implies has_record(s, #[trigger] d[k].1) by {
            if k < d.len() - 1 {
                assert(q[k] == d[k]);
                assert(has_record(p, q[k].1));
                let i = choose|i: int| 0 <= i < p.len() && p[i].name == q[k].1;
                assert(s[i] == p[i]);
            }
        }
        assert forall|k: int|
            0 <= k < d.len() && !has_record(m, #[trigger] d[k].1) implies s.contains(
                never_record(d[k].0, d[k].1),
            ) by {
            if k < d.len() - 1 {
                assert(q[k] == d[k]);
                assert(p.contains(never_record(q[k].0, q[k].1)));
                let i = choose|i: int| 0 <= i < p.len() && p[i] == never_record(q[k].0, q[k].1);
                assert(s[i] == p[i]);
            } else {
                if has_record(p, a.1) {
                    let i = choose|i: int| 0 <= i < p.len() && p[i].name == a.1;
                    assert(p[i].name == a.1);
                    assert(i >= m.len()) by {
                        if i < m.len() {
                            assert(p.subrange(0, m.len() as int)[i] == m[i]);
                        }
                    }
                    let k2 = choose|k2: int|
                        0 <= k2 < q.len() && !has_record(m, q[k2].1) && #[trigger] p[i]
                            == never_record(q[k2].0, q[k2].1);
                    assert(p[i].name == q[k2].1);
                    assert(q[k2] == d[k2]);
                    assert(d[k2].1 != d[d.len() - 1].1);
                } else {
                    assert(s[p.len() as int] == never_record(a.0, a.1));
                }
            }
        }
        assert forall|j: int| m.len() <= j < s.len() implies exists|k: int|
            0 <= k < d.len() && !has_record(m, d[k].1) && #[trigger] s[j] == never_record(
                d[k].0,
                d[k].1,
            ) by {
            if j < p.len() {
                assert(s[j] == p[j]);
                let k2 = choose|k2: int|
                    0 <= k2 < q.len() && !has_record(m, q[k2].1) && #[trigger] p[j] == never_record(
                        q[k2].0,
                        q[k2].1,
                    );
                assert(q[k2] == d[k2]);
            } else {
                assert(s[j] == never_record(a.0, a.1));
                assert(!has_record(m, d[d.len() - 1].1));
            }
        }
    }
}

/// Every record carries the user id that the directory gives its name.
pub open spec fn uids_consistent(s: Seq<RecordView>, d: Seq<(u32, Seq<char>)>) -> bool {
    forall|i: int| 0 <= i < s.len() ==> (#[trigger] s[i]).uid == uid_of_name(d, s[i].name)
}

proof fn lemma_scan_consistent(d: Seq<(u32, Seq<char>)>, data: Seq<u8>, k: nat, u: StopKey)
    ensures
        scan_back(d, data, k, u) matches Ok(s) ==> uids_consistent(s, d),
    decreases k,
{
    if k > 0 {
        lemma_scan_consistent(d, data, (k - 1) as nat, u);
        if let Some(r) = utmp_entry(d, entry_bytes(data, k - 1)) {
            if let Ok(rest) = scan_back(d, data, (k - 1) as nat, u) {
                let s = seq![r] + rest;
                assert forall|i: int| 0 <= i < s.len() implies (#[trigger] s[i]).uid == uid_of_name(
                    d,
                    s[i].name,
                ) by {
                    if i > 0 {
                        assert(s[i] == rest[i - 1]);
                    }
                }
            }
        }
    }
}

proof fn lemma_merge_consistent(recs: Seq<RecordView>, d: Seq<(u32, Seq<char>)>)
    requires
        uids_consistent(recs, d),
    ensures
        uids_consistent(merge(recs), d),
    decreases recs.len(),
{
    if recs.len() > 0 {
        let p = recs.drop_last();
        assert(uids_consistent(p, d)) by {
            assert forall|i: int| 0 <= i < p.len() implies (#[trigger] p[i]).uid == uid_of_name(
                d,
                p[i].name,
            ) by {
                assert(p[i] == recs[i]);
            }
        }
        lemma_merge_consistent(p, d);
        assert(recs.last() == recs[recs.len() - 1]);
    }
}

proof fn lemma_synthesize_consistent(
    m: Seq<RecordView>,
    dd: Seq<(u32, Seq<char>)>,
    d: Seq<(u32, Seq<char>)>,
)
    requires
        directory_wf(d),
        uids_consistent(m, d),
        forall|k: int| 0 <= k < dd.len() ==> d.contains(#[trigger] dd[k]),
    ensures
        uids_consistent(synthesize(m, dd), d),
    decreases dd.len(),
{
    if dd.len() > 0 {
        let q = dd.drop_last();
        assert forall|k: int| 0 <= k < q.len() implies d.contains(#[trigger] q[k]) by {
            assert(q[k] == dd[k]);
        }
        lemma_synthesize_consistent(m, q, d);
        let a = dd[dd.len() - 1];
        assert(d.contains(a));
        let j = choose|j: int| 0 <= j < d.len() && d[j] == a;
        assert(has_name(d, a.1));
        assert(uid_of_name(d, a.1) == Some(a.0)) by {
            let c = choose|i: int| 0 <= i < d.len() && d[i].1 == a.1;
            assert(c == j);
        }
    }
}

proof fn lemma_first_with_uid_some(s: Seq<RecordView>, d: Seq<(u32, Seq<char>)>, n: Seq<char>, uid: u32)
    requires
        uids_consistent(s, d),
        has_record(s, n),
        uid_of_name(d, n) == Some(uid),
    ensures
        first_with_uid(s, uid) is Some,
    decreases s.len(),
{
    if s[0].uid != Some(uid) {
        let t = s.drop_first();
        assert forall|i: int| 0 <= i < t.len() implies (#[trigger] t[i]).uid == uid_of_name(
            d,
            t[i].name,
        ) by {
            assert(t[i] == s[i + 1]);
        }
        let i = choose|i: int| 0 <= i < s.len() && s[i].name == n;
        assert(s[i].uid == Some(uid));
        assert(i > 0);
        assert(t[i - 1] == s[i]);
        lemma_first_with_uid_some(t, d, n, uid);
    }
}

/// A known lookup key is always answered: when the log decodes, a user id
/// of the directory resolves to a record (the latest entry of its account,
/// or a "never logged in" record).
pub proof fn known_uid_resolved(d: Seq<(u32, Seq<char>)>, data: Seq<u8>, uid: u32)
    requires
        directory_wf(d),
        has_uid(d, uid),
        resolved(d, data, StopKey::Uid(uid)) is Ok,
    ensures
        utmp_uid_result(d, data, uid) is Ok,
{
    let recs = scanned(d, data, StopKey::Uid(uid))->Ok_0;
    lemma_scan_consistent(d, data, data.len() / 384, StopKey::Uid(uid));
    lemma_merge_consistent(recs, d);
    assert forall|k: int| 0 <= k < d.len() implies d.contains(#[trigger] d[k]) by {}
    lemma_synthesize_consistent(merge(recs), d, d);
    never_logged_in_synthesis(merge(recs), d);
    let k = choose|k: int| 0 <= k < d.len() && d[k].0 == uid;
    let n = d[k].1;
    assert(has_record(synthesize(merge(recs), d), n));
    assert(has_name(d, n));
    assert(uid_of_name(d, n) == Some(uid)) by {
        let c = choose|i: int| 0 <= i < d.len() && d[i].1 == n;
        assert(c == k);
    }
    lemma_first_with_uid_some(synthesize(merge(recs), d), d, n, uid);
}

/// An unknown user id is never answered from a file: through a log or a
/// slot file, a lookup of an id that no account of the directory has
/// fails (with `InvalidInput`, or with the log's own decoding error).
pub proof fn unknown_uid_fails_on_files(src: Source, d: Seq<(u32, Seq<char>)>, uid: u32)
    requires
        !has_uid(d, uid),
        !(src is Windows),
    ensures
        uid_result(src, d, uid) is Err,
        src is LastLog ==> uid_result(src, d, uid) == Err::<RecordView, DbError>(
            DbError::InvalidInput,
        ),
{
    match src {
        Source::Utmp(data) => {
            unknown_uid_rejected(d, data@, uid);
        },
        Source::LastLog(data) => {
            unknown_uid_rejected(d, data@, uid);
        },
        Source::Windows(_) => {},
    }
}

/// The latest entry of a kind wins: the entry chosen among the entries of
/// kind `k` is one of them, and its login is no earlier than that of any
/// entry of that kind, whatever their order; there is none only when no
/// entry has that kind.
pub proof fn latest_of_kind_wins(recs: Seq<RecordView>, k: RecordType)
    ensures
        latest_of_kind(recs, k) is None <==> forall|i: int|
            0 <= i < recs.len() ==> (#[trigger] recs[i]).rtype != k,
        latest_of_kind(recs, k) matches Some(b) ==> b.rtype == k && recs.contains(b) && forall|
            i: int,
        | 0 <= i < recs.len() && (#[trigger] recs[i]).rtype == k ==> !later(
            recs[i].last_login,
            b.last_login,
        ),
    decreases recs.len(),
{
    if recs.len() > 0 {
        let p = recs.drop_last();
        latest_of_kind_wins(p, k);
        assert forall|i: int| 0 <= i < p.len() implies p[i] == recs[i] by {}
        let r = recs.last();
        assert(r == recs[recs.len() - 1]);
        if let Some(b) = latest_of_kind(p, k) {
            let j = choose|j: int| 0 <= j < p.len() && p[j] == b;
            assert(recs[j] == b);
        }
    }
}

} // verus!
