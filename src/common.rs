//! Record model shared by every reader, and the field decoders they use.
use vstd::prelude::*;
use vstd::slice::slice_subrange;
use vstd::utf8::{decode_utf8, valid_utf8};

verus! {

/// Kind of a login-accounting entry (see utmp(5)).
#[derive(Debug, Clone, Copy, PartialEq, Eq, Structural)]
pub enum RecordType {
    Empty,
    RunLvl,
    BootTime,
    NewTime,
    OldTime,
    InitProc,
    LoginProc,
    User,
    DeadProc,
    Accounting,
}

/// The kind that a raw tag stands for; tags outside `0..=9` stand for none.
pub open spec fn record_type_of(tag: int) -> Option<RecordType> {
    if tag == 0 {
        Some(RecordType::Empty)
    } else if tag == 1 {
        Some(RecordType::RunLvl)
    } else if tag == 2 {
        Some(RecordType::BootTime)
    } else if tag == 3 {
        Some(RecordType::NewTime)
    } else if tag == 4 {
        Some(RecordType::OldTime)
    } else if tag == 5 {
        Some(RecordType::InitProc)
    } else if tag == 6 {
        Some(RecordType::LoginProc)
    } else if tag == 7 {
        Some(RecordType::User)
    } else if tag == 8 {
        Some(RecordType::DeadProc)
    } else if tag == 9 {
        Some(RecordType::Accounting)
    } else {
        None
    }
}

impl RecordType {
    /// Decodes a raw kind tag; `None` for a tag outside the closed set.
    pub fn try_from(value: i32) -> (r: Option<RecordType>)
        ensures
            r == record_type_of(value as int),
    {
        match value {
            0 => Some(RecordType::Empty),
            1 => Some(RecordType::RunLvl),
            2 => Some(RecordType::BootTime),
            3 => Some(RecordType::NewTime),
            4 => Some(RecordType::OldTime),
            5 => Some(RecordType::InitProc),
            6 => Some(RecordType::LoginProc),
            7 => Some(RecordType::User),
            8 => Some(RecordType::DeadProc),
            9 => Some(RecordType::Accounting),
            _ => None,
        }
    }
}

/// Last login of an account: never, or a moment in seconds since the Unix epoch.
#[derive(Debug, Clone, Copy, PartialEq, Eq, Structural)]
pub enum LoginTime {
    Never,
    Last(u64),
}

/// `a` is strictly later than `b`; a login is later than none at all.
pub open spec fn later(a: LoginTime, b: LoginTime) -> bool {
    match (a, b) {
        (LoginTime::Last(x), LoginTime::Last(y)) => x > y,
        (LoginTime::Last(_), LoginTime::Never) => true,
        _ => false,
    }
}

/// The login time that a raw timestamp field stands for: zero means never.
pub open spec fn login_time_of(ts: u32) -> LoginTime {
    if ts == 0 {
        LoginTime::Never
    } else {
        LoginTime::Last(ts as u64)
    }
}

impl LoginTime {
    /// Seconds since the epoch, or `None` for an account that never logged in.
    pub fn seconds(&self) -> (r: Option<u64>)
        ensures
            r == (match *self {
                LoginTime::Never => None,
                LoginTime::Last(t) => Some(t),
            }),
    {
        match *self {
            LoginTime::Never => None,
            LoginTime::Last(t) => Some(t),
        }
    }

    /// The login time for seconds since the epoch, or never for `None`.
    pub fn from_seconds(v: Option<u64>) -> (r: LoginTime)
        ensures
            r == (match v {
                None => LoginTime::Never,
                Some(t) => LoginTime::Last(t),
            }),
    {
        match v {
            None => LoginTime::Never,
            Some(t) => LoginTime::Last(t),
        }
    }

    /// `self` is strictly later than `other`.
    pub fn is_later_than(&self, other: &LoginTime) -> (r: bool)
        ensures
            r == later(*self, *other),
    {
        match (*self, *other) {
            (LoginTime::Last(x), LoginTime::Last(y)) => x > y,
            (LoginTime::Last(_), LoginTime::Never) => true,
            _ => false,
        }
    }
}

/// Mathematical value of a [`Record`].
pub ghost struct RecordView {
    pub rtype: RecordType,
    pub uid: Option<u32>,
    pub name: Seq<char>,
    pub tty: Seq<char>,
    pub last_login: LoginTime,
}

/// Latest-login information of one account (or of one log entry).
#[derive(Debug, Clone)]
pub struct Record {
    pub rtype: RecordType,
    pub uid: Option<u32>,
    pub name: String,
    pub tty: String,
    pub last_login: LoginTime,
}

impl View for Record {
    type V = RecordView;

    open spec fn view(&self) -> RecordView {
        RecordView {
            rtype: self.rtype,
            uid: self.uid,
            name: self.name@,
            tty: self.tty@,
            last_login: self.last_login,
        }
    }
}

/// The views of a sequence of records.
pub open spec fn views(v: Seq<Record>) -> Seq<RecordView> {
    v.map_values(|r: Record| r@)
}

impl Record {
    /// A copy of the record.
    pub fn duplicate(&self) -> (r: Record)
        ensures
            r@ == self@,
    {
        Record {
            rtype: self.rtype,
            uid: self.uid,
            name: self.name.clone(),
            tty: self.tty.clone(),
            last_login: self.last_login,
        }
    }
}

/// Why a lookup failed.
#[derive(Debug, Clone, Copy, PartialEq, Eq, Structural)]
pub enum DbError {
    /// No such record, log entry or working database.
    NotFound,
    /// Malformed bytes: bad text, kind tag out of range, zero entry timestamp.
    InvalidData,
    /// The lookup key is not a known account, or an explicit path cannot be opened.
    InvalidInput,
    /// A fixed-size read ran past the end of the data.
    UnexpectedEof,
}

/// `r` is the outcome `s`: the same record, or the same error.
pub open spec fn same_result(r: Result<Record, DbError>, s: Result<RecordView, DbError>) -> bool {
    match (r, s) {
        (Ok(x), Ok(y)) => x@ == y,
        (Err(x), Err(y)) => x == y,
        _ => false,
    }
}

/// `r` is the outcome `s`: the same records in order, or the same error.
pub open spec fn same_results(r: Result<Vec<Record>, DbError>, s: Result<Seq<RecordView>, DbError>) -> bool {
    match (r, s) {
        (Ok(x), Ok(y)) => views(x@) == y,
        (Err(x), Err(y)) => x == y,
        _ => false,
    }
}

/// Converts a raw timestamp field: zero means never logged in.
pub fn unix_timestamp(ts: u32) -> (r: LoginTime)
    ensures
        r == login_time_of(ts),
{
    if ts > 0 {
        LoginTime::Last(ts as u64)
    } else {
        LoginTime::Never
    }
}

/// The record of a known account that has no login on record.
pub open spec fn never_record(uid: u32, name: Seq<char>) -> RecordView {
    RecordView {
        rtype: RecordType::User,
        uid: Some(uid),
        name,
        tty: Seq::empty(),
        last_login: LoginTime::Never,
    }
}

/// Builds the "never logged in" record of an account.
pub fn new_record(uid: u32, name: String) -> (r: Record)
    ensures
        r@ == never_record(uid, name@),
{
    Record { rtype: RecordType::User, uid: Some(uid), name, tty: String::new(), last_login: LoginTime::Never }
}

// ---------------------------------------------------------------------------
// Field decoding
// ---------------------------------------------------------------------------

/// `s` without its leading zero bytes.
pub open spec fn trim_lead(s: Seq<u8>) -> Seq<u8>
    decreases s.len(),
{
    if s.len() > 0 && s[0] == 0 {
        trim_lead(s.drop_first())
    } else {
        s
    }
}

/// `s` without its trailing zero bytes.
pub open spec fn trim_trail(s: Seq<u8>) -> Seq<u8>
    decreases s.len(),
{
    if s.len() > 0 && s.last() == 0 {
        trim_trail(s.drop_last())
    } else {
        s
    }
}

/// A null-padded byte field without its padding.
pub open spec fn trim_nul(s: Seq<u8>) -> Seq<u8> {
    trim_trail(trim_lead(s))
}

/// The text that a null-padded byte field holds, if its bytes are UTF-8.
pub open spec fn text_of(s: Seq<u8>) -> Option<Seq<char>> {
    if valid_utf8(trim_nul(s)) {
        Some(decode_utf8(trim_nul(s)))
    } else {
        None
    }
}

/// Relies on `std::str::from_utf8`: it succeeds exactly on valid UTF-8,
/// and the string then holds the characters that the bytes encode.
#[verifier::external_body]
pub(crate) fn utf8_string(b: &[u8]) -> (r: Option<String>)
    ensures
        r.is_some() == valid_utf8(b@),
        r matches Some(s) ==> s@ == decode_utf8(b@),
{
    std::str::from_utf8(b).ok().map(|s| s.to_owned())
}

/// Decodes a null-padded text field: the padding is dropped, and the rest
/// must be UTF-8.
pub fn decode_text(field: &[u8]) -> (r: Option<String>)
    ensures
        r.is_some() == text_of(field@).is_some(),
        r matches Some(s) ==> text_of(field@) == Some(s@),
{
    let n = field.len();
    let mut a: usize = 0;
    assert(field@.subrange(0, n as int) =~= field@);
    while a < n && field[a] == 0
        invariant
            a <= n,
            n == field@.len(),
            trim_lead(field@) == trim_lead(field@.subrange(a as int, n as int)),
        decreases n - a,
    {
        assert(field@.subrange(a as int, n as int).drop_first() =~= field@.subrange(
            a as int + 1,
            n as int,
        ));
        a = a + 1;
    }
    let ghost lead = field@.subrange(a as int, n as int);
    assert(trim_lead(lead) == lead);
    let mut b: usize = n;
    while b > a && field[b - 1] == 0
        invariant
            a <= b <= n,
            n == field@.len(),
            trim_trail(lead) == trim_trail(field@.subrange(a as int, b as int)),
        decreases b - a,
    {
        assert(field@.subrange(a as int, b as int).drop_last() =~= field@.subrange(
            a as int,
            b as int - 1,
        ));
        b = b - 1;
    }
    let inner = slice_subrange(field, a, b);
    assert(trim_trail(inner@) == inner@);
    utf8_string(inner)
}

/// Little-endian unsigned 32-bit value of the four bytes at `i`.
pub open spec fn le_u32(s: Seq<u8>, i: int) -> u32 {
    (s[i] as int + s[i + 1] as int * 0x100 + s[i + 2] as int * 0x10000 + s[i + 3] as int
        * 0x1000000) as u32
}

/// Reads a little-endian unsigned 32-bit value at `i`.
pub fn read_u32_le(s: &[u8], i: usize) -> (r: u32)
    requires
        i + 4 <= s@.len(),
    ensures
        r == le_u32(s@, i as int),
{
    let b0 = s[i] as u32;
    let b1 = s[i + 1] as u32;
    let b2 = s[i + 2] as u32;
    let b3 = s[i + 3] as u32;
    b0 + b1 * 0x100 + b2 * 0x10000 + b3 * 0x1000000
}

} // verus!
