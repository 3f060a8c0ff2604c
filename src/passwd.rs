//! Parsing of the system account list (`/etc/passwd` format): one account
//! per line, fields separated by `:`, the name first and the user id third.
use vstd::prelude::*;
use vstd::slice::slice_subrange;
use vstd::utf8::{decode_utf8, valid_utf8};

use crate::common::utf8_string;
use crate::directory::{has_name, name_index, AccountDirectory};

verus! {

/// The pieces of `s` between occurrences of `sep` (one piece more than
/// there are separators).
pub open spec fn split(s: Seq<u8>, sep: u8) -> Seq<Seq<u8>>
    decreases s.len(),
{
    if s.len() == 0 {
        seq![Seq::empty()]
    } else {
        let p = split(s.drop_last(), sep);
        if s.last() == sep {
            p.push(Seq::empty())
        } else {
            p.update(p.len() - 1, p.last().push(s.last()))
        }
    }
}

proof fn lemma_split_nonempty(s: Seq<u8>, sep: u8)
    ensures
        split(s, sep).len() >= 1,
    decreases s.len(),
{
    if s.len() > 0 {
        lemma_split_nonempty(s.drop_last(), sep);
    }
}

/// The byte ranges of the pieces of `s` between occurrences of `sep`.
pub fn split_ranges(s: &[u8], sep: u8) -> (r: Vec<(usize, usize)>)
    ensures
        r@.len() == split(s@, sep).len(),
        forall|j: int|
            0 <= j < r@.len() ==> (#[trigger] r@[j]).0 <= r@[j].1 <= s@.len() && s@.subrange(
                r@[j].0 as int,
                r@[j].1 as int,
            ) == split(s@, sep)[j],
{
    let n = s.len();
    let mut out: Vec<(usize, usize)> = Vec::new();
    let mut start: usize = 0;
    let mut i: usize = 0;
    assert(s@.take(0) =~= Seq::<u8>::empty());
    while i < n
        invariant
            i <= n,
            n == s@.len(),
            start <= i,
            split(s@.take(i as int), sep).len() == out@.len() + 1,
            split(s@.take(i as int), sep).last() == s@.subrange(start as int, i as int),
            forall|j: int|
                0 <= j < out@.len() ==> (#[trigger] out@[j]).0 <= out@[j].1 <= i && s@.subrange(
                    out@[j].0 as int,
                    out@[j].1 as int,
                ) == split(s@.take(i as int), sep)[j],
        decreases n - i,
    {
        let ghost t = s@.take(i + 1);
        let ghost p = split(s@.take(i as int), sep);
        assert(t.drop_last() =~= s@.take(i as int));
        assert(t.last() == s@[i as int]);
        let ghost old_out = out@;
        proof {
            lemma_split_nonempty(s@.take(i as int), sep);
        }
        if s[i] == sep {
            out.push((start, i));
            assert(split(t, sep) == p.push(Seq::empty()));
            assert(s@.subrange(i + 1, i + 1) =~= Seq::<u8>::empty());
            assert forall|j: int| 0 <= j < out@.len() implies (#[trigger] out@[j]).0 <= out@[j].1 <= i + 1
                && s@.subrange(out@[j].0 as int, out@[j].1 as int) == split(t, sep)[j] by {
                if j < old_out.len() {
                    assert(out@[j] == old_out[j]);
                    assert(split(t, sep)[j] == p[j]);
                } else {
                    assert(j == p.len() - 1);
                    assert(out@[j] == (start, i));
                    assert(split(t, sep)[j] == p[p.len() - 1]);
                    assert(p[p.len() - 1] == s@.subrange(start as int, i as int));
                }
            }
            start = i + 1;
        } else {
            assert(split(t, sep) == p.update(p.len() - 1, p.last().push(s@[i as int])));
            assert(s@.subrange(start as int, i + 1) =~= s@.subrange(start as int, i as int).push(
                s@[i as int],
            ));
            assert forall|j: int| 0 <= j < out@.len() implies (#[trigger] out@[j]).0 <= out@[j].1 <= i + 1
                && s@.subrange(out@[j].0 as int, out@[j].1 as int) == split(t, sep)[j] by {
                assert(split(t, sep)[j] == p[j]);
            }
        }
        i = i + 1;
    }
    assert(s@.take(n as int) =~= s@);
    let ghost old_out = out@;
    out.push((start, n));
    assert forall|j: int| 0 <= j < out@.len() implies (#[trigger] out@[j]).0 <= out@[j].1 <= s@.len()
        && s@.subrange(out@[j].0 as int, out@[j].1 as int) == split(s@, sep)[j] by {
        if j < old_out.len() {
            assert(out@[j] == old_out[j]);
            assert(split(s@.take(n as int), sep)[j] == split(s@, sep)[j]);
        } else {
            assert(out@[j] == (start, n));
            assert(split(s@, sep).last() == s@.subrange(start as int, n as int));
        }
    }
    out
}

/// An ASCII decimal digit.
pub open spec fn is_digit(b: u8) -> bool {
    48 <= b <= 57
}

/// The number that a string of decimal digits writes.
pub open spec fn digits_value(s: Seq<u8>) -> int
    decreases s.len(),
{
    if s.len() == 0 {
        0
    } else {
        digits_value(s.drop_last()) * 10 + (s.last() - 48)
    }
}

/// The number that a field of one or more decimal digits writes, if it
/// fits in 32 bits.
pub open spec fn digits_uid(s: Seq<u8>) -> Option<u32> {
    if s.len() > 0 && (forall|i: int| 0 <= i < s.len() ==> is_digit(#[trigger] s[i]))
        && digits_value(s) <= u32::MAX {
        Some(digits_value(s) as u32)
    } else {
        None
    }
}

/// The user id that a field writes: an optional `+`, then one or more
/// decimal digits whose value fits in 32 bits.
pub open spec fn uid_of_field(s: Seq<u8>) -> Option<u32> {
    if s.len() > 0 && s[0] == 43 {
        digits_uid(s.drop_first())
    } else {
        digits_uid(s)
    }
}

proof fn lemma_digits_grow(s: Seq<u8>, i: int)
    requires
        0 <= i <= s.len(),
        forall|k: int| 0 <= k < s.len() ==> is_digit(#[trigger] s[k]),
    ensures
        digits_value(s) >= digits_value(s.take(i)) >= 0,
    decreases s.len(),
{
    if s.len() > 0 {
        let p = s.drop_last();
        if i == s.len() {
            assert(s.take(i) =~= s);
            lemma_digits_grow(p, 0);
        } else {
            lemma_digits_grow(p, i);
            assert(p.take(i) =~= s.take(i));
        }
    } else {
        assert(s.take(i) =~= s);
    }
}

/// Parses a decimal user id, with an optional leading `+`.
pub fn parse_uid(s: &[u8]) -> (r: Option<u32>)
    ensures
        r == uid_of_field(s@),
{
    let n = s.len();
    if n > 0 && s[0] == 43 {
        let rest = slice_subrange(s, 1, n);
        assert(rest@ =~= s@.drop_first());
        parse_digits(rest)
    } else {
        parse_digits(s)
    }
}

/// Parses a string of decimal digits.
fn parse_digits(s: &[u8]) -> (r: Option<u32>)
    ensures
        r == digits_uid(s@),
{
    let n = s.len();
    if n == 0 {
        return None;
    }
    let mut acc: u32 = 0;
    let mut i: usize = 0;
    assert(s@.take(0) =~= Seq::<u8>::empty());
    while i < n
        invariant
            i <= n,
            n == s@.len(),
            forall|k: int| 0 <= k < i ==> is_digit(#[trigger] s@[k]),
            acc == digits_value(s@.take(i as int)),
        decreases n - i,
    {
        let b = s[i];
        assert(s@.take(i + 1).drop_last() =~= s@.take(i as int));
        assert(s@.take(i + 1).last() == b);
        if b < 48 || b > 57 {
            return None;
        }
        let d = (b - 48) as u32;
        if acc > (u32::MAX - d) / 10 {
            proof {
                assert(digits_value(s@.take(i + 1)) > u32::MAX);
                if forall|k: int| 0 <= k < s@.len() ==> is_digit(#[trigger] s@[k]) {
                    lemma_digits_grow(s@, i + 1);
                }
            }
            return None;
        }
        acc = acc * 10 + d;
        i = i + 1;
    }
    assert(s@.take(n as int) =~= s@);
    Some(acc)
}

/// A line without the carriage return that may end it.
pub open spec fn strip_cr(line: Seq<u8>) -> Seq<u8> {
    if line.len() > 0 && line.last() == 13 {
        line.drop_last()
    } else {
        line
    }
}

/// The account that one line describes, if it is well formed: the line
/// (without a final carriage return) is UTF-8, and its third field is a
/// user id; the name is the first field.
pub open spec fn account_of_line(line: Seq<u8>) -> Option<(u32, Seq<char>)> {
    let l = strip_cr(line);
    let f = split(l, 58);
    if valid_utf8(l) && f.len() >= 3 && valid_utf8(f[0]) && uid_of_field(f[2]) is Some {
        Some((uid_of_field(f[2])->Some_0, decode_utf8(f[0])))
    } else {
        None
    }
}

/// The directory after adding the account `a`: a name that is there
/// already takes the new user id, so the last line of a name wins.
pub open spec fn add_account(d: Seq<(u32, Seq<char>)>, a: Option<(u32, Seq<char>)>) -> Seq<
    (u32, Seq<char>),
> {
    match a {
        Some((u, n)) => if has_name(d, n) {
            d.update(name_index(d, n), (u, n))
        } else {
            d.push((u, n))
        },
        None => d,
    }
}

/// The directory that the lines describe: malformed lines are skipped, and
/// of the lines of one name the last one counts.
pub open spec fn directory_of_lines(lines: Seq<Seq<u8>>) -> Seq<(u32, Seq<char>)>
    decreases lines.len(),
{
    if lines.len() == 0 {
        Seq::empty()
    } else {
        add_account(directory_of_lines(lines.drop_last()), account_of_line(lines.last()))
    }
}

/// Parses one line.
fn parse_line(raw: &[u8]) -> (r: Option<(u32, String)>)
    ensures
        match account_of_line(raw@) {
            Some((u, n)) => r matches Some((x, s)) && x == u && s@ == n,
            None => r is None,
        },
{
    let n = raw.len();
    let line = if n > 0 && raw[n - 1] == 13 {
        slice_subrange(raw, 0, n - 1)
    } else {
        raw
    };
    assert(line@ =~= strip_cr(raw@));
    if utf8_string(line).is_none() {
        return None;
    }
    let fields = split_ranges(line, 58);
    if fields.len() < 3 {
        return None;
    }
    let (a0, b0) = fields[0];
    let (a2, b2) = fields[2];
    assert(line@.subrange(a0 as int, b0 as int) == split(line@, 58)[0]);
    assert(line@.subrange(a2 as int, b2 as int) == split(line@, 58)[2]);
    let uid = match parse_uid(slice_subrange(line, a2, b2)) {
        Some(u) => u,
        None => return None,
    };
    match utf8_string(slice_subrange(line, a0, b0)) {
        Some(name) => Some((uid, name)),
        None => None,
    }
}

/// Reads the account directory (the map from names to user ids) from the
/// contents of an `/etc/passwd`-style file: each well-formed line adds its
/// account, a later line of the same name replaces the earlier one's user
/// id, and malformed lines are skipped.
pub fn read_passwd_nmap(text: &[u8]) -> (r: AccountDirectory)
    ensures
        r.wf(),
        r@ == directory_of_lines(split(text@, 10)),
{
    let lines = split_ranges(text, 10);
    let ghost ls = split(text@, 10);
    let mut dir = AccountDirectory::new();
    let n = lines.len();
    let mut i: usize = 0;
    assert(ls.take(0) =~= Seq::<Seq<u8>>::empty());
    while i < n
        invariant
            i <= n,
            n == lines@.len(),
            n == ls.len(),
            ls == split(text@, 10),
            forall|j: int|
                0 <= j < n ==> (#[trigger] lines@[j]).0 <= lines@[j].1 <= text@.len() && text@.subrange(
                    lines@[j].0 as int,
                    lines@[j].1 as int,
                ) == split(text@, 10)[j],
            dir.wf(),
            dir@ == directory_of_lines(ls.take(i as int)),
        decreases n - i,
    {
        let (a, b) = lines[i];
        assert(ls.take(i + 1).drop_last() =~= ls.take(i as int));
        assert(ls.take(i + 1).last() == ls[i as int]);
        let line = slice_subrange(text, a, b);
        match parse_line(line) {
            Some((uid, name)) => {
                dir.insert(uid, name);
            },
            None => {},
        }
        i = i + 1;
    }
    assert(ls.take(n as int) =~= ls);
    dir
}

} // verus!
