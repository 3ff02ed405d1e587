//! A position in a piece of music, in whole seconds, and its text form.

use crate::text::{
    all_digits, decimal, digits_value, is_digit, lemma_decimal_round_trip,
    lemma_digits_value_prefix, lemma_two_digits_round_trip, push_two_digits, two_digits,
};
use vstd::prelude::*;
use vstd::string::*;

verus! {

/// The message with which a malformed position is turned down.
pub const ILLEGAL_POSITION: &'static str = "illegal position";

/// A position in seconds from the start.
#[derive(Clone, Copy, Debug, PartialEq, Eq, Structural)]
pub struct MusicPosition {
    pub seconds: u32,
}

/// The digits of a numeric field: the field itself, less a leading `+`.
pub open spec fn field_digits(f: Seq<char>) -> Seq<char> {
    if f.len() > 0 && f[0] == '+' {
        f.skip(1)
    } else {
        f
    }
}

/// The number that a numeric field writes: an optional `+`, then one or more
/// digits, worth no more than `u32::MAX`. Anything else is no number.
pub open spec fn field_value(f: Seq<char>) -> Option<u32> {
    let d = field_digits(f);
    if d.len() > 0 && all_digits(d) && digits_value(d) <= u32::MAX {
        Some(digits_value(d) as u32)
    } else {
        None
    }
}

/// The place of the first `:` of `s` at or after `from`; the length of `s`
/// where there is none.
pub open spec fn colon_from(s: Seq<char>, from: int) -> int
    decreases s.len() - from,
{
    if from < 0 || from >= s.len() {
        s.len() as int
    } else if s[from] == ':' {
        from
    } else {
        colon_from(s, from + 1)
    }
}

/// Hours, minutes and seconds folded into seconds.
pub open spec fn folded(h: int, m: int, s: int) -> int {
    (h * 60 + m) * 60 + s
}

/// The seconds that the text `s` stands for. The text is cut at its first
/// two colons into three fields, the third running to the end; each must be
/// a number, and the three, folded, must fit a `u32`.
pub open spec fn position_seconds(s: Seq<char>) -> Option<u32> {
    let i = colon_from(s, 0);
    let j = colon_from(s, i + 1);
    if i >= s.len() || j >= s.len() {
        None
    } else {
        match (
            field_value(s.subrange(0, i)),
            field_value(s.subrange(i + 1, j)),
            field_value(s.subrange(j + 1, s.len() as int)),
        ) {
            (Some(a), Some(b), Some(c)) => if folded(a as int, b as int, c as int) <= u32::MAX {
                Some(folded(a as int, b as int, c as int) as u32)
            } else {
                None
            },
            _ => None,
        }
    }
}

/// The text form of a position: the hour field is always `00`, the minute
/// field holds all whole minutes, the second field the rest; both have at
/// least two digits.
pub open spec fn position_text(seconds: nat) -> Seq<char> {
    seq!['0', '0', ':'] + two_digits(seconds / 60) + seq![':'] + two_digits(seconds % 60)
}

fn find_colon(s: &str, from: usize, len: usize) -> (r: usize)
    requires
        len == s@.len(),
        from <= len,
    ensures
        r == colon_from(s@, from as int),
        from <= r <= len,
        r < len ==> s@[r as int] == ':',
{
    let mut i: usize = from;
    while i < len
        invariant
            len == s@.len(),
            from <= i <= len,
            colon_from(s@, from as int) == colon_from(s@, i as int),
        decreases len - i,
    {
        if s.get_char(i) == ':' {
            return i;
        }
        i += 1;
    }
    i
}

fn parse_field(s: &str, from: usize, to: usize) -> (r: Option<u32>)
    requires
        from <= to <= s@.len(),
    ensures
        r == field_value(s@.subrange(from as int, to as int)),
{
    let ghost f = s@.subrange(from as int, to as int);
    let mut start: usize = from;
    if from < to && s.get_char(from) == '+' {
        start = from + 1;
    }
    let ghost d = s@.subrange(start as int, to as int);
    assert(d =~= field_digits(f));
    if start == to {
        return None;
    }
    let mut acc: u32 = 0;
    let mut i: usize = start;
    assert(d.subrange(0, 0) =~= Seq::<char>::empty());
    while i < to
        invariant
            from <= start <= i <= to <= s@.len(),
            d == s@.subrange(start as int, to as int),
            d == field_digits(s@.subrange(from as int, to as int)),
            all_digits(d.subrange(0, i - start)),
            acc == digits_value(d.subrange(0, i - start)),
        decreases to - i,
    {
        let c = s.get_char(i);
        let ghost k = i - start;
        assert(d[k] == c);
        if !(c >= '0' && c <= '9') {
            assert(!is_digit(d[k]));
            return None;
        }
        let v: u32 = c as u32 - 48;
        proof {
            let p = d.subrange(0, k + 1);
            assert(p.drop_last() =~= d.subrange(0, k));
            assert(p.last() == c);
            assert(digits_value(p) == acc * 10 + v);
            lemma_digits_value_prefix(d, k + 1);
        }
        if acc > (u32::MAX - v) / 10 {
            return None;
        }
        acc = acc * 10 + v;
        i += 1;
    }
    assert(d.subrange(0, i - start) =~= d);
    Some(acc)
}

impl MusicPosition {
    /// Reads a position from its text form: three numeric fields separated by
    /// colons, folded into seconds. Text of any other shape, or worth more
    /// seconds than a `u32` holds, is turned down with `ILLEGAL_POSITION`.
    pub fn try_from(value: String) -> (r: Result<MusicPosition, &'static str>)
        ensures
            match position_seconds(value@) {
                Some(n) => r == Ok::<MusicPosition, &'static str>(MusicPosition { seconds: n }),
                None => r == Err::<MusicPosition, &'static str>(ILLEGAL_POSITION),
            },
    {
        let s = value.as_str();
        let len = s.unicode_len();
        let i = find_colon(s, 0, len);
        if i >= len {
            return Err(ILLEGAL_POSITION);
        }
        let j = find_colon(s, i + 1, len);
        if j >= len {
            return Err(ILLEGAL_POSITION);
        }
        let a = parse_field(s, 0, i);
        let b = parse_field(s, i + 1, j);
        let c = parse_field(s, j + 1, len);
        match (a, b, c) {
            (Some(a), Some(b), Some(c)) => {
                let a: u64 = a as u64;
                let b: u64 = b as u64;
                let c: u64 = c as u64;
                let total: u64 = (a * 60 + b) * 60 + c;
                if total > u32::MAX as u64 {
                    Err(ILLEGAL_POSITION)
                } else {
                    Ok(MusicPosition { seconds: total as u32 })
                }
            },
            _ => Err(ILLEGAL_POSITION),
        }
    }

    /// The text form of the position, `00:MM:SS`.
    pub fn to_string(&self) -> (r: String)
        ensures
            r@ == position_text(self.seconds as nat),
    {
        let mut out = String::from_str("00:");
        proof {
            reveal_strlit("00:");
            reveal_strlit(":");
        }
        assert(out@ =~= seq!['0', '0', ':']);
        push_two_digits(&mut out, self.seconds / 60);
        out.append(":");
        assert(":"@ =~= seq![':']);
        push_two_digits(&mut out, self.seconds % 60);
        assert(out@ =~= position_text(self.seconds as nat));
        out
    }
}

/// The first colon at or after `from` is at `at`, where nothing before `at`
/// is a colon and `at` is one, or the end.
pub proof fn lemma_colon_from(s: Seq<char>, from: int, at: int)
    requires
        0 <= from <= at <= s.len(),
        forall|k: int| from <= k < at ==> s[k] != ':',
        at < s.len() ==> s[at] == ':',
    ensures
        colon_from(s, from) == at,
    decreases at - from,
{
    if from < at {
        lemma_colon_from(s, from + 1, at);
    }
}

/// Where the first colon at or after `from` is: not before `from`, at a
/// colon or at the end, with no colon in between.
pub proof fn lemma_colon_from_is_first(s: Seq<char>, from: int)
    requires
        0 <= from <= s.len(),
    ensures
        from <= colon_from(s, from) <= s.len(),
        colon_from(s, from) < s.len() ==> s[colon_from(s, from)] == ':',
        forall|k: int| from <= k < colon_from(s, from) ==> s[k] != ':',
    decreases s.len() - from,
{
    if from < s.len() && s[from] != ':' {
        lemma_colon_from_is_first(s, from + 1);
    }
}

/// Text with fewer than three fields, that is with fewer than two colons,
/// is no position.
pub proof fn lemma_fewer_fields_illegal(s: Seq<char>)
    requires
        forall|i: int, j: int| 0 <= i < j < s.len() ==> !(s[i] == ':' && s[j] == ':'),
    ensures
        position_seconds(s) is None,
{
    let i = colon_from(s, 0);
    lemma_colon_from_is_first(s, 0);
    if i < s.len() {
        lemma_colon_from_is_first(s, i + 1);
    }
}

/// A numeric field holds no colon.
pub proof fn lemma_field_no_colon(f: Seq<char>)
    requires
        field_value(f) is Some,
    ensures
        forall|k: int| 0 <= k < f.len() ==> f[k] != ':',
{
    let d = field_digits(f);
    assert forall|k: int| 0 <= k < f.len() implies f[k] != ':' by {
        if f[0] == '+' {
            if k > 0 {
                assert(is_digit(d[k - 1]));
            }
        } else {
            assert(is_digit(d[k]));
        }
    }
}

/// Three numeric fields joined by colons are read as their numbers folded
/// into seconds, where that fits a `u32`, and are turned down where it does
/// not.
pub proof fn lemma_position_of_fields(f0: Seq<char>, f1: Seq<char>, f2: Seq<char>)
    requires
        field_value(f0) is Some,
        field_value(f1) is Some,
        field_value(f2) is Some,
    ensures
        position_seconds(f0 + seq![':'] + f1 + seq![':'] + f2) == if folded(
            field_value(f0)->0 as int,
            field_value(f1)->0 as int,
            field_value(f2)->0 as int,
        ) <= u32::MAX {
            Some(
                folded(
                    field_value(f0)->0 as int,
                    field_value(f1)->0 as int,
                    field_value(f2)->0 as int,
                ) as u32,
            )
        } else {
            None
        },
{
    let s = f0 + seq![':'] + f1 + seq![':'] + f2;
    let i = f0.len() as int;
    let j = i + 1 + f1.len();
    lemma_field_no_colon(f0);
    lemma_field_no_colon(f1);
    assert forall|k: int| 0 <= k < i implies s[k] != ':' by {
        assert(s[k] == f0[k]);
    }
    assert(s[i] == ':');
    lemma_colon_from(s, 0, i);
    assert forall|k: int| i + 1 <= k < j implies s[k] != ':' by {
        assert(s[k] == f1[k - i - 1]);
    }
    assert(s[j] == ':');
    lemma_colon_from(s, i + 1, j);
    assert(s.subrange(0, i) =~= f0);
    assert(s.subrange(i + 1, j) =~= f1);
    assert(s.subrange(j + 1, s.len() as int) =~= f2);
}

/// Decoding then encoding: the text `h:m:s`, each number written in base ten,
/// is read as `h * 3600 + m * 60 + s` seconds wherever that fits a `u32`, and
/// those seconds are written as `00:MM:SS` with all whole minutes in `MM` and
/// the rest in `SS`.
pub proof fn lemma_position_round_trip(h: nat, m: nat, s: nat)
    requires
        h * 3600 + m * 60 + s <= u32::MAX,
    ensures
        position_seconds(decimal(h) + seq![':'] + decimal(m) + seq![':'] + decimal(s)) == Some(
            (h * 3600 + m * 60 + s) as u32,
        ),
        position_text(h * 3600 + m * 60 + s) == seq!['0', '0', ':'] + two_digits(
            (h * 60 + m) + s / 60,
        ) + seq![':'] + two_digits(s % 60),
{
    lemma_decimal_round_trip(h);
    lemma_decimal_round_trip(m);
    lemma_decimal_round_trip(s);
    assert(field_digits(decimal(h)) == decimal(h));
    assert(field_digits(decimal(m)) == decimal(m));
    assert(field_digits(decimal(s)) == decimal(s));
    assert(folded(h as int, m as int, s as int) == h * 3600 + m * 60 + s) by (nonlinear_arith);
    lemma_position_of_fields(decimal(h), decimal(m), decimal(s));
    let t = h * 3600 + m * 60 + s;
    assert(t / 60 == (h * 60 + m) + s / 60 && t % 60 == s % 60) by (nonlinear_arith)
        requires
            t == h * 3600 + m * 60 + s,
    ;
}

/// Encoding then decoding: the text form of a position is read back as the
/// same seconds.
pub proof fn lemma_text_reads_back(seconds: u32)
    ensures
        position_seconds(position_text(seconds as nat)) == Some(seconds),
{
    let n = seconds as nat;
    let zz = seq!['0', '0'];
    let mm = two_digits(n / 60);
    let ss = two_digits(n % 60);
    lemma_two_digits_round_trip(0);
    lemma_two_digits_round_trip(n / 60);
    lemma_two_digits_round_trip(n % 60);
    assert(two_digits(0) =~= zz);
    assert(field_digits(zz) == zz);
    assert(field_digits(mm) == mm);
    assert(field_digits(ss) == ss);
    lemma_position_of_fields(zz, mm, ss);
    assert(position_text(n) =~= zz + seq![':'] + mm + seq![':'] + ss);
    assert(folded(0, (n / 60) as int, (n % 60) as int) == n) by (nonlinear_arith);
}

} // verus!
