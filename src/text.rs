//! Characters and numbers in feed text.
use vstd::prelude::*;

verus! {

/// Relies on `str::chars` collected by `Iterator::collect`: the characters of `s`, in order.
#[verifier::external_body]
pub(crate) fn chars_of(s: &str) -> (r: Vec<char>)
    ensures
        r@ == s@,
{
    s.chars().collect()
}

/// Relies on `String::push`: appends `c` to the end of `s`.
#[verifier::external_body]
pub(crate) fn push_char(s: &mut String, c: char)
    ensures
        final(s)@ == old(s)@.push(c),
{
    s.push(c)
}

/// Whether the text of `s` is exactly `lit`.
pub fn text_is(s: &String, lit: &str) -> (r: bool)
    ensures
        r == (s@ == lit@),
{
    let a = chars_of(s.as_str());
    let b = chars_of(lit);
    if a.len() != b.len() {
        return false;
    }
    let mut i: usize = 0;
    while i < a.len()
        invariant
            a@ == s@,
            b@ == lit@,
            a@.len() == b@.len(),
            i <= a@.len(),
            forall|k: int| 0 <= k < i ==> a@[k] == b@[k],
        decreases a@.len() - i,
    {
        if a[i] != b[i] {
            return false;
        }
        i = i + 1;
    }
    proof {
        assert(a@ =~= b@);
    }
    true
}

pub open spec fn is_digit(c: char) -> bool {
    '0' <= c <= '9'
}

pub open spec fn all_digits(ds: Seq<char>) -> bool {
    forall|i: int| 0 <= i < ds.len() ==> is_digit(#[trigger] ds[i])
}

pub open spec fn digit_value(c: char) -> int {
    c as int - '0' as int
}

/// The number that a run of decimal digits writes.
pub open spec fn digits_value(ds: Seq<char>) -> int
    decreases ds.len(),
{
    if ds.len() == 0 {
        0
    } else {
        digits_value(ds.drop_last()) * 10 + digit_value(ds.last())
    }
}

/// Whether the text starts with a minus sign.
pub open spec fn negative(s: Seq<char>) -> bool {
    s.len() > 0 && s[0] == '-'
}

/// The text after a leading sign, if there is one.
pub open spec fn unsigned_part(s: Seq<char>) -> Seq<char> {
    if s.len() > 0 && (s[0] == '-' || s[0] == '+') {
        s.drop_first()
    } else {
        s
    }
}

pub open spec fn signed(neg: bool, v: int) -> int {
    if neg {
        -v
    } else {
        v
    }
}

/// The integer that `s` writes: an optional sign and at least one decimal digit, with a
/// value that fits in `i64`.
pub open spec fn int_of(s: Seq<char>) -> Option<i64> {
    let u = unsigned_part(s);
    let v = signed(negative(s), digits_value(u));
    if u.len() > 0 && all_digits(u) && i64::MIN <= v <= i64::MAX {
        Some(v as i64)
    } else {
        None
    }
}

/// Index of the first `c` in `s`, or the length of `s` where there is none.
pub open spec fn first_index(s: Seq<char>, c: char) -> int
    decreases s.len(),
{
    if s.len() == 0 {
        0
    } else if s[0] == c {
        0
    } else {
        1 + first_index(s.drop_first(), c)
    }
}

/// Digit `i` of `f` as a number, zero where `f` is shorter.
pub open spec fn digit_or_zero(f: Seq<char>, i: int) -> int {
    if 0 <= i < f.len() {
        digit_value(f[i])
    } else {
        0
    }
}

/// The number that a decimal `s` writes, in hundredths, cut toward zero: an optional
/// sign, digits, optionally a point and more digits, at least one digit in all; the
/// result fits in `i64` up to its sign.
pub open spec fn cents_of(s: Seq<char>) -> Option<i64> {
    let u = unsigned_part(s);
    let dot = first_index(u, '.');
    let a = u.take(dot);
    let f = if dot < u.len() {
        u.skip(dot + 1)
    } else {
        Seq::empty()
    };
    let mag = digits_value(a) * 100 + digit_or_zero(f, 0) * 10 + digit_or_zero(f, 1);
    if all_digits(a) && all_digits(f) && a.len() + f.len() > 0 && mag <= i64::MAX {
        Some(signed(negative(s), mag) as i64)
    } else {
        None
    }
}

/// The whole part of the number that a decimal `s` writes (same form as for
/// `cents_of`), cut toward zero.
pub open spec fn whole_of(s: Seq<char>) -> Option<i64> {
    let u = unsigned_part(s);
    let dot = first_index(u, '.');
    let a = u.take(dot);
    let f = if dot < u.len() {
        u.skip(dot + 1)
    } else {
        Seq::empty()
    };
    if all_digits(a) && all_digits(f) && a.len() + f.len() > 0 && digits_value(a) <= i64::MAX {
        Some(signed(negative(s), digits_value(a)) as i64)
    } else {
        None
    }
}

proof fn lemma_digits_value_nonneg(ds: Seq<char>)
    requires
        all_digits(ds),
    ensures
        digits_value(ds) >= 0,
    decreases ds.len(),
{
    if ds.len() > 0 {
        assert(is_digit(ds[ds.len() - 1]));
        lemma_digits_value_nonneg(ds.drop_last());
    }
}

/// Value of the digits `cs[lo..hi]`, capped at `cap + 1`; `None` where one is no digit.
fn capped_digits(cs: &Vec<char>, lo: usize, hi: usize, cap: u64) -> (r: Option<u64>)
    requires
        lo <= hi <= cs@.len(),
        cap < 0xffff_ffff_ffff_ffff,
    ensures
        match r {
            Some(v) => all_digits(cs@.subrange(lo as int, hi as int)) && v as int == if digits_value(
                cs@.subrange(lo as int, hi as int),
            ) <= cap {
                digits_value(cs@.subrange(lo as int, hi as int))
            } else {
                cap + 1
            },
            None => !all_digits(cs@.subrange(lo as int, hi as int)),
        },
{
    let mut acc: u128 = 0;
    let mut i: usize = lo;
    while i < hi
        invariant
            lo <= i <= hi <= cs@.len(),
            all_digits(cs@.subrange(lo as int, i as int)),
            acc <= cap + 1,
            acc as int == if digits_value(cs@.subrange(lo as int, i as int)) <= cap {
                digits_value(cs@.subrange(lo as int, i as int))
            } else {
                cap + 1
            },
        decreases hi - i,
    {
        let c = cs[i];
        let ghost prev = cs@.subrange(lo as int, i as int);
        let ghost next = cs@.subrange(lo as int, i + 1);
        proof {
            assert(next.drop_last() =~= prev);
            assert(next.last() == c);
            lemma_digits_value_nonneg(prev);
        }
        if c < '0' || c > '9' {
            proof {
                assert(!is_digit(cs@.subrange(lo as int, hi as int)[i - lo]));
            }
            return None;
        }
        let d = (c as u32 - '0' as u32) as u128;
        let grown = acc * 10 + d;
        acc = if grown > cap as u128 {
            cap as u128 + 1
        } else {
            grown
        };
        i = i + 1;
        proof {
            assert forall|k: int| 0 <= k < next.len() implies is_digit(#[trigger] next[k]) by {
                if k < prev.len() {
                    assert(next[k] == prev[k]);
                }
            }
        }
    }
    Some(acc as u64)
}

/// The integer that `cs[lo..hi]` writes, as `int_of` says.
pub(crate) fn int_in(cs: &Vec<char>, lo: usize, hi: usize) -> (r: Option<i64>)
    requires
        lo <= hi <= cs@.len(),
    ensures
        r == int_of(cs@.subrange(lo as int, hi as int)),
{
    let ghost s = cs@.subrange(lo as int, hi as int);
    let start: usize = if lo < hi && (cs[lo] == '-' || cs[lo] == '+') {
        lo + 1
    } else {
        lo
    };
    let neg = lo < hi && cs[lo] == '-';
    proof {
        assert(cs@.subrange(start as int, hi as int) =~= unsigned_part(s));
    }
    if start == hi {
        return None;
    }
    let cap: u64 = if neg {
        0x8000_0000_0000_0000
    } else {
        0x7fff_ffff_ffff_ffff
    };
    match capped_digits(cs, start, hi, cap) {
        None => None,
        Some(v) => {
            if v > cap {
                None
            } else if neg {
                Some((0 - (v as i128)) as i64)
            } else {
                Some(v as i64)
            }
        },
    }
}

/// The integer that `s` writes, as `str::parse::<i64>` reads it.
pub fn parse_int(s: &String) -> (r: Option<i64>)
    ensures
        r == int_of(s@),
{
    let cs = chars_of(s.as_str());
    proof {
        assert(cs@.subrange(0, cs@.len() as int) =~= s@);
    }
    int_in(&cs, 0, cs.len())
}

/// Splits the unsigned part of `cs` at its first point: where the whole digits end, and
/// where the fraction digits start.
fn split_at_point(cs: &Vec<char>, start: usize) -> (r: usize)
    requires
        start <= cs@.len(),
    ensures
        start <= r <= cs@.len(),
        r - start == first_index(cs@.skip(start as int), '.'),
{
    let mut i: usize = start;
    while i < cs.len()
        invariant
            start <= i <= cs@.len(),
            first_index(cs@.skip(start as int), '.') == (i - start) + first_index(cs@.skip(i as int), '.'),
        decreases cs@.len() - i,
    {
        proof {
            assert(cs@.skip(i as int)[0] == cs@[i as int]);
            assert(cs@.skip(i as int).drop_first() =~= cs@.skip(i + 1));
        }
        if cs[i] == '.' {
            return i;
        }
        i = i + 1;
    }
    i
}

/// Reads a decimal `s` as `cents_of` (in hundredths, `scaled`) or `whole_of` says.
#[verifier::rlimit(40)]
fn parse_decimal(s: &String, scaled: bool) -> (r: Option<i64>)
    ensures
        scaled ==> r == cents_of(s@),
        !scaled ==> r == whole_of(s@),
{
    let cs = chars_of(s.as_str());
    let n = cs.len();
    let start: usize = if n > 0 && (cs[0] == '-' || cs[0] == '+') {
        1
    } else {
        0
    };
    let neg = n > 0 && cs[0] == '-';
    let ghost u = unsigned_part(s@);
    proof {
        assert(cs@.skip(start as int) =~= u);
    }
    let dot = split_at_point(&cs, start);
    let frac_start: usize = if dot < n {
        dot + 1
    } else {
        n
    };
    let ghost a = u.take(dot - start);
    let ghost f = if dot - start < u.len() {
        u.skip(dot - start + 1)
    } else {
        Seq::<char>::empty()
    };
    proof {
        assert(cs@.subrange(start as int, dot as int) =~= a);
        assert(cs@.subrange(frac_start as int, n as int) =~= f);
    }
    if dot == start && frac_start == n {
        return None;
    }
    let whole = capped_digits(&cs, start, dot, 0x7fff_ffff_ffff_ffff);
    let frac = capped_digits(&cs, frac_start, n, 0x7fff_ffff_ffff_ffff);
    if whole.is_none() || frac.is_none() {
        return None;
    }
    let w = whole.unwrap();
    proof {
        lemma_digits_value_nonneg(a);
    }
    let mag: u128 = if scaled {
        let d0: u128 = if frac_start < n {
            (cs[frac_start] as u32 - '0' as u32) as u128
        } else {
            0
        };
        let d1: u128 = if n - frac_start > 1 {
            (cs[frac_start + 1] as u32 - '0' as u32) as u128
        } else {
            0
        };
        proof {
            if frac_start < n {
                assert(f[0] == cs@[frac_start as int]);
                assert(is_digit(f[0]));
            }
            if n - frac_start > 1 {
                assert(f[1] == cs@[frac_start + 1]);
                assert(is_digit(f[1]));
            }
        }
        (w as u128) * 100 + d0 * 10 + d1
    } else {
        w as u128
    };
    if mag > 0x7fff_ffff_ffff_ffff {
        return None;
    }
    if neg {
        Some((0 - (mag as i128)) as i64)
    } else {
        Some(mag as i64)
    }
}

/// The price that a decimal `s` writes, in cents, cut toward zero.
pub fn parse_cents(s: &String) -> (r: Option<i64>)
    ensures
        r == cents_of(s@),
{
    parse_decimal(s, true)
}

/// The whole part of the number that a decimal `s` writes, cut toward zero.
pub fn parse_whole(s: &String) -> (r: Option<i64>)
    ensures
        r == whole_of(s@),
{
    parse_decimal(s, false)
}

} // verus!
