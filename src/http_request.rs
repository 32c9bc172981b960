//! Header lines of an HTTP request.
use vstd::prelude::*;

use crate::text::{chars_of, first_index, push_char};

verus! {

/// A header line split at its first `:` into name and value; a line without one is the
/// request line, filed under `HEAD_REQUEST:`.
pub open spec fn header_pair(s: Seq<char>) -> (Seq<char>, Seq<char>) {
    let k = first_index(s, ':');
    if k == s.len() {
        ("HEAD_REQUEST:"@, s)
    } else {
        (s.take(k), s.skip(k + 1))
    }
}

/// The characters `cs[lo..hi]` as a string.
fn text_between(cs: &Vec<char>, lo: usize, hi: usize) -> (r: String)
    requires
        lo <= hi <= cs@.len(),
    ensures
        r@ == cs@.subrange(lo as int, hi as int),
{
    let mut r = String::new();
    let mut i: usize = lo;
    while i < hi
        invariant
            lo <= i <= hi <= cs@.len(),
            r@ == cs@.subrange(lo as int, i as int),
        decreases hi - i,
    {
        push_char(&mut r, cs[i]);
        i = i + 1;
        proof {
            assert(cs@.subrange(lo as int, i as int) =~= cs@.subrange(lo as int, i - 1).push(cs@[i - 1]));
        }
    }
    r
}

/// Splits a header line at its first `:`.
pub fn split_string_into_pairs(s: &String) -> (r: (String, String))
    ensures
        (r.0@, r.1@) == header_pair(s@),
{
    let cs = chars_of(s.as_str());
    let n = cs.len();
    let mut k: usize = 0;
    while k < n && cs[k] != ':'
        invariant
            k <= n == cs@.len(),
            forall|i: int| 0 <= i < k ==> cs@[i] != ':',
        decreases n - k,
    {
        k = k + 1;
    }
    proof {
        crate::finnhub_data_row::lemma_first_index_at(cs@, ':', k as int);
    }
    if k == n {
        return ("HEAD_REQUEST:".to_owned(), s.clone());
    }
    proof {
        assert(cs@.subrange(0, k as int) =~= cs@.take(k as int));
        assert(cs@.subrange(k + 1, n as int) =~= cs@.skip(k + 1));
    }
    (text_between(&cs, 0, k), text_between(&cs, k + 1, n))
}

} // verus!
