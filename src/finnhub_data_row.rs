//! The normalized trade record that every feed parser produces.
use vstd::prelude::*;

use crate::text::{cents_of, first_index, int_of, int_in, text_is, whole_of, chars_of};

verus! {

/// One trade. A field that a feed did not deliver, or that did not parse, keeps
/// its sentinel: `-1` for conditions, price and volume, `0` for the time.
#[derive(Debug)]
pub struct FinnhubDataRow {
    /// Trade conditions, one bit per condition code in `0 ..= 63`.
    pub c: i64,
    /// Price in cents.
    pub p: i64,
    /// Symbol.
    pub s: String,
    /// Exchange.
    pub e: String,
    /// Trade time in milliseconds since the epoch.
    pub t: i64,
    /// Volume.
    pub v: i64,
}

/// The fields of a trade record as values.
pub struct RowView {
    pub c: i64,
    pub p: i64,
    pub s: Seq<char>,
    pub e: Seq<char>,
    pub t: i64,
    pub v: i64,
}

impl View for FinnhubDataRow {
    type V = RowView;

    open spec fn view(&self) -> RowView {
        RowView { c: self.c, p: self.p, s: self.s@, e: self.e@, t: self.t, v: self.v }
    }
}

/// The instant that an RFC 3339 text names, in ms since the epoch; `None` where the
/// text is no RFC 3339 date and time.
pub uninterp spec fn rfc3339_millis(s: Seq<char>) -> Option<i64>;

/// Relies on chrono's `DateTime::parse_from_rfc3339` and `DateTime::timestamp_millis`:
/// the instant the text names, in ms since the epoch, or `None` where chrono refuses it.
#[verifier::external_body]
fn rfc3339_to_millis(s: &str) -> (r: Option<i64>)
    ensures
        r == rfc3339_millis(s@),
{
    chrono::DateTime::parse_from_rfc3339(s).ok().map(|d| d.timestamp_millis())
}

/// The bit of one condition code: codes that are no integer in `0 ..= 63` have none.
pub open spec fn code_bit(piece: Seq<char>) -> u64 {
    match int_of(piece) {
        Some(n) => if 0 <= n <= 63 {
            1u64 << (n as u64)
        } else {
            0
        },
        None => 0,
    }
}

/// The bits of the comma-separated condition codes of `s`, up to its first empty entry.
pub open spec fn condition_bits(s: Seq<char>) -> u64
    decreases s.len(),
{
    let k = first_index(s, ',');
    if k <= 0 || k > s.len() {
        0
    } else if k == s.len() {
        code_bit(s)
    } else {
        code_bit(s.take(k)) | condition_bits(s.skip(k + 1))
    }
}

/// Optional value of a field, or the value it had.
pub open spec fn or_keep(r: Option<i64>, keep: i64) -> i64 {
    match r {
        Some(v) => v,
        None => keep,
    }
}

impl RowView {
    /// Price read as a decimal in cents.
    pub open spec fn with_price(self, val: Seq<char>) -> RowView {
        RowView { p: or_keep(cents_of(val), self.p), ..self }
    }

    /// Volume read as a decimal, whole part.
    pub open spec fn with_volume(self, val: Seq<char>) -> RowView {
        RowView { v: or_keep(whole_of(val), self.v), ..self }
    }

    /// Time read as an integer.
    pub open spec fn with_time(self, val: Seq<char>) -> RowView {
        RowView { t: or_keep(int_of(val), self.t), ..self }
    }

    /// Time read as an RFC 3339 date and time.
    pub open spec fn with_date_time(self, val: Seq<char>) -> RowView {
        RowView { t: or_keep(rfc3339_millis(val), self.t), ..self }
    }

    pub open spec fn with_conditions(self, val: Seq<char>) -> RowView {
        RowView { c: condition_bits(val) as i64, ..self }
    }

    pub open spec fn with_name(self, val: Seq<char>) -> RowView {
        RowView { s: val, ..self }
    }

    pub open spec fn with_exchange(self, val: Seq<char>) -> RowView {
        RowView { e: val, ..self }
    }

    /// A field of a Finnhub or EODHD message: `p` price, `c` conditions, `s` symbol,
    /// `t` time, `v` volume; other keys change nothing.
    pub open spec fn finnhub_field(self, key: Seq<char>, val: Seq<char>) -> RowView {
        if key == "p"@ {
            self.with_price(val)
        } else if key == "c"@ {
            self.with_conditions(val)
        } else if key == "s"@ {
            self.with_name(val)
        } else if key == "t"@ {
            self.with_time(val)
        } else if key == "v"@ {
            self.with_volume(val)
        } else {
            self
        }
    }

    /// A field of an Alpaca message: `p` price, `S` symbol, `t` RFC 3339 time, `s` size.
    pub open spec fn alpaca_field(self, key: Seq<char>, val: Seq<char>) -> RowView {
        if key == "p"@ {
            self.with_price(val)
        } else if key == "S"@ {
            self.with_name(val)
        } else if key == "t"@ {
            self.with_date_time(val)
        } else if key == "s"@ {
            self.with_volume(val)
        } else {
            self
        }
    }

    /// A field of a Twelve Data message.
    pub open spec fn twelve_field(self, key: Seq<char>, val: Seq<char>) -> RowView {
        if key == "price"@ {
            self.with_price(val)
        } else if key == "symbol"@ {
            self.with_name(val)
        } else if key == "timestamp"@ {
            self.with_time(val)
        } else if key == "day_volume"@ {
            self.with_volume(val)
        } else if key == "exchange"@ {
            self.with_exchange(val)
        } else {
            self
        }
    }
}

/// The bits of the condition codes in `cs[pos..]`, as `condition_bits` says.
fn conditions_from(cs: &Vec<char>, pos: usize) -> (r: u64)
    requires
        pos <= cs@.len(),
    ensures
        r == condition_bits(cs@.skip(pos as int)),
    decreases cs@.len() - pos,
{
    let mut k: usize = pos;
    while k < cs.len() && cs[k] != ','
        invariant
            pos <= k <= cs@.len(),
            forall|i: int| pos <= i < k ==> cs@[i] != ',',
        decreases cs@.len() - k,
    {
        k = k + 1;
    }
    let ghost rest = cs@.skip(pos as int);
    proof {
        lemma_first_index_at(rest, ',', (k - pos) as int);
    }
    if k == pos {
        return 0;
    }
    let bit: u64 = match int_in(cs, pos, k) {
        Some(n) => if 0 <= n && n <= 63 {
            1u64 << (n as u64)
        } else {
            0
        },
        None => 0,
    };
    proof {
        assert(cs@.subrange(pos as int, k as int) =~= rest.take((k - pos) as int));
    }
    if k == cs.len() {
        proof {
            assert(rest.take((k - pos) as int) =~= rest);
        }
        bit
    } else {
        proof {
            assert(rest.skip((k - pos) + 1) =~= cs@.skip(k + 1));
        }
        bit | conditions_from(cs, k + 1)
    }
}

/// `k` is the first index of `c` in `s` when no earlier character is `c` and `s[k]` is
/// `c` or `k` is the end of `s`.
pub(crate) proof fn lemma_first_index_at(s: Seq<char>, c: char, k: int)
    requires
        0 <= k <= s.len(),
        forall|i: int| 0 <= i < k ==> s[i] != c,
        k < s.len() ==> s[k] == c,
    ensures
        first_index(s, c) == k,
    decreases s.len(),
{
    if s.len() > 0 && k > 0 {
        assert forall|i: int| 0 <= i < k - 1 implies s.drop_first()[i] != c by {
            assert(s.drop_first()[i] == s[i + 1]);
        }
        lemma_first_index_at(s.drop_first(), c, k - 1);
    }
}

impl FinnhubDataRow {
    pub fn new() -> (r: Self)
        ensures
            r.c == -1,
            r.p == -1,
            r.s@ == Seq::<char>::empty(),
            r.e@ == Seq::<char>::empty(),
            r.t == 0,
            r.v == -1,
    {
        FinnhubDataRow { c: -1, p: -1, s: String::new(), e: String::new(), t: 0, v: -1 }
    }

    /// Takes one field of a Finnhub or EODHD message.
    pub fn set_data(&mut self, key: &String, val: &String)
        ensures
            final(self)@ == old(self)@.finnhub_field(key@, val@),
    {
        proof {
            reveal_strlit("p");
            reveal_strlit("c");
            reveal_strlit("s");
            reveal_strlit("t");
            reveal_strlit("v");
        }
        if text_is(key, "p") {
            self.set_price(val);
        } else if text_is(key, "c") {
            self.set_conditions(val);
        } else if text_is(key, "s") {
            self.set_stockname(val);
        } else if text_is(key, "t") {
            self.set_time(val);
        } else if text_is(key, "v") {
            self.set_volume(val);
        }
    }

    /// Takes one field of an Alpaca trade message.
    pub fn set_alpaca_data(&mut self, key: &String, val: &String)
        ensures
            final(self)@ == old(self)@.alpaca_field(key@, val@),
    {
        proof {
            reveal_strlit("p");
            reveal_strlit("S");
            reveal_strlit("t");
            reveal_strlit("s");
        }
        if text_is(key, "p") {
            self.set_price(val);
        } else if text_is(key, "S") {
            self.set_stockname(val);
        } else if text_is(key, "t") {
            self.set_alpaca_time(val);
        } else if text_is(key, "s") {
            self.set_volume(val);
        }
    }

    /// Takes one field of a Twelve Data price message.
    pub fn set_twelve_data(&mut self, key: &String, val: &String)
        ensures
            final(self)@ == old(self)@.twelve_field(key@, val@),
    {
        proof {
            reveal_strlit("price");
            reveal_strlit("symbol");
            reveal_strlit("timestamp");
            reveal_strlit("day_volume");
            reveal_strlit("exchange");
        }
        if text_is(key, "price") {
            self.set_price(val);
        } else if text_is(key, "symbol") {
            self.set_stockname(val);
        } else if text_is(key, "timestamp") {
            self.set_time(val);
        } else if text_is(key, "day_volume") {
            self.set_volume(val);
        } else if text_is(key, "exchange") {
            self.set_exchange(val);
        }
    }

    fn set_price(&mut self, raw_value: &String)
        ensures
            final(self)@ == old(self)@.with_price(raw_value@),
    {
        if let Some(v) = crate::text::parse_cents(raw_value) {
            self.p = v;
        }
    }

    fn set_conditions(&mut self, raw_value: &String)
        ensures
            final(self)@ == old(self)@.with_conditions(raw_value@),
    {
        let cs = chars_of(raw_value.as_str());
        let bits = conditions_from(&cs, 0);
        proof {
            assert(cs@.skip(0) =~= raw_value@);
        }
        self.c = bits as i64;
    }

    fn set_stockname(&mut self, raw_value: &String)
        ensures
            final(self)@ == old(self)@.with_name(raw_value@),
    {
        self.s = raw_value.clone();
    }

    fn set_time(&mut self, raw_value: &String)
        ensures
            final(self)@ == old(self)@.with_time(raw_value@),
    {
        if let Some(v) = crate::text::parse_int(raw_value) {
            self.t = v;
        }
    }

    fn set_alpaca_time(&mut self, raw_value: &String)
        ensures
            final(self)@ == old(self)@.with_date_time(raw_value@),
    {
        if let Some(v) = rfc3339_to_millis(raw_value.as_str()) {
            self.t = v;
        }
    }

    fn set_exchange(&mut self, raw_value: &String)
        ensures
            final(self)@ == old(self)@.with_exchange(raw_value@),
    {
        self.e = raw_value.clone();
    }

    fn set_volume(&mut self, raw_value: &String)
        ensures
            final(self)@ == old(self)@.with_volume(raw_value@),
    {
        if let Some(v) = crate::text::parse_whole(raw_value) {
            self.v = v;
        }
    }

    pub fn get_stockname(&self) -> (r: &String)
        ensures
            r@ == self.s@,
    {
        &self.s
    }

    pub fn get_price(&self) -> (r: &i64)
        ensures
            *r == self.p,
    {
        &self.p
    }

    pub fn get_time(&self) -> (r: &i64)
        ensures
            *r == self.t,
    {
        &self.t
    }

    pub fn get_conditions(&self) -> (r: &i64)
        ensures
            *r == self.c,
    {
        &self.c
    }

    pub fn get_volume(&self) -> (r: &i64)
        ensures
            *r == self.v,
    {
        &self.v
    }
}

} // verus!
