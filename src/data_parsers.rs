//! Readers for the JSON trade messages of the market-data feeds. They do not build a
//! JSON tree: a scanner counts nesting (quotes count as one level while open), takes the
//! text before a `:` at the field level as the key and the text up to the next `,` as
//! the value, and closes a record at a `,` one level further out.
use vstd::prelude::*;

use crate::finnhub_data_row::{FinnhubDataRow, RowView};
use crate::text::{chars_of, push_char, text_is};

verus! {

/// The feed a message comes from, which fixes the field names and nesting.
#[derive(Clone, Copy, Debug, PartialEq, Eq, Structural)]
pub enum Feed {
    /// A flat list of records, fields one level in.
    Eodhd,
    /// A list of records, fields two levels in.
    Alpaca,
    /// The `data` list of a Finnhub message, read from just after its key.
    FinnhubData,
    /// One flat record.
    Twelve,
}

/// Nesting level at which `key: value` pairs stand.
pub open spec fn field_level(feed: Feed) -> int {
    match feed {
        Feed::Eodhd | Feed::Twelve => 1,
        Feed::Alpaca | Feed::FinnhubData => 2,
    }
}

/// A field of the feed's records.
pub open spec fn apply_field(feed: Feed, row: RowView, key: Seq<char>, val: Seq<char>) -> RowView {
    match feed {
        Feed::Eodhd | Feed::FinnhubData => row.finnhub_field(key, val),
        Feed::Alpaca => row.alpaca_field(key, val),
        Feed::Twelve => row.twelve_field(key, val),
    }
}

/// A record with every field at its sentinel.
pub open spec fn empty_row() -> RowView {
    RowView { c: -1i64, p: -1i64, s: Seq::empty(), e: Seq::empty(), t: 0i64, v: -1i64 }
}

/// What the scanner holds between two characters.
pub struct ScanState {
    pub level: int,
    pub in_string: bool,
    pub tmp: Seq<char>,
    pub key: Seq<char>,
    pub cur: RowView,
    pub rows: Seq<RowView>,
    pub done: bool,
}

pub open spec fn scan_start() -> ScanState {
    ScanState {
        level: 0,
        in_string: false,
        tmp: Seq::empty(),
        key: Seq::empty(),
        cur: empty_row(),
        rows: Seq::empty(),
        done: false,
    }
}

/// The scanner after one more character.
pub open spec fn scan_step(feed: Feed, st: ScanState, c: char) -> ScanState {
    if st.done || c == '\n' || c == '\r' || c == ' ' {
        st
    } else if c == '"' {
        ScanState {
            level: if st.in_string {
                st.level - 1
            } else {
                st.level + 1
            },
            in_string: !st.in_string,
            ..st
        }
    } else if c == '{' || c == '[' {
        ScanState { level: st.level + 1, ..st }
    } else if c == '}' || c == ']' {
        ScanState { level: st.level - 1, ..st }
    } else if c == ':' && st.level == field_level(feed) {
        ScanState { key: st.tmp, tmp: Seq::empty(), ..st }
    } else if c == ',' && st.level <= field_level(feed) {
        let cur = apply_field(feed, st.cur, st.key, st.tmp);
        if feed == Feed::FinnhubData && st.level == 0 {
            ScanState { cur, tmp: Seq::empty(), done: true, ..st }
        } else if feed != Feed::Twelve && st.level == field_level(feed) - 1 {
            ScanState { cur: empty_row(), rows: st.rows.push(cur), tmp: Seq::empty(), ..st }
        } else {
            ScanState { cur, tmp: Seq::empty(), ..st }
        }
    } else {
        ScanState { tmp: st.tmp.push(c), ..st }
    }
}

/// The scanner after the characters `cs`.
pub open spec fn scan(feed: Feed, cs: Seq<char>) -> ScanState
    decreases cs.len(),
{
    if cs.len() == 0 {
        scan_start()
    } else {
        scan_step(feed, scan(feed, cs.drop_last()), cs.last())
    }
}

/// The records of a message: at its end the pending field is taken (but for Finnhub's
/// `data` list) and the pending record closed.
pub open spec fn parsed_rows(feed: Feed, cs: Seq<char>) -> Seq<RowView> {
    let st = scan(feed, cs);
    if feed == Feed::FinnhubData {
        st.rows.push(st.cur)
    } else {
        st.rows.push(apply_field(feed, st.cur, st.key, st.tmp))
    }
}

pub open spec fn row_views(rows: Seq<FinnhubDataRow>) -> Seq<RowView> {
    rows.map_values(|r: FinnhubDataRow| r@)
}

struct Scanner {
    level: i128,
    in_string: bool,
    tmp: String,
    key: String,
    cur: FinnhubDataRow,
    rows: Vec<FinnhubDataRow>,
    done: bool,
}

impl Scanner {
    spec fn state(&self) -> ScanState {
        ScanState {
            level: self.level as int,
            in_string: self.in_string,
            tmp: self.tmp@,
            key: self.key@,
            cur: self.cur@,
            rows: row_views(self.rows@),
            done: self.done,
        }
    }

    fn new() -> (r: Scanner)
        ensures
            r.state() == scan_start(),
    {
        let r = Scanner {
            level: 0,
            in_string: false,
            tmp: String::new(),
            key: String::new(),
            cur: FinnhubDataRow::new(),
            rows: Vec::new(),
            done: false,
        };
        proof {
            assert(row_views(r.rows@) =~= Seq::<RowView>::empty());
        }
        r
    }

    fn set_field(feed: Feed, row: &mut FinnhubDataRow, key: &String, val: &String)
        ensures
            final(row)@ == apply_field(feed, old(row)@, key@, val@),
    {
        match feed {
            Feed::Eodhd | Feed::FinnhubData => row.set_data(key, val),
            Feed::Alpaca => row.set_alpaca_data(key, val),
            Feed::Twelve => row.set_twelve_data(key, val),
        }
    }

    fn step(&mut self, feed: Feed, c: char)
        requires
            -0x1_0000_0000_0000_0000 < old(self).level < 0x1_0000_0000_0000_0000,
        ensures
            final(self).state() == scan_step(feed, old(self).state(), c),
            final(self).level - old(self).level <= 1,
            old(self).level - final(self).level <= 1,
    {
        let level: i128 = if feed == Feed::Eodhd || feed == Feed::Twelve {
            1
        } else {
            2
        };
        if self.done || c == '\n' || c == '\r' || c == ' ' {
        } else if c == '"' {
            self.level = if self.in_string {
                self.level - 1
            } else {
                self.level + 1
            };
            self.in_string = !self.in_string;
        } else if c == '{' || c == '[' {
            self.level = self.level + 1;
        } else if c == '}' || c == ']' {
            self.level = self.level - 1;
        } else if c == ':' && self.level == level {
            let mut taken = String::new();
            std::mem::swap(&mut self.tmp, &mut taken);
            self.key = taken;
        } else if c == ',' && self.level <= level {
            Self::set_field(feed, &mut self.cur, &self.key, &self.tmp);
            self.tmp = String::new();
            if feed == Feed::FinnhubData && self.level == 0 {
                self.done = true;
            } else if feed != Feed::Twelve && self.level == level - 1 {
                let mut row = FinnhubDataRow::new();
                std::mem::swap(&mut self.cur, &mut row);
                let ghost before = self.rows@;
                self.rows.push(row);
                proof {
                    assert(row_views(self.rows@) =~= row_views(before).push(row@));
                }
            }
        } else {
            push_char(&mut self.tmp, c);
        }
    }
}

/// Runs the scanner of `feed` over `cs[from..]` and closes the message.
fn scan_rows(feed: Feed, cs: &Vec<char>, from: usize) -> (r: Vec<FinnhubDataRow>)
    requires
        from <= cs@.len(),
    ensures
        row_views(r@) == parsed_rows(feed, cs@.skip(from as int)),
{
    let mut sc = Scanner::new();
    let mut i: usize = from;
    let ghost text = cs@.skip(from as int);
    while i < cs.len()
        invariant
            from <= i <= cs@.len(),
            text == cs@.skip(from as int),
            sc.state() == scan(feed, text.take(i - from)),
            -(i - from) <= sc.level <= i - from,
        decreases cs@.len() - i,
    {
        proof {
            assert(text.take(i + 1 - from).drop_last() =~= text.take(i - from));
            assert(text.take(i + 1 - from).last() == cs@[i as int]);
        }
        sc.step(feed, cs[i]);
        i = i + 1;
    }
    proof {
        assert(text.take(i - from) =~= text);
    }
    if feed != Feed::FinnhubData {
        Scanner::set_field(feed, &mut sc.cur, &sc.key, &sc.tmp);
    }
    let ghost before = sc.rows@;
    sc.rows.push(sc.cur);
    proof {
        assert(row_views(sc.rows@) =~= row_views(before).push(sc.cur@));
    }
    sc.rows
}

/// The records of an EODHD trade message.
pub fn parse_eodhd_data(json_data: &String) -> (r: Vec<FinnhubDataRow>)
    ensures
        row_views(r@) == parsed_rows(Feed::Eodhd, json_data@),
{
    let cs = chars_of(json_data.as_str());
    proof {
        assert(cs@.skip(0) =~= json_data@);
    }
    scan_rows(Feed::Eodhd, &cs, 0)
}

/// The records of an Alpaca trade message.
pub fn parse_alpaca_data(json_data: &String) -> (r: Vec<FinnhubDataRow>)
    ensures
        row_views(r@) == parsed_rows(Feed::Alpaca, json_data@),
{
    let cs = chars_of(json_data.as_str());
    proof {
        assert(cs@.skip(0) =~= json_data@);
    }
    scan_rows(Feed::Alpaca, &cs, 0)
}

/// The one record of a Twelve Data price message.
pub fn parse_twelve_data(json_data: &String) -> (r: FinnhubDataRow)
    ensures
        r@ == parsed_rows(Feed::Twelve, json_data@).last(),
{
    let cs = chars_of(json_data.as_str());
    proof {
        assert(cs@.skip(0) =~= json_data@);
    }
    let mut rows = scan_rows(Feed::Twelve, &cs, 0);
    let ghost all = rows@;
    proof {
        assert(row_views(all).len() == all.len());
    }
    let r = rows.pop().unwrap();
    proof {
        assert(row_views(all).last() == all.last()@);
    }
    r
}

/// What the search for the `data` key of a Finnhub message holds between characters.
pub struct KeySearch {
    pub level: int,
    pub left: bool,
    pub in_string: bool,
    pub tmp: Seq<char>,
    pub found: Option<int>,
}

/// The search after the character `c` at index `i`: strings on the left of a top-level
/// pair are keys; once the key `data` closes, its list starts two characters on.
pub open spec fn key_step(st: KeySearch, c: char, i: int) -> KeySearch {
    if st.found is Some || c == '\n' || c == '\r' || c == ' ' {
        st
    } else if c == '{' || c == '[' {
        KeySearch { level: st.level + 1, ..st }
    } else if c == '}' || c == ']' {
        KeySearch { level: st.level - 1, ..st }
    } else if st.level == 1 && c == ',' {
        KeySearch { left: true, ..st }
    } else if !st.left {
        st
    } else if c == '"' {
        if !st.in_string {
            KeySearch { in_string: true, ..st }
        } else if st.tmp == "data"@ {
            KeySearch { found: Some(i + 2), ..st }
        } else {
            KeySearch { in_string: false, left: false, tmp: Seq::empty(), ..st }
        }
    } else if st.in_string {
        KeySearch { tmp: st.tmp.push(c), ..st }
    } else {
        st
    }
}

/// The search after the first `n` characters of `cs`.
pub open spec fn key_search(cs: Seq<char>, n: int) -> KeySearch
    decreases n,
{
    if n <= 0 {
        KeySearch { level: 0, left: true, in_string: false, tmp: Seq::empty(), found: None }
    } else {
        key_step(key_search(cs, n - 1), cs[n - 1], n - 1)
    }
}

proof fn lemma_found_stays(cs: Seq<char>, n: int, m: int)
    requires
        0 <= n <= m,
        key_search(cs, n).found is Some,
    ensures
        key_search(cs, m) == key_search(cs, n),
    decreases m - n,
{
    if m > n {
        lemma_found_stays(cs, n, m - 1);
    }
}

/// The trade records of a Finnhub message: those of the list under its top-level
/// `data` key, none where it has no such key.
pub fn parse_finnhub_data(json_data: &String) -> (r: Vec<FinnhubDataRow>)
    ensures
        match key_search(json_data@, json_data@.len() as int).found {
            Some(pos) => row_views(r@) == parsed_rows(
                Feed::FinnhubData,
                json_data@.skip(if pos <= json_data@.len() {
                    pos
                } else {
                    json_data@.len() as int
                }),
            ),
            None => r@.len() == 0,
        },
{
    let cs = chars_of(json_data.as_str());
    let n = cs.len();
    let mut level: i128 = 0;
    let mut left = true;
    let mut in_string = false;
    let mut tmp = String::new();
    let mut i: usize = 0;
    proof {
        reveal_strlit("data");
    }
    while i < n
        invariant
            cs@ == json_data@,
            n == cs@.len(),
            i <= n,
            -(i as int) <= level <= i,
            key_search(cs@, i as int) == (KeySearch {
                level: level as int,
                left,
                in_string,
                tmp: tmp@,
                found: None,
            }),
        decreases n - i,
    {
        let c = cs[i];
        if c == '\n' || c == '\r' || c == ' ' {
        } else if c == '{' || c == '[' {
            level = level + 1;
        } else if c == '}' || c == ']' {
            level = level - 1;
        } else if level == 1 && c == ',' {
            left = true;
        } else if !left {
        } else if c == '"' {
            if !in_string {
                in_string = true;
            } else if text_is(&tmp, "data") {
                let start: usize = if n - i >= 2 {
                    i + 2
                } else {
                    n
                };
                proof {
                    lemma_found_stays(cs@, i + 1, n as int);
                }
                return scan_rows(Feed::FinnhubData, &cs, start);
            } else {
                in_string = false;
                left = false;
                tmp = String::new();
            }
        } else if in_string {
            push_char(&mut tmp, c);
        }
        i = i + 1;
    }
    Vec::new()
}

} // verus!
