//! Per-symbol windows, one per configured horizon, and the set of symbols that
//! changed since the last publication.
use vstd::prelude::*;

use crate::finnhub_data_row::FinnhubDataRow;
use crate::stock_interval::{after_trade, point_of, StockDataPoint, StockInformation, WindowSummary};

verus! {

/// Why a trade was not taken in.
#[derive(Clone, Copy, Debug, PartialEq, Eq, Structural)]
pub enum IngestError {
    /// The price or the volume still holds the parser's sentinel (it is negative).
    Incomplete,
    /// A running sum of one of the symbol's windows would leave `i64`.
    Overflow,
}

/// The statistics of one symbol, one summary per horizon in the table's order.
pub struct SymbolReport {
    pub stock_name: String,
    pub summaries: Vec<WindowSummary>,
}

/// The character sequences of some strings.
pub open spec fn names(v: Seq<String>) -> Seq<Seq<char>> {
    v.map_values(|s: String| s@)
}

/// A dirty list after marking `s`: it is appended unless it is already there.
pub open spec fn mark(d: Seq<Seq<char>>, s: Seq<char>) -> Seq<Seq<char>> {
    if d.contains(s) {
        d
    } else {
        d.push(s)
    }
}

/// A dirty list after marking each of `ss` in turn.
pub open spec fn marked(d: Seq<Seq<char>>, ss: Seq<Seq<char>>) -> Seq<Seq<char>>
    decreases ss.len(),
{
    if ss.len() == 0 {
        d
    } else {
        mark(marked(d, ss.drop_last()), ss.last())
    }
}

/// Symbols, their windows, and the symbols changed since the last publication.
pub struct SymbolTable {
    horizons: Vec<i64>,
    symbols: Vec<String>,
    windows: Vec<Vec<StockInformation>>,
    dirty: Vec<String>,
}

impl SymbolTable {
    /// The retention of each horizon, in ms.
    pub closed spec fn horizons_spec(&self) -> Seq<i64> {
        self.horizons@
    }

    /// The known symbols, in the order they were first seen.
    pub closed spec fn symbols(&self) -> Seq<Seq<char>> {
        names(self.symbols@)
    }

    /// The windows of the `i`-th symbol, one per horizon.
    pub closed spec fn windows_of(&self, i: int) -> Seq<StockInformation> {
        self.windows@[i]@
    }

    /// Symbols changed since the last publication, in the order they were marked.
    pub closed spec fn dirty_list(&self) -> Seq<Seq<char>> {
        names(self.dirty@)
    }

    /// Each symbol is known once and has one well-formed window per horizon with that
    /// horizon's retention; each dirty symbol is known, and listed once.
    pub closed spec fn wf(&self) -> bool {
        &&& self.symbols@.len() == self.windows@.len()
        &&& names(self.symbols@).no_duplicates()
        &&& names(self.dirty@).no_duplicates()
        &&& forall|d: int|
            0 <= d < self.dirty@.len() ==> names(self.symbols@).contains(#[trigger] self.dirty@[d]@)
        &&& forall|i: int|
            0 <= i < self.windows@.len() ==> (#[trigger] self.windows@[i])@.len()
                == self.horizons@.len()
        &&& forall|i: int, j: int|
            0 <= i < self.windows@.len() && 0 <= j < self.horizons@.len() ==> {
                &&& (#[trigger] self.windows@[i]@[j]).wf()
                &&& self.windows@[i]@[j].limit() == self.horizons@[j]
            }
    }

    /// Every window of the symbol of `trade`, if it is known, can take the trade, and so
    /// can a fresh window.
    pub open spec fn takes(&self, trade: &FinnhubDataRow) -> bool {
        &&& trade.p * trade.v <= i64::MAX
        &&& forall|i: int, j: int|
            0 <= i < self.symbols().len() && self.symbols()[i] == trade.s@ && 0 <= j
                < self.horizons_spec().len() ==> #[trigger] self.windows_of(i)[j].accepts(trade)
    }

    /// `next` is this table after taking in `trade`: the symbol is created with one
    /// fresh window per horizon if it was unknown, each of its windows takes the trade,
    /// the other symbols are untouched, and the symbol is marked dirty.
    pub open spec fn ingested(&self, next: SymbolTable, trade: &FinnhubDataRow) -> bool {
        let known = self.symbols().contains(trade.s@);
        &&& next.wf()
        &&& next.horizons_spec() == self.horizons_spec()
        &&& next.symbols() == if known {
            self.symbols()
        } else {
            self.symbols().push(trade.s@)
        }
        &&& forall|i: int|
            0 <= i < self.symbols().len() && self.symbols()[i] != trade.s@ ==> #[trigger] next.windows_of(i)
                == self.windows_of(i)
        &&& forall|i: int, j: int|
            0 <= i < next.symbols().len() && next.symbols()[i] == trade.s@ && 0 <= j
                < self.horizons_spec().len() ==> {
                let before: (Seq<StockDataPoint>, int) = if i < self.symbols().len() {
                    (self.windows_of(i)[j].window(), self.windows_of(i)[j].last_time())
                } else {
                    (Seq::empty(), 0)
                };
                (#[trigger] next.windows_of(i)[j].window(), next.windows_of(i)[j].last_time())
                    == after_trade(before.0, before.1, self.horizons_spec()[j] as int, point_of(trade))
            }
        &&& next.dirty_list() == mark(self.dirty_list(), trade.s@)
    }

    pub fn new(horizons: Vec<i64>) -> (r: Self)
        ensures
            r.wf(),
            r.horizons_spec() == horizons@,
            r.symbols() == Seq::<Seq<char>>::empty(),
            r.dirty_list() == Seq::<Seq<char>>::empty(),
    {
        let r = SymbolTable { horizons, symbols: Vec::new(), windows: Vec::new(), dirty: Vec::new() };
        proof {
            assert(names(r.symbols@) =~= Seq::<Seq<char>>::empty());
            assert(names(r.dirty@) =~= Seq::<Seq<char>>::empty());
        }
        r
    }

    /// The retention of each horizon, in ms.
    pub fn horizons(&self) -> (r: &Vec<i64>)
        ensures
            r@ == self.horizons_spec(),
    {
        &self.horizons
    }

    /// Number of known symbols.
    pub fn symbol_count(&self) -> (r: usize)
        ensures
            r == self.symbols().len(),
    {
        self.symbols.len()
    }

    /// Position of `s` among `v`, if it is there.
    fn position(v: &Vec<String>, s: &String) -> (r: Option<usize>)
        ensures
            match r {
                Some(i) => i < v@.len() && v@[i as int]@ == s@,
                None => !names(v@).contains(s@),
            },
    {
        let mut i: usize = 0;
        while i < v.len()
            invariant
                i <= v@.len(),
                forall|k: int| 0 <= k < i ==> v@[k]@ != s@,
            decreases v@.len() - i,
        {
            if v[i] == *s {
                return Some(i);
            }
            i = i + 1;
        }
        proof {
            if names(v@).contains(s@) {
                let k = choose|k: int| 0 <= k < names(v@).len() && names(v@)[k] == s@;
                assert(v@[k]@ == s@);
            }
        }
        None
    }

    /// Marks `s` dirty unless it already is.
    fn mark_dirty(&mut self, s: &String)
        requires
            names(old(self).dirty@).no_duplicates(),
        ensures
            final(self).dirty_list() == mark(old(self).dirty_list(), s@),
            names(final(self).dirty@).no_duplicates(),
            final(self).horizons == old(self).horizons,
            final(self).symbols == old(self).symbols,
            final(self).windows == old(self).windows,
            forall|d: int|
                0 <= d < final(self).dirty@.len() ==> #[trigger] final(self).dirty@[d]@ == s@
                    || names(old(self).dirty@).contains(final(self).dirty@[d]@),
    {
        let ghost before = self.dirty@;
        let found = Self::position(&self.dirty, s);
        if found.is_none() {
            self.dirty.push(s.clone());
            proof {
                assert(names(self.dirty@) =~= names(before).push(s@));
                assert forall|d: int| 0 <= d < self.dirty@.len() implies #[trigger] self.dirty@[d]@
                    == s@ || names(before).contains(self.dirty@[d]@) by {
                    if d < before.len() {
                        assert(names(before)[d] == self.dirty@[d]@);
                    }
                }
            }
        } else {
            proof {
                let i = found.unwrap() as int;
                assert(names(before)[i] == s@);
                assert forall|d: int| 0 <= d < self.dirty@.len() implies #[trigger] self.dirty@[d]@
                    == s@ || names(before).contains(self.dirty@[d]@) by {
                    assert(names(before)[d] == self.dirty@[d]@);
                }
            }
        }
    }

    /// Takes in one trade: creates the symbol with one fresh window per horizon on first
    /// sight, adds the trade to every window of the symbol, and marks the symbol dirty.
    /// A trade whose price or volume is negative (a parser's sentinel) is refused, and so
    /// is one that would push a running sum out of `i64`; the table is then unchanged.
    pub fn ingest(&mut self, trade: &FinnhubDataRow) -> (r: Result<(), IngestError>)
        requires
            old(self).wf(),
        ensures
            (trade.p < 0 || trade.v < 0) ==> r == Err::<(), IngestError>(IngestError::Incomplete)
                && *final(self) == *old(self),
            trade.p >= 0 && trade.v >= 0 && !old(self).takes(trade) ==> r == Err::<
                (),
                IngestError,
            >(IngestError::Overflow) && *final(self) == *old(self),
            trade.p >= 0 && trade.v >= 0 && old(self).takes(trade) ==> r is Ok && old(
                self,
            ).ingested(*final(self), trade),
    {
        if trade.p < 0 || trade.v < 0 {
            return Err(IngestError::Incomplete);
        }
        proof {
            let (a, b) = (trade.p as int, trade.v as int);
            assert(0 <= a * b <= 0x4000_0000_0000_0000_0000_0000_0000_0000) by (nonlinear_arith)
                requires
                    0 <= a < 0x8000_0000_0000_0000,
                    0 <= b < 0x8000_0000_0000_0000,
            ;
        }
        if (trade.p as i128) * (trade.v as i128) > i64::MAX as i128 {
            return Err(IngestError::Overflow);
        }
        let ghost before = *self;
        let h = self.horizons.len();
        let found = Self::position(&self.symbols, &trade.s);
        match found {
            Some(i) => {
                proof {
                    assert(names(self.symbols@)[i as int] == trade.s@);
                }
                let mut j: usize = 0;
                while j < h
                    invariant
                        *self == before,
                        self.wf(),
                        h == self.horizons@.len(),
                        i < self.windows@.len(),
                        names(self.symbols@)[i as int] == trade.s@,
                        trade.p >= 0,
                        trade.v >= 0,
                        j <= h,
                        forall|k: int| 0 <= k < j ==> #[trigger] self.windows@[i as int]@[k].accepts(trade),
                    decreases h - j,
                {
                    if !self.windows[i][j].can_add(trade) {
                        proof {
                            assert(!self.windows_of(i as int)[j as int].accepts(trade));
                        }
                        return Err(IngestError::Overflow);
                    }
                    j = j + 1;
                }
                let ghost old_windows = self.windows@;
                let mut ws = self.windows.remove(i);
                let ghost old_ws = ws@;
                let mut j: usize = 0;
                while j < h
                    invariant
                        i < old_windows.len(),
                        old_ws == old_windows[i as int]@,
                        trade.p >= 0,
                        trade.v >= 0,
                        h == self.horizons@.len(),
                        h == old_ws.len(),
                        ws@.len() == h,
                        j <= h,
                        self.horizons == before.horizons,
                        forall|k: int| 0 <= k < h ==> #[trigger] old_ws[k].accepts(trade),
                        forall|k: int|
                            0 <= k < h ==> (#[trigger] old_ws[k]).wf() && old_ws[k].limit()
                                == self.horizons@[k],
                        forall|k: int|
                            j <= k < h ==> #[trigger] ws@[k] == old_ws[k],
                        forall|k: int|
                            0 <= k < j ==> {
                                &&& (#[trigger] ws@[k]).wf()
                                &&& ws@[k].limit() == self.horizons@[k]
                                &&& (ws@[k].window(), ws@[k].last_time()) == after_trade(
                                    old_ws[k].window(),
                                    old_ws[k].last_time(),
                                    self.horizons@[k] as int,
                                    point_of(trade),
                                )
                            },
                    decreases h - j,
                {
                    let mut w = ws.remove(j);
                    w.add_trade(trade);
                    ws.insert(j, w);
                    j = j + 1;
                }
                self.windows.insert(i, ws);
                proof {
                    assert(self.windows@ =~= old_windows.update(i as int, ws));
                }
            },
            None => {
                let mut ws: Vec<StockInformation> = Vec::new();
                let mut j: usize = 0;
                while j < h
                    invariant
                        *self == before,
                        h == self.horizons@.len(),
                        trade.p >= 0,
                        trade.v >= 0,
                        trade.p * trade.v <= i64::MAX,
                        ws@.len() == j,
                        j <= h,
                        forall|k: int|
                            0 <= k < j ==> {
                                &&& (#[trigger] ws@[k]).wf()
                                &&& ws@[k].limit() == self.horizons@[k]
                                &&& (ws@[k].window(), ws@[k].last_time()) == after_trade(
                                    Seq::empty(),
                                    0,
                                    self.horizons@[k] as int,
                                    point_of(trade),
                                )
                            },
                    decreases h - j,
                {
                    let mut w = StockInformation::new(self.horizons[j]);
                    proof {
                        assert(crate::stock_interval::volume_sum(w.window()) == 0);
                        assert(crate::stock_interval::notional_sum(w.window()) == 0);
                    }
                    w.add_trade(trade);
                    ws.push(w);
                    j = j + 1;
                }
                self.symbols.push(trade.s.clone());
                self.windows.push(ws);
                proof {
                    assert(names(self.symbols@) =~= names(before.symbols@).push(trade.s@));
                    assert forall|k: int| 0 <= k < names(self.symbols@).len() - 1 implies names(self.symbols@)[k]
                        != trade.s@ by {
                        assert(names(before.symbols@)[k] == names(self.symbols@)[k]);
                    }
                }
            },
        }
        let ghost mid = *self;
        self.mark_dirty(&trade.s);
        proof {
            assert forall|d: int| 0 <= d < self.dirty@.len() implies names(self.symbols@).contains(
                #[trigger] self.dirty@[d]@,
            ) by {
                if self.dirty@[d]@ == trade.s@ {
                    match found {
                        Some(i) => {
                            assert(names(self.symbols@)[i as int] == trade.s@);
                        },
                        None => {
                            assert(names(self.symbols@)[names(self.symbols@).len() - 1] == trade.s@);
                        },
                    }
                } else {
                    let e = choose|e: int| 0 <= e < before.dirty@.len() && names(before.dirty@)[e] == self.dirty@[d]@;
                    assert(names(before.symbols@).contains(before.dirty@[e]@));
                    let k = choose|k: int| 0 <= k < names(before.symbols@).len() && names(before.symbols@)[k] == before.dirty@[e]@;
                    assert(names(self.symbols@)[k] == names(before.symbols@)[k]);
                }
            }
        }
        Ok(())
    }

    /// Hands over the dirty list, leaving it empty, and reports each symbol on it.
    /// Trades that arrive afterwards mark their symbols for the next publication.
    pub fn publish(&mut self) -> (r: Vec<SymbolReport>)
        requires
            old(self).wf(),
        ensures
            final(self).wf(),
            final(self).dirty_list() == Seq::<Seq<char>>::empty(),
            final(self).horizons_spec() == old(self).horizons_spec(),
            final(self).symbols() == old(self).symbols(),
            forall|i: int| 0 <= i < old(self).symbols().len() ==> #[trigger] final(self).windows_of(i)
                == old(self).windows_of(i),
            r@.len() == old(self).dirty_list().len(),
            forall|d: int|
                0 <= d < r@.len() ==> {
                    &&& (#[trigger] r@[d]).stock_name@ == old(self).dirty_list()[d]
                    &&& r@[d].summaries@.len() == old(self).horizons_spec().len()
                    &&& exists|i: int|
                        0 <= i < old(self).symbols().len() && old(self).symbols()[i]
                            == r@[d].stock_name@ && forall|j: int|
                            0 <= j < old(self).horizons_spec().len() ==> #[trigger] old(
                                self,
                            ).windows_of(i)[j].summarizes(r@[d].summaries@[j])
                },
    {
        let ghost start = *self;
        let mut marked_names: Vec<String> = Vec::new();
        std::mem::swap(&mut self.dirty, &mut marked_names);
        proof {
            assert(names(self.dirty@) =~= Seq::<Seq<char>>::empty());
        }
        let ghost table = *self;
        let mut out: Vec<SymbolReport> = Vec::new();
        let h = self.horizons.len();
        let mut d: usize = 0;
        while d < marked_names.len()
            invariant
                *self == table,
                self.wf(),
                h == self.horizons@.len(),
                d <= marked_names@.len(),
                out@.len() == d,
                forall|e: int|
                    0 <= e < marked_names@.len() ==> names(self.symbols@).contains(
                        #[trigger] marked_names@[e]@,
                    ),
                forall|e: int|
                    0 <= e < d ==> {
                        &&& (#[trigger] out@[e]).stock_name@ == marked_names@[e]@
                        &&& out@[e].summaries@.len() == h
                        &&& exists|i: int|
                            0 <= i < self.symbols@.len() && names(self.symbols@)[i]
                                == out@[e].stock_name@ && forall|j: int|
                                0 <= j < h ==> #[trigger] self.windows@[i]@[j].summarizes(
                                    out@[e].summaries@[j],
                                )
                    },
            decreases marked_names@.len() - d,
        {
            let found = Self::position(&self.symbols, &marked_names[d]);
            if let Some(i) = found {
                let mut summaries: Vec<WindowSummary> = Vec::new();
                let mut j: usize = 0;
                while j < h
                    invariant
                        *self == table,
                        self.wf(),
                        h == self.horizons@.len(),
                        i < self.windows@.len(),
                        summaries@.len() == j,
                        j <= h,
                        forall|k: int| 0 <= k < j ==> #[trigger] self.windows@[i as int]@[k].summarizes(
                            summaries@[k],
                        ),
                    decreases h - j,
                {
                    summaries.push(self.windows[i][j].snapshot());
                    j = j + 1;
                }
                let report = SymbolReport { stock_name: marked_names[d].clone(), summaries };
                out.push(report);
                proof {
                    assert(names(self.symbols@)[i as int] == out@[d as int].stock_name@);
                    assert(forall|j: int| 0 <= j < h ==> #[trigger] self.windows@[i as int]@[j].summarizes(
                        out@[d as int].summaries@[j],
                    ));
                }
            } else {
                proof {
                    assert(names(self.symbols@).contains(marked_names@[d as int]@));
                }
            }
            d = d + 1;
        }
        proof {
            assert forall|e: int| 0 <= e < out@.len() implies {
                &&& (#[trigger] out@[e]).stock_name@ == start.dirty_list()[e]
                &&& out@[e].summaries@.len() == start.horizons_spec().len()
                &&& exists|i: int|
                    0 <= i < start.symbols().len() && start.symbols()[i] == out@[e].stock_name@
                        && forall|j: int|
                        0 <= j < start.horizons_spec().len() ==> #[trigger] start.windows_of(
                            i,
                        )[j].summarizes(out@[e].summaries@[j])
            } by {
                assert(names(marked_names@)[e] == marked_names@[e]@);
                let i = choose|i: int|
                    0 <= i < self.symbols@.len() && names(self.symbols@)[i] == out@[e].stock_name@
                        && forall|j: int|
                        0 <= j < h ==> #[trigger] self.windows@[i]@[j].summarizes(
                            out@[e].summaries@[j],
                        );
                assert(start.windows_of(i) == self.windows@[i]@);
                assert(start.symbols()[i] == out@[e].stock_name@);
                assert(start.dirty_list()[e] == marked_names@[e]@);
                assert(forall|j: int|
                    0 <= j < start.horizons_spec().len() ==> #[trigger] start.windows_of(i)[j].summarizes(
                        out@[e].summaries@[j],
                    ));
            }
        }
        out
    }

}

} // verus!

verus! {

/// Every symbol ingested between two publications is reported by exactly the next one:
/// starting from the empty list that a publication leaves, marking the symbols of any
/// sequence of trades gives a list that holds each of those symbols once, and no other.
pub proof fn lemma_dirty_complete(ss: Seq<Seq<char>>)
    ensures
        forall|s: Seq<char>| #[trigger] marked(Seq::empty(), ss).contains(s) <==> ss.contains(s),
        marked(Seq::empty(), ss).no_duplicates(),
    decreases ss.len(),
{
    if ss.len() > 0 {
        let prev = ss.drop_last();
        lemma_dirty_complete(prev);
        let d = marked(Seq::empty(), prev);
        assert forall|s: Seq<char>| #[trigger] marked(Seq::empty(), ss).contains(s) <==> ss.contains(s) by {
            if ss.contains(s) && s != ss.last() {
                let k = choose|k: int| 0 <= k < ss.len() && ss[k] == s;
                assert(prev[k] == s);
            }
            if prev.contains(s) {
                let k = choose|k: int| 0 <= k < prev.len() && prev[k] == s;
                assert(ss[k] == s);
            }
            if !d.contains(ss.last()) {
                assert(d.push(ss.last())[d.len() as int] == ss.last());
                if d.push(ss.last()).contains(s) && s != ss.last() {
                    let k = choose|k: int| 0 <= k < d.push(ss.last()).len() && d.push(ss.last())[k] == s;
                    assert(d[k] == s);
                }
                if d.contains(s) {
                    let k = choose|k: int| 0 <= k < d.len() && d[k] == s;
                    assert(d.push(ss.last())[k] == s);
                }
            }
            assert(ss[ss.len() - 1] == ss.last());
        }
    }
}

} // verus!
