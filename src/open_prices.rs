//! Opening prices: for each symbol and horizon, the average prices of the last
//! publication ticks, so that the one reported a horizon ago can open the next report.
use std::collections::VecDeque;
use vstd::prelude::*;

verus! {

/// A history one tick on: its latest price is carried forward, and the oldest leaves
/// once more than `span + 1` are kept.
pub open spec fn advanced(h: Seq<Option<i64>>, span: int) -> Seq<Option<i64>> {
    if h.len() == 0 {
        h
    } else {
        let next = h.push(h.last());
        if next.len() > span + 1 {
            next.drop_first()
        } else {
            next
        }
    }
}

/// The price that opens a horizon: the one of `span` ticks ago, once that far back is kept.
pub open spec fn opening(h: Seq<Option<i64>>, span: int) -> Option<i64> {
    if h.len() == span + 1 {
        h[0]
    } else {
        None
    }
}

/// A history after the current tick's price is set.
pub open spec fn recorded(h: Option<Seq<Option<i64>>>, avg: Option<i64>) -> Seq<Option<i64>> {
    match h {
        Some(h) => h.drop_last().push(avg),
        None => seq![avg],
    }
}

/// The history kept for symbol `name` and horizon `j` among `entries`, if any.
pub open spec fn history_of(entries: Seq<(Seq<char>, int, Seq<Option<i64>>)>, name: Seq<char>, j: int) -> Option<
    Seq<Option<i64>>,
>
    decreases entries.len(),
{
    if entries.len() == 0 {
        None
    } else if entries.last().0 == name && entries.last().1 == j {
        Some(entries.last().2)
    } else {
        history_of(entries.drop_last(), name, j)
    }
}

/// Price histories by symbol and horizon.
pub struct OpenPrices {
    spans: Vec<usize>,
    names: Vec<String>,
    horizons: Vec<usize>,
    histories: Vec<VecDeque<Option<i64>>>,
}

impl OpenPrices {
    /// Ticks per horizon.
    pub closed spec fn spans_spec(&self) -> Seq<usize> {
        self.spans@
    }

    /// Symbol, horizon and history of each entry.
    pub closed spec fn entries(&self) -> Seq<(Seq<char>, int, Seq<Option<i64>>)> {
        Seq::new(
            self.names@.len(),
            |k: int| (self.names@[k]@, self.horizons@[k] as int, self.histories@[k]@),
        )
    }

    /// Every entry has a horizon with a span, a history that is not empty and keeps at
    /// most `span + 1` prices.
    pub closed spec fn wf(&self) -> bool {
        &&& self.names@.len() == self.horizons@.len()
        &&& self.names@.len() == self.histories@.len()
        &&& forall|k: int|
            0 <= k < self.names@.len() ==> {
                &&& (#[trigger] self.horizons@[k]) < self.spans@.len()
                &&& 0 < self.histories@[k]@.len() <= self.spans@[self.horizons@[k] as int] + 1
            }
    }

    /// `spans[j]` ticks make up horizon `j`.
    pub fn new(spans: Vec<usize>) -> (r: Self)
        ensures
            r.wf(),
            r.spans_spec() == spans@,
            r.entries().len() == 0,
    {
        OpenPrices { spans, names: Vec::new(), horizons: Vec::new(), histories: Vec::new() }
    }

    /// Moves every history one tick on.
    pub fn tick(&mut self)
        requires
            old(self).wf(),
        ensures
            final(self).wf(),
            final(self).spans_spec() == old(self).spans_spec(),
            final(self).entries().len() == old(self).entries().len(),
            forall|k: int|
                0 <= k < old(self).entries().len() ==> {
                    let e = old(self).entries()[k];
                    #[trigger] final(self).entries()[k] == (e.0, e.1, advanced(
                        e.2,
                        old(self).spans_spec()[e.1] as int,
                    ))
                },
    {
        let ghost before = self.histories@;
        let mut k: usize = 0;
        while k < self.histories.len()
            invariant
                self.wf(),
                self.spans == old(self).spans,
                self.names == old(self).names,
                self.horizons == old(self).horizons,
                self.histories@.len() == before.len(),
                before == old(self).histories@,
                k <= before.len(),
                forall|m: int| k <= m < before.len() ==> #[trigger] self.histories@[m] == before[m],
                forall|m: int|
                    0 <= m < k ==> #[trigger] self.histories@[m]@ == advanced(
                        before[m]@,
                        self.spans@[self.horizons@[m] as int] as int,
                    ),
            decreases before.len() - k,
        {
            let span = self.spans[self.horizons[k]];
            let mut h = self.histories.remove(k);
            let ghost h0 = h@;
            let last = h[h.len() - 1];
            h.push_back(last);
            if h.len() - 1 > span {
                h.pop_front();
            }
            proof {
                assert(h@ =~= advanced(h0, span as int));
            }
            self.histories.insert(k, h);
            k = k + 1;
        }
        proof {
            assert forall|k: int| 0 <= k < old(self).entries().len() implies {
                let e = old(self).entries()[k];
                #[trigger] self.entries()[k] == (e.0, e.1, advanced(e.2, old(self).spans_spec()[e.1] as int))
            } by {}
        }
    }

    /// Sets the current tick's price of symbol `name` in horizon `j`, starting its
    /// history if there is none, and returns the price that opens the horizon.
    pub fn record(&mut self, name: &String, j: usize, avg: Option<i64>) -> (r: Option<i64>)
        requires
            old(self).wf(),
            j < old(self).spans_spec().len(),
        ensures
            final(self).wf(),
            final(self).spans_spec() == old(self).spans_spec(),
            ({
                let h = history_of(old(self).entries(), name@, j as int);
                &&& history_of(final(self).entries(), name@, j as int) == Some(recorded(h, avg))
                &&& r == match h {
                    Some(h) => opening(h, old(self).spans_spec()[j as int] as int),
                    None => None,
                }
                &&& forall|n: Seq<char>, i: int|
                    !(n == name@ && i == j) ==> #[trigger] history_of(final(self).entries(), n, i)
                        == history_of(old(self).entries(), n, i)
            }),
    {
        let ghost all = self.entries();
        let mut k: usize = self.names.len();
        proof {
            assert(all.take(k as int) =~= all);
        }
        while k > 0 && !(self.horizons[k - 1] == j && self.names[k - 1] == *name)
            invariant
                k <= self.names@.len(),
                all == self.entries(),
                self.wf(),
                history_of(all, name@, j as int) == history_of(all.take(k as int), name@, j as int),
                forall|m: int| k <= m < all.len() ==> !(#[trigger] all[m].0 == name@ && all[m].1 == j),
            decreases k,
        {
            proof {
                assert(all.take(k as int).drop_last() =~= all.take(k - 1));
                assert(all.take(k as int).last() == all[k - 1]);
            }
            k = k - 1;
        }
        if k == 0 {
            proof {
                assert(all.take(0) =~= Seq::<(Seq<char>, int, Seq<Option<i64>>)>::empty());
            }
            let mut h: VecDeque<Option<i64>> = VecDeque::new();
            h.push_back(avg);
            self.names.push(name.clone());
            self.horizons.push(j);
            self.histories.push(h);
            proof {
                assert(h@ =~= seq![avg]);
                assert(self.entries().drop_last() =~= all);
                assert forall|n: Seq<char>, i: int|
                    !(n == name@ && i == j) implies #[trigger] history_of(self.entries(), n, i)
                        == history_of(all, n, i) by {}
            }
            return None;
        }
        let idx = k - 1;
        let span = self.spans[j];
        let mut h = self.histories.remove(idx);
        let ghost h0 = h@;
        let open = if h.len() - 1 == span {
            h[0]
        } else {
            None
        };
        h.pop_back();
        h.push_back(avg);
        proof {
            assert(h@ =~= h0.drop_last().push(avg));
        }
        self.histories.insert(idx, h);
        proof {
            assert(all[idx as int] == (name@, j as int, h0));
            assert(self.entries() =~= all.update(idx as int, (name@, j as int, h@)));
            lemma_history_update(all, idx as int, name@, j as int, h@);
        }
        open
    }
}

/// Replacing the history of the latest entry for a key changes what that key finds
/// and nothing else.
proof fn lemma_history_update(
    all: Seq<(Seq<char>, int, Seq<Option<i64>>)>,
    idx: int,
    name: Seq<char>,
    j: int,
    h: Seq<Option<i64>>,
)
    requires
        0 <= idx < all.len(),
        all[idx].0 == name && all[idx].1 == j,
        history_of(all, name, j) == history_of(all.take(idx + 1), name, j),
        forall|m: int| idx < m < all.len() ==> !(all[m].0 == name && all[m].1 == j),
    ensures
        history_of(all.update(idx, (name, j, h)), name, j) == Some(h),
        forall|n: Seq<char>, i: int|
            !(n == name && i == j) ==> #[trigger] history_of(all.update(idx, (name, j, h)), n, i)
                == history_of(all, n, i),
    decreases all.len(),
{
    let upd = all.update(idx, (name, j, h));
    assert(upd.last() == if idx == all.len() - 1 {
        (name, j, h)
    } else {
        all.last()
    });
    if idx == all.len() - 1 {
        assert(upd.drop_last() =~= all.drop_last());
    } else {
        assert(upd.drop_last() =~= all.drop_last().update(idx, (name, j, h)));
        assert(all.take(idx + 1) =~= all.drop_last().take(idx + 1));
        assert(all.last() == all[all.len() - 1]);
        lemma_history_update(all.drop_last(), idx, name, j, h);
        assert forall|n: Seq<char>, i: int| !(n == name && i == j) implies #[trigger] history_of(
            upd,
            n,
            i,
        ) == history_of(all, n, i) by {
            assert(history_of(upd.drop_last(), n, i) == history_of(all.drop_last(), n, i));
        }
    }
}

} // verus!
