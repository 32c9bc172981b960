//! Twelve Data reports a symbol's running volume for the day, not a trade's volume.
use vstd::prelude::*;

use crate::data_parsers::{parse_twelve_data, parsed_rows, Feed};
use crate::finnhub_data_row::{FinnhubDataRow, RowView};

verus! {

/// The volume of a trade whose report carries the day volume `v`, where `prev` is the
/// day volume reported before for the symbol: the growth since then; the whole `v`
/// where the day volume went down (a new day) or `prev` is no volume.
pub open spec fn trade_volume(v: i64, prev: i64) -> i64 {
    if 0 <= prev <= v {
        (v - prev) as i64
    } else {
        v
    }
}

pub open spec fn volume_pairs(v: Seq<(String, i64)>) -> Seq<(Seq<char>, i64)> {
    v.map_values(|p: (String, i64)| (p.0@, p.1))
}

/// The day volume last seen for `key` in `pairs`, the latest pair first.
pub open spec fn last_volume(pairs: Seq<(Seq<char>, i64)>, key: Seq<char>) -> Option<i64>
    decreases pairs.len(),
{
    if pairs.len() == 0 {
        None
    } else if pairs.last().0 == key {
        Some(pairs.last().1)
    } else {
        last_volume(pairs.drop_last(), key)
    }
}

/// The day volume last reported for each symbol.
pub struct DayVolumes {
    seen: Vec<(String, i64)>,
}

impl DayVolumes {
    /// Day volumes reported so far, in order.
    pub closed spec fn reports(&self) -> Seq<(Seq<char>, i64)> {
        volume_pairs(self.seen@)
    }

    pub fn new() -> (r: Self)
        ensures
            r.reports() == Seq::<(Seq<char>, i64)>::empty(),
    {
        let r = DayVolumes { seen: Vec::new() };
        proof {
            assert(volume_pairs(r.seen@) =~= Seq::<(Seq<char>, i64)>::empty());
        }
        r
    }

    fn last_for(&self, key: &String) -> (r: Option<i64>)
        ensures
            r == last_volume(self.reports(), key@),
    {
        let mut i: usize = self.seen.len();
        let ghost all = self.reports();
        proof {
            assert(all.take(i as int) =~= all);
        }
        while i > 0
            invariant
                i <= self.seen@.len(),
                all == self.reports(),
                last_volume(all, key@) == last_volume(all.take(i as int), key@),
            decreases i,
        {
            let (k, v) = &self.seen[i - 1];
            proof {
                let t = all.take(i as int);
                assert(t.last() == (k@, *v));
                assert(t.drop_last() =~= all.take(i - 1));
            }
            if *k == *key {
                return Some(*v);
            }
            i = i - 1;
        }
        None
    }

    /// The trade of a Twelve Data price message, with its volume turned from the day
    /// volume into the volume since the symbol's last report (none before: zero); the
    /// message's day volume is recorded. A message without a time holds no trade.
    pub fn twelve_trade(&mut self, json_data: &String) -> (r: Option<FinnhubDataRow>)
        ensures
            ({
                let row: RowView = parsed_rows(Feed::Twelve, json_data@).last();
                if row.t == 0 {
                    r is None && final(self).reports() == old(self).reports()
                } else {
                    let prev = match last_volume(old(self).reports(), row.s) {
                        Some(p) => p,
                        None => row.v,
                    };
                    &&& r is Some
                    &&& r.unwrap()@ == (RowView { v: trade_volume(row.v, prev), ..row })
                    &&& final(self).reports() == old(self).reports().push((row.s, row.v))
                }
            }),
    {
        let mut row = parse_twelve_data(json_data);
        if row.t == 0 {
            return None;
        }
        let prev = match self.last_for(&row.s) {
            Some(p) => p,
            None => row.v,
        };
        let ghost before = self.seen@;
        self.seen.push((row.s.clone(), row.v));
        proof {
            assert(volume_pairs(self.seen@) =~= volume_pairs(before).push((row.s@, row.v)));
        }
        if 0 <= prev && prev <= row.v {
            row.v = row.v - prev;
        }
        Some(row)
    }
}

} // verus!
