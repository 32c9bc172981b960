//! The trades waiting to be handed to the clients of the trade server.
use std::collections::VecDeque;
use vstd::prelude::*;

use crate::finnhub_data_row::{FinnhubDataRow, RowView};

verus! {

/// At most this many trades wait; beyond that the oldest is dropped.
pub const MAX_QUEUED_TRADES: usize = 10000;

pub open spec fn queued_views(q: Seq<FinnhubDataRow>) -> Seq<RowView> {
    q.map_values(|r: FinnhubDataRow| r@)
}

/// Where the trade server listens and the trades waiting for it.
pub struct TradeWebServer {
    ip_server: String,
    update_queue: VecDeque<FinnhubDataRow>,
}

impl TradeWebServer {
    pub closed spec fn address(&self) -> Seq<char> {
        self.ip_server@
    }

    /// The waiting trades, oldest first.
    pub closed spec fn queue(&self) -> Seq<RowView> {
        queued_views(self.update_queue@)
    }

    pub fn new(ip_server: &str) -> (r: Self)
        ensures
            r.address() == ip_server@,
            r.queue() == Seq::<RowView>::empty(),
    {
        let r = TradeWebServer { ip_server: ip_server.to_owned(), update_queue: VecDeque::new() };
        proof {
            assert(queued_views(r.update_queue@) =~= Seq::<RowView>::empty());
        }
        r
    }

    pub fn ip_server(&self) -> (r: &String)
        ensures
            r@ == self.address(),
    {
        &self.ip_server
    }

    /// Queues a trade; when more than `MAX_QUEUED_TRADES` already wait, the oldest goes.
    pub fn add_trade(&mut self, trade: FinnhubDataRow)
        ensures
            final(self).address() == old(self).address(),
            final(self).queue() == if old(self).queue().len() > MAX_QUEUED_TRADES {
                old(self).queue().drop_first()
            } else {
                old(self).queue()
            }.push(trade@),
    {
        let ghost before = self.update_queue@;
        if self.update_queue.len() > MAX_QUEUED_TRADES {
            self.update_queue.pop_front();
        }
        let ghost mid = self.update_queue@;
        self.update_queue.push_back(trade);
        proof {
            if before.len() > MAX_QUEUED_TRADES {
                assert(queued_views(mid) =~= queued_views(before).drop_first());
            }
            assert(queued_views(self.update_queue@) =~= queued_views(mid).push(trade@));
        }
    }

    /// Takes the oldest waiting trade.
    pub fn pop_update(&mut self) -> (r: Option<FinnhubDataRow>)
        ensures
            final(self).address() == old(self).address(),
            old(self).queue().len() == 0 ==> r is None && final(self).queue() == old(self).queue(),
            old(self).queue().len() > 0 ==> r is Some && r.unwrap()@ == old(self).queue()[0]
                && final(self).queue() == old(self).queue().drop_first(),
    {
        let ghost before = self.update_queue@;
        let r = self.update_queue.pop_front();
        proof {
            if before.len() > 0 {
                assert(queued_views(self.update_queue@) =~= queued_views(before).drop_first());
            }
        }
        r
    }

    /// Puts back a trade that could not be sent, to go first next time.
    pub fn requeue(&mut self, trade: FinnhubDataRow)
        ensures
            final(self).address() == old(self).address(),
            final(self).queue() == seq![trade@] + old(self).queue(),
    {
        let ghost before = self.update_queue@;
        self.update_queue.push_front(trade);
        proof {
            assert(queued_views(self.update_queue@) =~= seq![trade@] + queued_views(before));
        }
    }
}

} // verus!
