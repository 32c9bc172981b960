//! Messages waiting for the data store's websocket.
use std::collections::VecDeque;
use vstd::prelude::*;

use crate::symbol_table::names;

verus! {

/// The data store's address and the messages waiting for it, oldest first.
pub struct DataWebClient {
    addr: String,
    update_queue: VecDeque<String>,
}

impl DataWebClient {
    pub closed spec fn address(&self) -> Seq<char> {
        self.addr@
    }

    pub closed spec fn queue(&self) -> Seq<Seq<char>> {
        names(self.update_queue@)
    }

    pub fn new(addr: &str) -> (r: Self)
        ensures
            r.address() == addr@,
            r.queue() == Seq::<Seq<char>>::empty(),
    {
        let r = DataWebClient { addr: addr.to_owned(), update_queue: VecDeque::new() };
        proof {
            assert(names(r.update_queue@) =~= Seq::<Seq<char>>::empty());
        }
        r
    }

    pub fn addr(&self) -> (r: &String)
        ensures
            r@ == self.address(),
    {
        &self.addr
    }

    /// Queues messages behind those already waiting, in order.
    pub fn add_finnhub_data(&mut self, messages: Vec<String>)
        ensures
            final(self).address() == old(self).address(),
            final(self).queue() == old(self).queue() + names(messages@),
    {
        let mut i: usize = 0;
        while i < messages.len()
            invariant
                i <= messages@.len(),
                self.address() == old(self).address(),
                self.queue() == old(self).queue() + names(messages@).take(i as int),
            decreases messages@.len() - i,
        {
            let ghost before = self.update_queue@;
            self.update_queue.push_back(messages[i].clone());
            i = i + 1;
            proof {
                assert(names(self.update_queue@) =~= names(before).push(messages@[i - 1]@));
                assert(names(messages@).take(i as int) =~= names(messages@).take(i - 1).push(
                    messages@[i - 1]@,
                ));
            }
        }
        proof {
            assert(names(messages@).take(i as int) =~= names(messages@));
        }
    }

    /// Takes the oldest waiting message.
    pub fn pop_update(&mut self) -> (r: Option<String>)
        ensures
            final(self).address() == old(self).address(),
            old(self).queue().len() == 0 ==> r is None && final(self).queue() == old(self).queue(),
            old(self).queue().len() > 0 ==> r is Some && r.unwrap()@ == old(self).queue()[0]
                && final(self).queue() == old(self).queue().drop_first(),
    {
        let ghost before = self.update_queue@;
        let r = self.update_queue.pop_front();
        proof {
            if before.len() > 0 {
                assert(names(self.update_queue@) =~= names(before).drop_first());
            }
        }
        r
    }

    /// Puts back a message that could not be sent, to go first next time.
    pub fn requeue(&mut self, message: String)
        ensures
            final(self).address() == old(self).address(),
            final(self).queue() == seq![message@] + old(self).queue(),
    {
        let ghost before = self.update_queue@;
        self.update_queue.push_front(message);
        proof {
            assert(names(self.update_queue@) =~= seq![message@] + names(before));
        }
    }
}

/// One row of the trades table of the relational store.
pub struct DatabaseTradeModel {
    pub first_trade: i64,
    pub num_of_trades: i32,
    pub volume_moved: i32,
    pub avg_price: i64,
    pub min_price: i64,
    pub max_price: i64,
}

/// What to do with a message after an attempt to send it.
#[derive(Clone, Copy, Debug, PartialEq, Eq, Structural)]
pub enum SendAction {
    /// It went through.
    Done,
    /// Try again after this many ms.
    RetryAfter(u64),
    /// Give up on it.
    Drop,
}

/// Attempts made before a message is given up.
pub const MAX_SEND_ATTEMPTS: u32 = 5;

/// Wait before the second attempt; it doubles for each further one.
pub const BASE_BACKOFF_MS: u64 = 200;

/// Decides after attempt number `attempt` (counted from 0) of sending a message: done if
/// it went through, else retry after `BASE_BACKOFF_MS * 2^attempt` ms while attempts
/// remain, else drop it.
pub fn after_send(attempt: u32, sent: bool) -> (r: SendAction)
    ensures
        sent ==> r == SendAction::Done,
        !sent && attempt + 1 < MAX_SEND_ATTEMPTS ==> r == SendAction::RetryAfter(
            (BASE_BACKOFF_MS * vstd::arithmetic::power2::pow2(attempt as nat)) as u64,
        ),
        !sent && attempt + 1 >= MAX_SEND_ATTEMPTS ==> r == SendAction::Drop,
{
    if sent {
        return SendAction::Done;
    }
    if attempt >= MAX_SEND_ATTEMPTS - 1 {
        return SendAction::Drop;
    }
    let mut delay: u64 = BASE_BACKOFF_MS;
    let mut k: u32 = 0;
    proof {
        vstd::arithmetic::power2::lemma2_to64();
    }
    while k < attempt
        invariant
            k <= attempt < 4,
            delay == BASE_BACKOFF_MS * vstd::arithmetic::power2::pow2(k as nat),
        decreases attempt - k,
    {
        proof {
            vstd::arithmetic::power2::lemma2_to64();
            vstd::arithmetic::power2::lemma_pow2_unfold((k + 1) as nat);
        }
        delay = delay * 2;
        k = k + 1;
    }
    SendAction::RetryAfter(delay)
}

} // verus!
