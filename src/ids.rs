use vstd::prelude::*;

verus! {

/// Issues identifiers for clients, orders and trades.
///
/// Each kind has its own counter, starting at zero; an identifier of a kind
/// is never handed out twice by the same sequence.
pub struct IdSequence {
    client: u64,
    order: u64,
    trade: u64,
}

impl IdSequence {
    /// The identifier that the next client will get.
    pub closed spec fn next_client(self) -> u64 {
        self.client
    }

    /// The identifier that the next order will get.
    pub closed spec fn next_order(self) -> u64 {
        self.order
    }

    /// The identifier that the next trade will get.
    pub closed spec fn next_trade(self) -> u64 {
        self.trade
    }

    pub fn new() -> (r: IdSequence)
        ensures
            r.next_client() == 0,
            r.next_order() == 0,
            r.next_trade() == 0,
    {
        IdSequence { client: 0, order: 0, trade: 0 }
    }

    /// How many order identifiers are still available.
    pub fn orders_left(&self) -> (r: u64)
        ensures
            r == u64::MAX - self.next_order(),
    {
        u64::MAX - self.order
    }

    /// How many trade identifiers are still available.
    pub fn trades_left(&self) -> (r: u64)
        ensures
            r == u64::MAX - self.next_trade(),
    {
        u64::MAX - self.trade
    }

    /// How many client identifiers are still available.
    pub fn clients_left(&self) -> (r: u64)
        ensures
            r == u64::MAX - self.next_client(),
    {
        u64::MAX - self.client
    }

    pub fn next_client_id(&mut self) -> (r: u64)
        requires
            old(self).next_client() < u64::MAX,
        ensures
            r == old(self).next_client(),
            final(self).next_client() == old(self).next_client() + 1,
            final(self).next_order() == old(self).next_order(),
            final(self).next_trade() == old(self).next_trade(),
    {
        let id = self.client;
        self.client = id + 1;
        id
    }

    pub fn next_order_id(&mut self) -> (r: u64)
        requires
            old(self).next_order() < u64::MAX,
        ensures
            r == old(self).next_order(),
            final(self).next_order() == old(self).next_order() + 1,
            final(self).next_client() == old(self).next_client(),
            final(self).next_trade() == old(self).next_trade(),
    {
        let id = self.order;
        self.order = id + 1;
        id
    }

    pub fn next_trade_id(&mut self) -> (r: u64)
        requires
            old(self).next_trade() < u64::MAX,
        ensures
            r == old(self).next_trade(),
            final(self).next_trade() == old(self).next_trade() + 1,
            final(self).next_client() == old(self).next_client(),
            final(self).next_order() == old(self).next_order(),
    {
        let id = self.trade;
        self.trade = id + 1;
        id
    }
}

} // verus!
