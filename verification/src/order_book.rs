//! The book of one symbol, rebuilt from the messages of the feed.

use crate::levels::{
    append_order, appended, best_prices_of, better, drop_order, dropped, is_best_first,
    lemma_push_contains, lemma_without, level_at, level_views, resting_at, without, Levels,
};
use crate::message::{OrderId, PitchMessage, Price, Side, Timestamp, TradingStatus};
use std::collections::{BTreeMap, HashMap};
use vstd::prelude::*;
use vstd::std_specs::iter::IteratorSpec;

verus! {

/// An order that rests in the book.
#[derive(Debug, Clone, PartialEq)]
pub struct OrderBookEntry {
    pub order_id: OrderId,
    pub price: Price,
    /// The quantity that is still open.
    pub quantity: u32,
    pub side: Side,
    /// The participant that entered the order.
    pub pid: String,
    /// The instant the order was added at.
    pub timestamp: Timestamp,
}

/// The content of a book.
pub struct BookView {
    pub symbol: Seq<char>,
    pub trading_status: TradingStatus,
    /// The resting orders by identifier.
    pub orders: Map<u64, OrderBookEntry>,
    /// The occupied bid prices with the orders resting at each.
    pub bids: Levels,
    /// The occupied ask prices with the orders resting at each.
    pub asks: Levels,
}

/// `price` is occupied and no occupied price is higher.
pub open spec fn is_highest(levels: Levels, price: u64) -> bool {
    levels.contains_key(price) && forall|other: u64| levels.contains_key(other) ==> other <= price
}

/// `price` is occupied and no occupied price is lower.
pub open spec fn is_lowest(levels: Levels, price: u64) -> bool {
    levels.contains_key(price) && forall|other: u64| levels.contains_key(other) ==> price <= other
}

/// The highest occupied price, if any price is occupied.
pub open spec fn highest(levels: Levels) -> Option<u64> {
    if exists|price: u64| is_highest(levels, price) {
        Some(choose|price: u64| is_highest(levels, price))
    } else {
        None
    }
}

/// The lowest occupied price, if any price is occupied.
pub open spec fn lowest(levels: Levels) -> Option<u64> {
    if exists|price: u64| is_lowest(levels, price) {
        Some(choose|price: u64| is_lowest(levels, price))
    } else {
        None
    }
}

/// The best occupied price of a side: the highest bid, the lowest ask.
pub open spec fn best(levels: Levels, side: Side) -> Option<u64> {
    match side {
        Side::Buy => highest(levels),
        Side::Sell => lowest(levels),
    }
}

/// The `count` best occupied prices of a side, the best first; all of them
/// where fewer are occupied.
pub open spec fn best_prices(levels: Levels, side: Side, count: nat) -> Seq<u64>
    decreases count,
{
    if count == 0 {
        Seq::empty()
    } else {
        match best(levels, side) {
            None => Seq::empty(),
            Some(price) => seq![price] + best_prices(
                levels.remove(price),
                side,
                (count - 1) as nat,
            ),
        }
    }
}

/// The open quantity of the order `id`; nothing where no such order rests.
pub open spec fn open_quantity(orders: Map<u64, OrderBookEntry>, id: OrderId) -> nat {
    if orders.contains_key(id.0) {
        orders[id.0].quantity as nat
    } else {
        0
    }
}

/// The sum of the open quantities of `ids`.
pub open spec fn resting_quantity(orders: Map<u64, OrderBookEntry>, ids: Seq<OrderId>) -> nat
    decreases ids.len(),
{
    if ids.len() == 0 {
        0
    } else {
        resting_quantity(orders, ids.drop_last()) + open_quantity(orders, ids.last())
    }
}

/// Adds to a running total the open quantity of the order `id`, if the order
/// is on `side`.
pub open spec fn add_open_quantity(orders: Map<u64, OrderBookEntry>, side: Side) -> spec_fn(
    nat,
    u64,
) -> nat {
    |total: nat, id: u64|
        if orders.contains_key(id) && orders[id].side == side {
            total + orders[id].quantity as nat
        } else {
            total
        }
}

/// Adds to a running total the quantity that rests at `price`.
pub open spec fn add_resting_quantity(orders: Map<u64, OrderBookEntry>, levels: Levels) -> spec_fn(
    nat,
    u64,
) -> nat {
    |total: nat, price: u64| total + resting_quantity(orders, resting_at(levels, price))
}

/// The sum of the quantities that rest at the listed prices.
pub open spec fn listed_quantity(
    orders: Map<u64, OrderBookEntry>,
    levels: Levels,
    prices: Seq<u64>,
) -> nat
    decreases prices.len(),
{
    if prices.len() == 0 {
        0
    } else {
        resting_quantity(orders, resting_at(levels, prices[0])) + listed_quantity(
            orders,
            levels,
            prices.drop_first(),
        )
    }
}

/// A total as 32 bits hold it: its remainder modulo `2^32`.
pub open spec fn wrapped(total: nat) -> u32 {
    (total % 0x1_0000_0000) as u32
}

impl BookView {
    /// The book of `symbol` before any message: closed, without orders.
    pub open spec fn empty(symbol: Seq<char>) -> BookView {
        BookView {
            symbol,
            trading_status: TradingStatus::Closed,
            orders: Map::empty(),
            bids: Map::empty(),
            asks: Map::empty(),
        }
    }

    /// The levels of a side.
    pub open spec fn levels(self, side: Side) -> Levels {
        match side {
            Side::Buy => self.bids,
            Side::Sell => self.asks,
        }
    }

    /// The book with the levels of one side replaced.
    pub open spec fn with_levels(self, side: Side, levels: Levels) -> BookView {
        match side {
            Side::Buy => BookView { bids: levels, ..self },
            Side::Sell => BookView { asks: levels, ..self },
        }
    }

    /// The book after `entry` was filed: it stands under its identifier, and
    /// its identifier joins the tail of the level of its side at its price.
    pub open spec fn file(self, entry: OrderBookEntry) -> BookView {
        BookView { orders: self.orders.insert(entry.order_id.0, entry), ..self }.with_levels(
            entry.side,
            appended(self.levels(entry.side), entry.price.0, entry.order_id),
        )
    }

    /// The book after `entry` was added. An order that rests under the same
    /// identifier leaves the book first, its level with it where nothing else
    /// rests there: the new order takes its place and comes last at its price.
    pub open spec fn add(self, entry: OrderBookEntry) -> BookView {
        self.remove(entry.order_id).file(entry)
    }

    /// The book after the order `id` left it. Nothing changes where no such
    /// order rests.
    pub open spec fn remove(self, id: OrderId) -> BookView {
        if self.orders.contains_key(id.0) {
            let entry = self.orders[id.0];
            BookView { orders: self.orders.remove(id.0), ..self }.with_levels(
                entry.side,
                dropped(self.levels(entry.side), entry.price.0, id),
            )
        } else {
            self
        }
    }

    /// The book after `quantity` of the order `id` was executed: the order
    /// keeps what is left, and leaves the book when nothing is. Nothing
    /// changes where no such order rests or where less than `quantity` is open.
    pub open spec fn execute(self, id: OrderId, quantity: u32) -> BookView {
        if self.orders.contains_key(id.0) && self.orders[id.0].quantity >= quantity {
            let entry = self.orders[id.0];
            if entry.quantity == quantity {
                self.remove(id)
            } else {
                BookView {
                    orders: self.orders.insert(
                        id.0,
                        OrderBookEntry { quantity: (entry.quantity - quantity) as u32, ..entry },
                    ),
                    ..self
                }
            }
        } else {
            self
        }
    }

    /// The book after a message. A trading status and an add order change the
    /// book of their symbol, an order executed and a delete order the book
    /// that holds their order. An add order with a quantity of zero is passed
    /// over, and one under an identifier that is resting replaces that order.
    /// Every other message leaves the book as it is: reduce size and modify
    /// order too, which the book does not follow.
    pub open spec fn apply(self, message: PitchMessage) -> BookView {
        match message {
            PitchMessage::TradingStatus { symbol, trading_status, .. } => {
                if symbol@ == self.symbol {
                    BookView { trading_status, ..self }
                } else {
                    self
                }
            },
            PitchMessage::AddOrder { timestamp, order_id, side, quantity, symbol, price, pid } => {
                if symbol@ == self.symbol && quantity > 0 {
                    self.add(OrderBookEntry { order_id, price, quantity, side, pid, timestamp })
                } else {
                    self
                }
            },
            PitchMessage::OrderExecuted { order_id, executed_quantity, .. } => {
                self.execute(order_id, executed_quantity)
            },
            PitchMessage::DeleteOrder { order_id, .. } => self.remove(order_id),
            PitchMessage::ReduceSize { .. } | PitchMessage::ModifyOrder { .. } => self,
            PitchMessage::UnitClear { .. }
            | PitchMessage::OrderExecutedAtPrice { .. }
            | PitchMessage::Trade { .. }
            | PitchMessage::TradeBreak { .. }
            | PitchMessage::CalculatedValue { .. }
            | PitchMessage::EndOfSession { .. }
            | PitchMessage::AuctionUpdate { .. }
            | PitchMessage::AuctionSummary { .. } => self,
        }
    }

    /// Every message of `messages` applied in turn.
    pub open spec fn apply_all(self, messages: Seq<PitchMessage>) -> BookView
        decreases messages.len(),
    {
        if messages.len() == 0 {
            self
        } else {
            self.apply_all(messages.drop_last()).apply(messages.last())
        }
    }

    /// No price level stands without orders.
    pub open spec fn levels_occupied(self) -> bool {
        forall|side: Side, price: u64| #[trigger]
            self.levels(side).contains_key(price) ==> self.levels(side)[price].len() > 0
    }

    /// The order filed under `id` carries that identifier, has quantity left
    /// open, and rests in the level of its side at its price.
    pub open spec fn order_is_filed(self, id: u64) -> bool {
        let entry = self.orders[id];
        &&& entry.order_id.0 == id
        &&& entry.quantity > 0
        &&& self.levels(entry.side).contains_key(entry.price.0)
        &&& self.levels(entry.side)[entry.price.0].contains(entry.order_id)
    }

    /// The level of `side` at `price` holds no identifier twice, and each
    /// identifier in it is that of a resting order of that side and price.
    pub open spec fn level_is_sound(self, side: Side, price: u64) -> bool {
        let ids = self.levels(side)[price];
        &&& ids.no_duplicates()
        &&& forall|i: int|
            0 <= i < ids.len() ==> {
                &&& self.orders.contains_key(#[trigger] ids[i].0)
                &&& self.orders[ids[i].0].side == side
                &&& self.orders[ids[i].0].price.0 == price
            }
    }

    /// Orders and levels agree: every resting order has quantity left open
    /// and is in exactly one level, that of its side and price, exactly once;
    /// the levels hold nothing else; and no level stands without orders.
    pub open spec fn consistent(self) -> bool {
        &&& self.orders.dom().finite()
        &&& self.bids.dom().finite()
        &&& self.asks.dom().finite()
        &&& self.levels_occupied()
        &&& forall|id: u64| #[trigger] self.orders.contains_key(id) ==> self.order_is_filed(id)
        &&& forall|side: Side, price: u64| #[trigger]
            self.levels(side).contains_key(price) ==> self.level_is_sound(side, price)
    }

    /// The price of the highest occupied bid level.
    pub open spec fn best_bid(self) -> Option<Price> {
        match highest(self.bids) {
            Some(price) => Some(Price(price)),
            None => None,
        }
    }

    /// The price of the lowest occupied ask level.
    pub open spec fn best_ask(self) -> Option<Price> {
        match lowest(self.asks) {
            Some(price) => Some(Price(price)),
            None => None,
        }
    }

    /// The distance from the best bid up to the best ask. A book that lacks
    /// one of them has none, nor has a book whose best bid is above its best
    /// ask. Where the two are equal the distance is zero: only a bid above
    /// the ask is taken for crossed.
    pub open spec fn spread(self) -> Option<Price> {
        match (self.best_bid(), self.best_ask()) {
            (Some(bid), Some(ask)) => if ask.0 >= bid.0 {
                Some(Price((ask.0 - bid.0) as u64))
            } else {
                None
            },
            _ => None,
        }
    }

    /// The sum of the open quantities of all orders on `side`.
    pub open spec fn side_quantity(self, side: Side) -> nat {
        self.orders.dom().fold(0nat, add_open_quantity(self.orders, side))
    }

    /// The sum of the quantities that rest at the occupied prices of `side`.
    pub open spec fn levels_quantity(self, side: Side) -> nat {
        self.levels(side).dom().fold(
            0nat,
            add_resting_quantity(self.orders, self.levels(side)),
        )
    }

    /// The level at `price` on `side` as a depth entry: the price and the
    /// open quantity resting there.
    pub open spec fn depth_entry(self, side: Side, price: u64) -> (Price, u32) {
        (Price(price), wrapped(resting_quantity(self.orders, resting_at(self.levels(side), price))))
    }

    /// The `count` best levels of a side, the best first.
    pub open spec fn depth(self, side: Side, count: nat) -> Seq<(Price, u32)> {
        best_prices(self.levels(side), side, count).map_values(
            |price: u64| self.depth_entry(side, price),
        )
    }
}

/// The book of one symbol.
#[derive(Debug, Clone)]
pub struct OrderBook {
    symbol: String,
    /// The resting orders by identifier.
    orders: HashMap<u64, OrderBookEntry>,
    /// The bid levels, each under the complement of its price, so that the
    /// highest bid comes first.
    bids: BTreeMap<u64, Vec<OrderId>>,
    /// The ask levels, each under its price.
    asks: BTreeMap<u64, Vec<OrderId>>,
    trading_status: TradingStatus,
}

impl View for OrderBook {
    type V = BookView;

    closed spec fn view(&self) -> BookView {
        BookView {
            symbol: self.symbol@,
            trading_status: self.trading_status,
            orders: self.orders@,
            bids: level_views(Side::Buy, self.bids@),
            asks: level_views(Side::Sell, self.asks@),
        }
    }
}

impl OrderBook {
    /// The book of `symbol` before any message.
    pub fn new(symbol: String) -> (book: OrderBook)
        ensures
            book@ == BookView::empty(symbol@),
            book@.consistent(),
    {
        let book = OrderBook {
            symbol,
            orders: HashMap::new(),
            bids: BTreeMap::new(),
            asks: BTreeMap::new(),
            trading_status: TradingStatus::Closed,
        };
        proof {
            assert(level_views(Side::Buy, book.bids@) =~= Map::<u64, Seq<OrderId>>::empty());
            assert(level_views(Side::Sell, book.asks@) =~= Map::<u64, Seq<OrderId>>::empty());
        }
        book
    }

    /// Folds a message into the book. Messages must arrive in feed order. An
    /// add order under an identifier that is resting replaces that order.
    /// Reduce size and modify order are not followed: like the messages that
    /// say nothing of orders, they leave the book as it is.
    pub fn apply_message(&mut self, message: &PitchMessage)
        ensures
            final(self)@ == old(self)@.apply(*message),
            old(self)@.consistent() ==> final(self)@.consistent(),
    {
        proof {
            if self@.consistent() {
                lemma_apply_consistent(self@, *message);
            }
        }
        match message {
            PitchMessage::TradingStatus { symbol, trading_status, .. } => {
                if *symbol == self.symbol {
                    self.trading_status = *trading_status;
                }
            },
            PitchMessage::AddOrder { order_id, side, quantity, symbol, price, pid, timestamp } => {
                if *symbol == self.symbol && *quantity > 0 {
                    let entry = OrderBookEntry {
                        order_id: *order_id,
                        price: *price,
                        quantity: *quantity,
                        side: *side,
                        pid: pid.clone(),
                        timestamp: *timestamp,
                    };
                    self.remove_order(*order_id);
                    let ghost cleared = self@;
                    self.orders.insert(order_id.0, entry);
                    assert(self.orders@ == cleared.orders.insert(order_id.0, entry));
                    match side {
                        Side::Buy => append_order(&mut self.bids, Side::Buy, price.0, *order_id),
                        Side::Sell => append_order(&mut self.asks, Side::Sell, price.0, *order_id),
                    }
                }
            },
            PitchMessage::OrderExecuted { order_id, executed_quantity, .. } => {
                let open: Option<u32> = match self.orders.get(&order_id.0) {
                    Some(order) => {
                        assert(self.orders@.contains_key(order_id.0));
                        assert(*order == self.orders@[order_id.0]);
                        Some(order.quantity)
                    },
                    None => {
                        assert(!self.orders@.contains_key(order_id.0));
                        None
                    },
                };
                match open {
                    Some(open) => {
                        if open == *executed_quantity {
                            self.remove_order(*order_id);
                        } else if open > *executed_quantity {
                            match self.orders.remove(&order_id.0) {
                                Some(mut order) => {
                                    assert(order == old(self)@.orders[order_id.0]);
                                    order.quantity = open - *executed_quantity;
                                    self.orders.insert(order_id.0, order);
                                    assert(self.orders@ =~= old(self)@.orders.insert(
                                        order_id.0,
                                        order,
                                    ));
                                },
                                None => {},
                            }
                        }
                    },
                    None => {},
                }
            },
            PitchMessage::DeleteOrder { order_id, .. } => {
                self.remove_order(*order_id);
            },
            PitchMessage::ReduceSize { .. } | PitchMessage::ModifyOrder { .. } => {},
            PitchMessage::UnitClear { .. }
            | PitchMessage::OrderExecutedAtPrice { .. }
            | PitchMessage::Trade { .. }
            | PitchMessage::TradeBreak { .. }
            | PitchMessage::CalculatedValue { .. }
            | PitchMessage::EndOfSession { .. }
            | PitchMessage::AuctionUpdate { .. }
            | PitchMessage::AuctionSummary { .. } => {},
        }
    }

    /// Takes the order `id` out of the book, if it rests there.
    fn remove_order(&mut self, order_id: OrderId)
        ensures
            final(self)@ == old(self)@.remove(order_id),
    {
        match self.orders.remove(&order_id.0) {
            Some(order) => {
                assert(old(self)@.orders.contains_key(order_id.0));
                assert(order == old(self)@.orders[order_id.0]);
                assert(self.orders@ == old(self)@.orders.remove(order_id.0));
                match order.side {
                    Side::Buy => drop_order(&mut self.bids, Side::Buy, order.price.0, order_id),
                    Side::Sell => drop_order(&mut self.asks, Side::Sell, order.price.0, order_id),
                }
            },
            None => {
                assert(!old(self)@.orders.contains_key(order_id.0));
                assert(self.orders@ == old(self)@.orders);
            },
        }
    }

    /// The symbol of the book.
    pub fn symbol(&self) -> (symbol: &str)
        ensures
            symbol@ == self@.symbol,
    {
        self.symbol.as_str()
    }

    /// The trading status that the last status message for the symbol set.
    pub fn trading_status(&self) -> (status: TradingStatus)
        ensures
            status == self@.trading_status,
    {
        self.trading_status
    }

    /// The number of resting orders.
    pub fn order_count(&self) -> (count: usize)
        ensures
            count == self@.orders.len(),
    {
        self.orders.len()
    }

    /// The price of the highest bid level; `None` without bids.
    pub fn best_bid(&self) -> (price: Option<Price>)
        ensures
            price == self@.best_bid(),
    {
        self.best_price(Side::Buy)
    }

    /// The price of the lowest ask level; `None` without asks.
    pub fn best_ask(&self) -> (price: Option<Price>)
        ensures
            price == self@.best_ask(),
    {
        self.best_price(Side::Sell)
    }

    /// The best occupied price of `side`.
    fn best_price(&self, side: Side) -> (price: Option<Price>)
        ensures
            price == (match best(self@.levels(side), side) {
                Some(best) => Some(Price(best)),
                None => None,
            }),
    {
        let prices = match side {
            Side::Buy => best_prices_of(&self.bids, Side::Buy, 1),
            Side::Sell => best_prices_of(&self.asks, Side::Sell, 1),
        };
        proof {
            lemma_best_first(self@.levels(side), side, prices@, 1);
            if let Some(top) = best(self@.levels(side), side) {
                assert(best_prices(self@.levels(side).remove(top), side, 0) =~= Seq::empty());
            }
        }
        if prices.len() == 0 {
            None
        } else {
            Some(Price(prices[0]))
        }
    }

    /// The distance from the best bid up to the best ask; `None` where one
    /// of them is missing or the bid is above the ask, and zero where the two
    /// are equal.
    pub fn spread(&self) -> (spread: Option<Price>)
        ensures
            spread == self@.spread(),
    {
        match (self.best_bid(), self.best_ask()) {
            (Some(bid), Some(ask)) => {
                if ask.0 >= bid.0 {
                    Some(Price(ask.0 - bid.0))
                } else {
                    None
                }
            },
            _ => None,
        }
    }

    /// The best `levels` price levels of each side, bids first: each level
    /// with its price and the open quantity resting at it, as 32 bits hold
    /// it. Bids run from the highest price down, asks from the lowest price
    /// up.
    pub fn get_level_info(&self, levels: usize) -> (info: (Vec<(Price, u32)>, Vec<(Price, u32)>))
        ensures
            info.0@ == self@.depth(Side::Buy, levels as nat),
            info.1@ == self@.depth(Side::Sell, levels as nat),
    {
        (self.side_depth(Side::Buy, levels), self.side_depth(Side::Sell, levels))
    }

    /// The best `count` price levels of `side`, the best first.
    fn side_depth(&self, side: Side, count: usize) -> (depth: Vec<(Price, u32)>)
        ensures
            depth@ == self@.depth(side, count as nat),
    {
        let prices = match side {
            Side::Buy => best_prices_of(&self.bids, Side::Buy, count),
            Side::Sell => best_prices_of(&self.asks, Side::Sell, count),
        };
        proof {
            lemma_best_first(self@.levels(side), side, prices@, count as nat);
        }
        let mut depth: Vec<(Price, u32)> = Vec::new();
        let mut i: usize = 0;
        while i < prices.len()
            invariant
                i <= prices@.len(),
                depth@.len() == i,
                forall|j: int|
                    0 <= j < i ==> #[trigger] depth@[j] == self@.depth_entry(side, prices@[j]),
            decreases prices@.len() - i,
        {
            let price: u64 = prices[i];
            let quantity = self.level_quantity(side, price);
            depth.push((Price(price), quantity));
            i = i + 1;
        }
        proof {
            assert(depth@ =~= self@.depth(side, count as nat));
        }
        depth
    }

    /// The open quantity that rests at `price` on `side`.
    fn level_quantity(&self, side: Side, price: u64) -> (total: u32)
        ensures
            total == self@.depth_entry(side, price).1,
    {
        let level = match side {
            Side::Buy => level_at(&self.bids, Side::Buy, price),
            Side::Sell => level_at(&self.asks, Side::Sell, price),
        };
        let mut total: u32 = 0;
        match level {
            Some(ids) => {
                let mut i: usize = 0;
                while i < ids.len()
                    invariant
                        i <= ids@.len(),
                        total == wrapped(resting_quantity(self.orders@, ids@.take(i as int))),
                    decreases ids@.len() - i,
                {
                    proof {
                        assert(ids@.take(i + 1).drop_last() =~= ids@.take(i as int));
                    }
                    match self.orders.get(&ids[i].0) {
                        Some(order) => {
                            assert(self.orders@.contains_key(ids@[i as int].0));
                            assert(*order == self.orders@[ids@[i as int].0]);
                            total = total.wrapping_add(order.quantity);
                        },
                        None => {
                            assert(!self.orders@.contains_key(ids@[i as int].0));
                        },
                    }
                    i = i + 1;
                }
                proof {
                    assert(ids@.take(i as int) =~= ids@);
                }
            },
            None => {},
        }
        total
    }

    /// The open quantity of all bids together, as 32 bits hold it.
    pub fn total_bid_quantity(&self) -> (total: u32)
        ensures
            total == wrapped(self@.side_quantity(Side::Buy)),
    {
        self.side_total(Side::Buy)
    }

    /// The open quantity of all asks together, as 32 bits hold it.
    pub fn total_ask_quantity(&self) -> (total: u32)
        ensures
            total == wrapped(self@.side_quantity(Side::Sell)),
    {
        self.side_total(Side::Sell)
    }

    /// The open quantity of all orders on `side` together.
    fn side_total(&self, side: Side) -> (total: u32)
        ensures
            total == wrapped(self@.side_quantity(side)),
    {
        let ghost step = add_open_quantity(self.orders@, side);
        let ghost mut seen: Set<u64> = Set::empty();
        let mut total: u32 = 0;
        proof {
            vstd::set::fold::lemma_fold_empty::<u64, nat>(0nat, step);
        }
        for id in it: self.orders.keys()
            invariant
                step == add_open_quantity(self.orders@, side),
                it.seq() == self.orders.keys().remaining(),
                seen.finite(),
                forall|k: u64|
                    seen.contains(k) <==> exists|j: int|
                        0 <= j < it.index() && *#[trigger] it.seq()[j] == k,
                total == wrapped(seen.fold(0nat, step)),
        {
            proof {
                let all = it.seq();
                let at = it.index();
                assert(all.no_duplicates());
                assert(!seen.contains(*id)) by {
                    if seen.contains(*id) {
                        let j = choose|j: int| 0 <= j < at && *#[trigger] all[j] == *id;
                        assert(all[j] == all[at]);
                    }
                }
                vstd::set::fold::lemma_fold_insert::<u64, nat>(seen, 0nat, step, *id);
                assert(all.unref().to_set().contains(all.unref()[at]));
            }
            match self.orders.get(id) {
                Some(order) => {
                    assert(*order == self.orders@[*id]);
                    if order.side == side {
                        total = total.wrapping_add(order.quantity);
                    }
                },
                None => {},
            }
            proof {
                let before = seen;
                seen = seen.insert(*id);
                assert forall|k: u64|
                    seen.contains(k) <==> exists|j: int|
                        0 <= j < it.index() + 1 && *#[trigger] it.seq()[j] == k by {
                    if before.contains(k) {
                        let j = choose|j: int| 0 <= j < it.index() && *#[trigger] it.seq()[j] == k;
                        assert(0 <= j < it.index() + 1 && *it.seq()[j] == k);
                    }
                    if k == *id {
                        assert(*it.seq()[it.index()] == k);
                    }
                }
            }
        }
        proof {
            let all = self.orders.keys().remaining();
            assert(seen =~= self.orders@.dom()) by {
                assert forall|k: u64| seen.contains(k) <==> self.orders@.dom().contains(k) by {
                    if seen.contains(k) {
                        let j = choose|j: int| 0 <= j < all.len() && *#[trigger] all[j] == k;
                        assert(all.unref()[j] == k);
                        assert(all.unref().to_set().contains(k));
                    }
                    if self.orders@.dom().contains(k) {
                        assert(all.unref().to_set().contains(k));
                        let j = choose|j: int| 0 <= j < all.unref().len() && all.unref()[j] == k;
                        assert(*all[j] == k);
                    }
                }
            }
        }
        total
    }
}

/// The best occupied prices of a side, the best first, are what taking the
/// best price again and again gives.
pub proof fn lemma_best_first(levels: Levels, side: Side, prices: Seq<u64>, count: nat)
    requires
        is_best_first(levels, side, prices, count),
    ensures
        best_prices(levels, side, count) == prices,
    decreases count,
{
    if count == 0 {
        assert(prices =~= Seq::<u64>::empty());
    } else if prices.len() == 0 {
        assert forall|price: u64| !levels.contains_key(price) by {
            if levels.contains_key(price) {
                assert(!prices.contains(price));
            }
        }
        assert(prices =~= Seq::<u64>::empty());
    } else {
        let top = prices[0];
        let others = prices.drop_first();
        assert forall|other: u64| levels.contains_key(other) && other != top implies better(
            side,
            top,
            other,
        ) by {
            if prices.contains(other) {
                let j = choose|j: int| 0 <= j < prices.len() && prices[j] == other;
                assert(better(side, prices[0], prices[j]));
            }
        }
        match side {
            Side::Buy => {
                assert(is_highest(levels, top));
            },
            Side::Sell => {
                assert(is_lowest(levels, top));
            },
        }
        assert(best(levels, side) == Some(top));
        let rest = levels.remove(top);
        assert forall|i: int, j: int| 0 <= i < j < others.len() implies better(
            side,
            #[trigger] others[i],
            #[trigger] others[j],
        ) by {
            assert(better(side, prices[i + 1], prices[j + 1]));
        }
        assert forall|i: int| 0 <= i < others.len() implies rest.contains_key(
            #[trigger] others[i],
        ) by {
            assert(better(side, prices[0], prices[i + 1]));
            assert(levels.contains_key(prices[i + 1]));
        }
        assert forall|price: u64| #[trigger]
            rest.contains_key(price) && !others.contains(price) implies {
            &&& others.len() == count - 1
            &&& forall|i: int| 0 <= i < others.len() ==> better(side, #[trigger] others[i], price)
        } by {
            if prices.contains(price) {
                let j = choose|j: int| 0 <= j < prices.len() && prices[j] == price;
                assert(others[j - 1] == price);
            }
            assert forall|i: int| 0 <= i < others.len() implies better(
                side,
                #[trigger] others[i],
                price,
            ) by {
                assert(better(side, prices[i + 1], price));
            }
        }
        lemma_best_first(rest, side, others, (count - 1) as nat);
        assert(seq![top] + others =~= prices);
    }
}

/// A book without orders is consistent.
pub proof fn lemma_empty_consistent(symbol: Seq<char>)
    ensures
        BookView::empty(symbol).consistent(),
{
}

/// Filing an order with quantity under an identifier that is not resting
/// keeps orders and levels in agreement.
proof fn lemma_file_consistent(book: BookView, entry: OrderBookEntry)
    requires
        book.consistent(),
        !book.orders.contains_key(entry.order_id.0),
        entry.quantity > 0,
    ensures
        book.file(entry).consistent(),
{
    let after = book.file(entry);
    let id = entry.order_id;
    let old_level = resting_at(book.levels(entry.side), entry.price.0);
    lemma_push_contains(old_level, id);
    assert(!old_level.contains(id)) by {
        if old_level.contains(id) {
            let i = choose|i: int| 0 <= i < old_level.len() && old_level[i] == id;
            assert(book.level_is_sound(entry.side, entry.price.0));
            assert(book.orders.contains_key(old_level[i].0));
        }
    }
    if book.levels(entry.side).contains_key(entry.price.0) {
        assert(book.level_is_sound(entry.side, entry.price.0));
    }
    assert forall|side: Side, price: u64| #[trigger]
        after.levels(side).contains_key(price) implies after.level_is_sound(side, price)
        && after.levels(side)[price].len() > 0 by {
        let ids = after.levels(side)[price];
        if side == entry.side && price == entry.price.0 {
            assert(ids == old_level.push(id));
            assert forall|i: int| 0 <= i < ids.len() implies {
                &&& after.orders.contains_key(#[trigger] ids[i].0)
                &&& after.orders[ids[i].0].side == side
                &&& after.orders[ids[i].0].price.0 == price
            } by {
                if i < old_level.len() {
                    assert(book.orders.contains_key(old_level[i].0));
                }
            }
        } else {
            assert(book.levels(side).contains_key(price));
            assert(book.level_is_sound(side, price));
            assert(ids == book.levels(side)[price]);
            assert forall|i: int| 0 <= i < ids.len() implies {
                &&& after.orders.contains_key(#[trigger] ids[i].0)
                &&& after.orders[ids[i].0].side == side
                &&& after.orders[ids[i].0].price.0 == price
            } by {
                assert(book.orders.contains_key(ids[i].0));
            }
        }
    }
    assert forall|other: u64| #[trigger]
        after.orders.contains_key(other) implies after.order_is_filed(other) by {
        if other != id.0 {
            assert(book.orders.contains_key(other));
            assert(book.order_is_filed(other));
        }
    }
}

/// Adding an order with quantity keeps orders and levels in agreement,
/// whether its identifier is resting or not.
proof fn lemma_add_consistent(book: BookView, entry: OrderBookEntry)
    requires
        book.consistent(),
        entry.quantity > 0,
    ensures
        book.add(entry).consistent(),
{
    lemma_remove_consistent(book, entry.order_id);
    lemma_file_consistent(book.remove(entry.order_id), entry);
}

/// Taking an order out of the book keeps orders and levels in agreement.
proof fn lemma_remove_consistent(book: BookView, id: OrderId)
    requires
        book.consistent(),
    ensures
        book.remove(id).consistent(),
{
    if book.orders.contains_key(id.0) {
        let after = book.remove(id);
        let entry = book.orders[id.0];
        assert(book.order_is_filed(id.0));
        assert(entry.order_id == id);
        let old_level = book.levels(entry.side)[entry.price.0];
        assert(book.level_is_sound(entry.side, entry.price.0));
        lemma_without(old_level, id);
        let kept = without(old_level, id);
        assert forall|side: Side, price: u64| #[trigger]
            after.levels(side).contains_key(price) implies after.level_is_sound(side, price)
            && after.levels(side)[price].len() > 0 by {
            let ids = after.levels(side)[price];
            assert(book.levels(side).contains_key(price));
            assert(book.level_is_sound(side, price));
            if side == entry.side && price == entry.price.0 {
                assert(ids == kept);
                assert forall|i: int| 0 <= i < ids.len() implies {
                    &&& after.orders.contains_key(#[trigger] ids[i].0)
                    &&& after.orders[ids[i].0].side == side
                    &&& after.orders[ids[i].0].price.0 == price
                } by {
                    assert(kept.contains(ids[i]));
                    assert(old_level.contains(ids[i]) && ids[i] != id);
                    let j = choose|j: int| 0 <= j < old_level.len() && old_level[j] == ids[i];
                    assert(book.orders.contains_key(old_level[j].0));
                }
            } else {
                assert(ids == book.levels(side)[price]);
                assert forall|i: int| 0 <= i < ids.len() implies {
                    &&& after.orders.contains_key(#[trigger] ids[i].0)
                    &&& after.orders[ids[i].0].side == side
                    &&& after.orders[ids[i].0].price.0 == price
                } by {
                    assert(book.orders.contains_key(ids[i].0));
                }
            }
        }
        assert forall|other: u64| #[trigger]
            after.orders.contains_key(other) implies after.order_is_filed(other) by {
            assert(book.orders.contains_key(other));
            assert(book.order_is_filed(other));
            let resting = book.orders[other];
            if resting.side == entry.side && resting.price.0 == entry.price.0 {
                assert(old_level.contains(resting.order_id));
                assert(kept.contains(resting.order_id));
                let j = choose|j: int| 0 <= j < kept.len() && kept[j] == resting.order_id;
            }
        }
    }
}

/// An execution keeps orders and levels in agreement.
proof fn lemma_execute_consistent(book: BookView, id: OrderId, quantity: u32)
    requires
        book.consistent(),
    ensures
        book.execute(id, quantity).consistent(),
{
    let after = book.execute(id, quantity);
    if book.orders.contains_key(id.0) && book.orders[id.0].quantity >= quantity {
        if book.orders[id.0].quantity == quantity {
            lemma_remove_consistent(book, id);
        } else {
            assert forall|side: Side, price: u64| #[trigger]
                after.levels(side).contains_key(price) implies after.level_is_sound(side, price)
                && after.levels(side)[price].len() > 0 by {
                assert(book.levels(side).contains_key(price));
                assert(book.level_is_sound(side, price));
                let ids = after.levels(side)[price];
                assert forall|i: int| 0 <= i < ids.len() implies {
                    &&& after.orders.contains_key(#[trigger] ids[i].0)
                    &&& after.orders[ids[i].0].side == side
                    &&& after.orders[ids[i].0].price.0 == price
                } by {
                    assert(book.orders.contains_key(ids[i].0));
                }
            }
            assert forall|other: u64| #[trigger]
                after.orders.contains_key(other) implies after.order_is_filed(other) by {
                assert(book.orders.contains_key(other));
                assert(book.order_is_filed(other));
            }
        }
    }
}

/// Orders and levels stay in agreement under every message.
pub proof fn lemma_apply_consistent(book: BookView, message: PitchMessage)
    requires
        book.consistent(),
    ensures
        book.apply(message).consistent(),
{
    match message {
        PitchMessage::AddOrder { timestamp, order_id, side, quantity, symbol, price, pid } => {
            if symbol@ == book.symbol && quantity > 0 {
                lemma_add_consistent(
                    book,
                    OrderBookEntry { order_id, price, quantity, side, pid, timestamp },
                );
            }
        },
        PitchMessage::OrderExecuted { order_id, executed_quantity, .. } => {
            lemma_execute_consistent(book, order_id, executed_quantity);
        },
        PitchMessage::DeleteOrder { order_id, .. } => {
            lemma_remove_consistent(book, order_id);
        },
        PitchMessage::TradingStatus { .. } => {
            let after = book.apply(message);
            assert forall|side: Side, price: u64| #[trigger]
                after.levels(side).contains_key(price) implies after.level_is_sound(side, price)
                && after.levels(side)[price].len() > 0 by {
                assert(book.levels(side).contains_key(price));
                assert(book.level_is_sound(side, price));
            }
            assert forall|other: u64| #[trigger]
                after.orders.contains_key(other) implies after.order_is_filed(other) by {
                assert(book.orders.contains_key(other));
                assert(book.order_is_filed(other));
            }
        },
        _ => {},
    }
}

/// After any run of messages a book that started without orders is
/// consistent: every resting order has quantity left open and is in exactly
/// one level, that of its side and price, and no level stands without orders.
pub proof fn lemma_replay_consistent(symbol: Seq<char>, messages: Seq<PitchMessage>)
    ensures
        BookView::empty(symbol).apply_all(messages).consistent(),
    decreases messages.len(),
{
    if messages.len() > 0 {
        lemma_replay_consistent(symbol, messages.drop_last());
        lemma_apply_consistent(
            BookView::empty(symbol).apply_all(messages.drop_last()),
            messages.last(),
        );
    }
}

/// In a consistent book an identifier is found in one level only: that of
/// the side and price of the order it names, which has quantity left open.
pub proof fn lemma_one_level(book: BookView, side: Side, price: u64, i: int)
    requires
        book.consistent(),
        book.levels(side).contains_key(price),
        0 <= i < book.levels(side)[price].len(),
    ensures
        ({
            let id = book.levels(side)[price][i];
            &&& book.orders.contains_key(id.0)
            &&& book.orders[id.0].order_id == id
            &&& book.orders[id.0].side == side
            &&& book.orders[id.0].price.0 == price
            &&& book.orders[id.0].quantity > 0
        }),
{
    assert(book.level_is_sound(side, price));
    let id = book.levels(side)[price][i];
    assert(book.orders.contains_key(id.0));
    assert(book.order_is_filed(id.0));
}

/// The quantity resting in a level is at least the open quantity of each
/// order in it.
proof fn lemma_resting_quantity_covers(orders: Map<u64, OrderBookEntry>, ids: Seq<OrderId>, i: int)
    requires
        0 <= i < ids.len(),
    ensures
        resting_quantity(orders, ids) >= open_quantity(orders, ids[i]),
    decreases ids.len(),
{
    if i < ids.len() - 1 {
        lemma_resting_quantity_covers(orders, ids.drop_last(), i);
    }
}

/// In a consistent book quantity rests at every occupied price.
pub proof fn lemma_level_rests(book: BookView, side: Side, price: u64)
    requires
        book.consistent(),
        book.levels(side).contains_key(price),
    ensures
        resting_quantity(book.orders, resting_at(book.levels(side), price)) > 0,
{
    let ids = book.levels(side)[price];
    assert(book.level_is_sound(side, price));
    assert(book.orders.contains_key(ids[0].0));
    assert(book.order_is_filed(ids[0].0));
    lemma_resting_quantity_covers(book.orders, ids, 0);
}

/// The best prices of a side are occupied prices.
pub proof fn lemma_best_prices_occupied(levels: Levels, side: Side, count: nat)
    ensures
        forall|i: int|
            0 <= i < best_prices(levels, side, count).len() ==> levels.contains_key(
                #[trigger] best_prices(levels, side, count)[i],
            ),
    decreases count,
{
    if count > 0 {
        if let Some(top) = best(levels, side) {
            lemma_best_prices_occupied(levels.remove(top), side, (count - 1) as nat);
            let others = best_prices(levels.remove(top), side, (count - 1) as nat);
            assert forall|i: int|
                0 <= i < best_prices(levels, side, count).len() implies levels.contains_key(
                #[trigger] best_prices(levels, side, count)[i],
            ) by {
                if i > 0 {
                    assert(levels.remove(top).contains_key(others[i - 1]));
                }
            }
        }
    }
}

/// The depth of a consistent book reports no level without resting quantity:
/// each entry is a level that is occupied, with the quantity that rests
/// there, and that quantity is not zero.
pub proof fn lemma_depth_rests(book: BookView, side: Side, count: nat)
    requires
        book.consistent(),
    ensures
        forall|i: int|
            0 <= i < book.depth(side, count).len() ==> {
                let price = (#[trigger] book.depth(side, count)[i]).0.0;
                let resting = resting_quantity(book.orders, book.levels(side)[price]);
                &&& book.levels(side).contains_key(price)
                &&& resting > 0
                &&& book.depth(side, count)[i].1 == wrapped(resting)
                &&& resting <= u32::MAX ==> book.depth(side, count)[i].1 > 0
            },
{
    lemma_best_prices_occupied(book.levels(side), side, count);
    assert forall|i: int| 0 <= i < book.depth(side, count).len() implies {
        let price = (#[trigger] book.depth(side, count)[i]).0.0;
        let resting = resting_quantity(book.orders, book.levels(side)[price]);
        &&& book.levels(side).contains_key(price)
        &&& resting > 0
        &&& book.depth(side, count)[i].1 == wrapped(resting)
        &&& resting <= u32::MAX ==> book.depth(side, count)[i].1 > 0
    } by {
        let price = best_prices(book.levels(side), side, count)[i];
        assert(book.levels(side).contains_key(price));
        lemma_level_rests(book, side, price);
    }
}

/// Among the occupied prices up to `bound` there is a highest, if there is
/// any.
proof fn lemma_highest_below(levels: Levels, bound: u64) -> (top: u64)
    requires
        exists|price: u64| levels.contains_key(price) && price <= bound,
    ensures
        levels.contains_key(top),
        top <= bound,
        forall|other: u64| levels.contains_key(other) && other <= bound ==> other <= top,
    decreases bound,
{
    if levels.contains_key(bound) {
        bound
    } else {
        let price = choose|price: u64| levels.contains_key(price) && price <= bound;
        assert(levels.contains_key(price) && price <= (bound - 1) as u64);
        lemma_highest_below(levels, (bound - 1) as u64)
    }
}

/// Among the occupied prices from `bound` up there is a lowest, if there is
/// any.
proof fn lemma_lowest_above(levels: Levels, bound: u64) -> (bottom: u64)
    requires
        exists|price: u64| levels.contains_key(price) && price >= bound,
    ensures
        levels.contains_key(bottom),
        bottom >= bound,
        forall|other: u64| levels.contains_key(other) && other >= bound ==> other >= bottom,
    decreases u64::MAX - bound,
{
    if levels.contains_key(bound) {
        bound
    } else {
        let price = choose|price: u64| levels.contains_key(price) && price >= bound;
        assert(levels.contains_key(price) && price >= (bound + 1) as u64);
        lemma_lowest_above(levels, (bound + 1) as u64)
    }
}

/// A side has a best price exactly where one of its prices is occupied.
pub proof fn lemma_best_exists(levels: Levels, side: Side)
    ensures
        best(levels, side) is Some <==> exists|price: u64| levels.contains_key(price),
{
    if exists|price: u64| levels.contains_key(price) {
        let price = choose|price: u64| levels.contains_key(price);
        match side {
            Side::Buy => {
                assert(levels.contains_key(price) && price <= u64::MAX);
                let top = lemma_highest_below(levels, u64::MAX);
                assert(is_highest(levels, top));
            },
            Side::Sell => {
                assert(levels.contains_key(price) && price >= 0);
                let bottom = lemma_lowest_above(levels, 0);
                assert(is_lowest(levels, bottom));
            },
        }
    } else {
        assert forall|price: u64| !is_highest(levels, price) && !is_lowest(levels, price) by {
            assert(!levels.contains_key(price));
        }
    }
}

/// A set of identifiers none of which names an order of `side` adds up to
/// nothing.
proof fn lemma_total_without(orders: Map<u64, OrderBookEntry>, side: Side, ids: Set<u64>)
    requires
        ids.finite(),
        forall|id: u64| ids.contains(id) && orders.contains_key(id) ==> orders[id].side != side,
    ensures
        ids.fold(0nat, add_open_quantity(orders, side)) == 0,
    decreases ids.len(),
{
    let step = add_open_quantity(orders, side);
    if ids.len() == 0 {
        assert(ids =~= Set::<u64>::empty());
        vstd::set::fold::lemma_fold_empty::<u64, nat>(0nat, step);
    } else {
        let id = ids.choose();
        let others = ids.remove(id);
        lemma_total_without(orders, side, others);
        vstd::set::fold::lemma_fold_insert::<u64, nat>(others, 0nat, step, id);
        assert(others.insert(id) =~= ids);
    }
}

/// A set of identifiers adds up to at least the open quantity of each order
/// of `side` that it names.
proof fn lemma_total_covers(orders: Map<u64, OrderBookEntry>, side: Side, ids: Set<u64>, id: u64)
    requires
        ids.finite(),
        ids.contains(id),
        orders.contains_key(id),
        orders[id].side == side,
    ensures
        ids.fold(0nat, add_open_quantity(orders, side)) >= orders[id].quantity,
{
    let step = add_open_quantity(orders, side);
    let others = ids.remove(id);
    vstd::set::fold::lemma_fold_insert::<u64, nat>(others, 0nat, step, id);
    assert(others.insert(id) =~= ids);
}

/// In a consistent book a side has open quantity exactly where it has an
/// occupied price: no level is left behind by orders that are gone, and no
/// order rests outside the levels.
pub proof fn lemma_side_rests(book: BookView, side: Side)
    requires
        book.consistent(),
    ensures
        book.side_quantity(side) > 0 <==> best(book.levels(side), side) is Some,
        book.side_quantity(side) > 0 <==> exists|price: u64| book.levels(side).contains_key(price),
{
    let levels = book.levels(side);
    if exists|price: u64| levels.contains_key(price) {
        let price = choose|price: u64| levels.contains_key(price);
        let ids = levels[price];
        assert(book.level_is_sound(side, price));
        assert(book.orders.contains_key(ids[0].0));
        assert(book.order_is_filed(ids[0].0));
        lemma_total_covers(book.orders, side, book.orders.dom(), ids[0].0);
    } else {
        assert forall|id: u64|
            book.orders.dom().contains(id) && book.orders.contains_key(
                id,
            ) implies book.orders[id].side != side by {
            assert(book.order_is_filed(id));
        }
        lemma_total_without(book.orders, side, book.orders.dom());
    }
    lemma_best_exists(levels, side);
}

/// Two ways of adding up that agree on every element of a set give the same
/// total for the set.
proof fn lemma_totals_agree(
    elements: Set<u64>,
    first: spec_fn(nat, u64) -> nat,
    second: spec_fn(nat, u64) -> nat,
)
    requires
        elements.finite(),
        vstd::set::fold::is_fun_commutative(first),
        vstd::set::fold::is_fun_commutative(second),
        forall|total: nat, element: u64|
            elements.contains(element) ==> #[trigger] first(total, element) == second(
                total,
                element,
            ),
    ensures
        elements.fold(0nat, first) == elements.fold(0nat, second),
    decreases elements.len(),
{
    if elements.len() == 0 {
        assert(elements =~= Set::<u64>::empty());
        vstd::set::fold::lemma_fold_empty::<u64, nat>(0nat, first);
        vstd::set::fold::lemma_fold_empty::<u64, nat>(0nat, second);
    } else {
        let element = elements.choose();
        let others = elements.remove(element);
        lemma_totals_agree(others, first, second);
        vstd::set::fold::lemma_fold_insert::<u64, nat>(others, 0nat, first, element);
        vstd::set::fold::lemma_fold_insert::<u64, nat>(others, 0nat, second, element);
        assert(others.insert(element) =~= elements);
    }
}

/// The quantity resting in a level depends only on the orders that the level
/// names.
proof fn lemma_resting_agrees(
    orders: Map<u64, OrderBookEntry>,
    others: Map<u64, OrderBookEntry>,
    ids: Seq<OrderId>,
)
    requires
        forall|i: int|
            0 <= i < ids.len() ==> open_quantity(orders, #[trigger] ids[i]) == open_quantity(
                others,
                ids[i],
            ),
    ensures
        resting_quantity(orders, ids) == resting_quantity(others, ids),
    decreases ids.len(),
{
    if ids.len() > 0 {
        assert forall|i: int| 0 <= i < ids.drop_last().len() implies open_quantity(
            orders,
            #[trigger] ids.drop_last()[i],
        ) == open_quantity(others, ids.drop_last()[i]) by {
            assert(ids.drop_last()[i] == ids[i]);
        }
        lemma_resting_agrees(orders, others, ids.drop_last());
        assert(ids.last() == ids[ids.len() - 1]);
    }
}

/// When an order leaves the book, the level that held it rests its open
/// quantity less, and a level that did not hold it rests what it did.
proof fn lemma_resting_without(orders: Map<u64, OrderBookEntry>, ids: Seq<OrderId>, id: OrderId)
    requires
        ids.no_duplicates(),
    ensures
        resting_quantity(orders, ids) == resting_quantity(orders.remove(id.0), without(ids, id))
            + (if ids.contains(id) {
            open_quantity(orders, id)
        } else {
            0
        }),
    decreases ids.len(),
{
    if ids.len() > 0 {
        let front = ids.drop_last();
        let last = ids.last();
        lemma_resting_without(orders, front, id);
        lemma_push_contains(front, last);
        assert(ids =~= front.push(last));
        assert(!front.contains(last)) by {
            if front.contains(last) {
                let i = choose|i: int| 0 <= i < front.len() && front[i] == last;
                assert(ids[i] == ids[ids.len() - 1]);
            }
        }
        if last != id {
            let kept = without(front, id).push(last);
            assert(kept.drop_last() =~= without(front, id));
            assert(kept.last() == last);
            assert(open_quantity(orders.remove(id.0), last) == open_quantity(orders, last));
        }
    } else {
        assert(!ids.contains(id));
    }
}

/// In a consistent book the levels of a side hold all its open quantity and
/// nothing more: the quantities that rest at its occupied prices add up to
/// the open quantity of its orders.
pub proof fn lemma_levels_hold_all(book: BookView, side: Side)
    requires
        book.consistent(),
    ensures
        book.levels_quantity(side) == book.side_quantity(side),
    decreases book.orders.dom().len(),
{
    let levels = book.levels(side);
    let prices = levels.dom();
    let resting = add_resting_quantity(book.orders, levels);
    let open = add_open_quantity(book.orders, side);
    if book.orders.dom().len() == 0 {
        assert(book.orders.dom() =~= Set::<u64>::empty());
        assert(prices =~= Set::<u64>::empty()) by {
            assert forall|price: u64| !prices.contains(price) by {
                if levels.contains_key(price) {
                    assert(book.level_is_sound(side, price));
                    assert(book.orders.contains_key(levels[price][0].0));
                }
            }
        }
        vstd::set::fold::lemma_fold_empty::<u64, nat>(0nat, resting);
        vstd::set::fold::lemma_fold_empty::<u64, nat>(0nat, open);
    } else {
        let key = book.orders.dom().choose();
        let id = OrderId(key);
        let entry = book.orders[key];
        let after = book.remove(id);
        assert(book.order_is_filed(key));
        lemma_remove_consistent(book, id);
        assert(after.orders.dom() =~= book.orders.dom().remove(key));
        lemma_levels_hold_all(after, side);
        // the orders: all but the one that left count as before
        let open_after = add_open_quantity(after.orders, side);
        lemma_totals_agree(after.orders.dom(), open, open_after);
        vstd::set::fold::lemma_fold_insert::<u64, nat>(after.orders.dom(), 0nat, open, key);
        assert(after.orders.dom().insert(key) =~= book.orders.dom());
        // the levels: all but the one that the order left rest what they did
        let resting_after = add_resting_quantity(after.orders, after.levels(side));
        let at = entry.price.0;
        let untouched = if entry.side == side {
            prices.remove(at)
        } else {
            prices
        };
        assert forall|total: nat, price: u64| untouched.contains(price) implies #[trigger] resting(
            total,
            price,
        ) == resting_after(total, price) by {
            let ids = levels[price];
            assert(after.levels(side).contains_key(price) && after.levels(side)[price] == ids);
            assert(book.level_is_sound(side, price));
            assert forall|i: int| 0 <= i < ids.len() implies open_quantity(
                book.orders,
                #[trigger] ids[i],
            ) == open_quantity(after.orders, ids[i]) by {
                assert(book.orders.contains_key(ids[i].0));
                assert(ids[i].0 != key);
            }
            lemma_resting_agrees(book.orders, after.orders, ids);
        }
        lemma_totals_agree(untouched, resting, resting_after);
        if entry.side == side {
            let level = levels[at];
            let kept = without(level, id);
            assert(book.level_is_sound(side, at));
            lemma_resting_without(book.orders, level, id);
            vstd::set::fold::lemma_fold_insert::<u64, nat>(untouched, 0nat, resting, at);
            assert(untouched.insert(at) =~= prices);
            if kept.len() == 0 {
                assert(after.levels(side).dom() =~= untouched);
                assert(resting_quantity(after.orders, kept) == 0);
            } else {
                assert(after.levels(side).dom() =~= prices);
                vstd::set::fold::lemma_fold_insert::<u64, nat>(
                    untouched,
                    0nat,
                    resting_after,
                    at,
                );
            }
        } else {
            assert(after.levels(side) == levels);
        }
    }
}

/// What rests at listed prices does not depend on the levels at other
/// prices.
proof fn lemma_listed_agrees(
    orders: Map<u64, OrderBookEntry>,
    levels: Levels,
    others: Levels,
    prices: Seq<u64>,
)
    requires
        forall|i: int|
            0 <= i < prices.len() ==> resting_at(levels, #[trigger] prices[i]) == resting_at(
                others,
                prices[i],
            ),
    ensures
        listed_quantity(orders, levels, prices) == listed_quantity(orders, others, prices),
    decreases prices.len(),
{
    if prices.len() > 0 {
        assert forall|i: int| 0 <= i < prices.drop_first().len() implies resting_at(
            levels,
            #[trigger] prices.drop_first()[i],
        ) == resting_at(others, prices.drop_first()[i]) by {
            assert(prices.drop_first()[i] == prices[i + 1]);
        }
        lemma_listed_agrees(orders, levels, others, prices.drop_first());
    }
}

/// The best prices of a side, taken as far as they go, list every occupied
/// price once: what rests at them is what rests in all levels of the side.
pub proof fn lemma_listed_is_all(
    orders: Map<u64, OrderBookEntry>,
    levels: Levels,
    side: Side,
    count: nat,
)
    requires
        levels.dom().finite(),
        count >= levels.dom().len(),
    ensures
        listed_quantity(orders, levels, best_prices(levels, side, count)) == levels.dom().fold(
            0nat,
            add_resting_quantity(orders, levels),
        ),
    decreases count,
{
    let resting = add_resting_quantity(orders, levels);
    lemma_best_exists(levels, side);
    match best(levels, side) {
        None => {
            assert(levels.dom() =~= Set::<u64>::empty());
            vstd::set::fold::lemma_fold_empty::<u64, nat>(0nat, resting);
        },
        Some(top) => {
            assert(levels.contains_key(top));
            let rest = levels.remove(top);
            let others = best_prices(rest, side, (count - 1) as nat);
            assert(rest.dom() =~= levels.dom().remove(top));
            lemma_listed_is_all(orders, rest, side, (count - 1) as nat);
            lemma_best_prices_occupied(rest, side, (count - 1) as nat);
            assert forall|i: int| 0 <= i < others.len() implies resting_at(
                levels,
                #[trigger] others[i],
            ) == resting_at(rest, others[i]) by {
                assert(rest.contains_key(others[i]));
            }
            lemma_listed_agrees(orders, levels, rest, others);
            assert((seq![top] + others).drop_first() =~= others);
            lemma_totals_agree(rest.dom(), resting, add_resting_quantity(orders, rest));
            vstd::set::fold::lemma_fold_insert::<u64, nat>(rest.dom(), 0nat, resting, top);
            assert(rest.dom().insert(top) =~= levels.dom());
        },
    }
}

/// The depth of a consistent book, asked for as many levels as a side has,
/// accounts for all open quantity of the side: the quantities that rest at
/// the prices it lists add up to the open quantity of the side's orders.
pub proof fn lemma_depth_holds_all(book: BookView, side: Side, count: nat)
    requires
        book.consistent(),
        count >= book.levels(side).dom().len(),
    ensures
        listed_quantity(
            book.orders,
            book.levels(side),
            best_prices(book.levels(side), side, count),
        ) == book.side_quantity(side),
{
    lemma_listed_is_all(book.orders, book.levels(side), side, count);
    lemma_levels_hold_all(book, side);
}

} // verus!
