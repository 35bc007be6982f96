//! The price levels of one side of a book: for each occupied price, the
//! orders that rest there, first come first.
//!
//! The levels of a side are stored in an ordered map that is walked from its
//! lowest key up. So that the walk meets the best price first on either side,
//! asks are stored under their price and bids under the complement of theirs.

use crate::message::{OrderId, Side};
use std::collections::BTreeMap;
use vstd::prelude::*;
use vstd::std_specs::btree::*;
use vstd::std_specs::cmp::OrdSpec;
use vstd::std_specs::iter::IteratorSpec;

verus! {

/// The levels of one side: from each occupied price to the orders resting
/// at it, in order of arrival.
pub type Levels = Map<u64, Seq<OrderId>>;

/// The key that the level of `side` at `price` is stored under, and the
/// price of the level that is stored under a key: the price itself for an
/// ask, its complement for a bid.
pub open spec fn level_key(side: Side, price: u64) -> u64 {
    match side {
        Side::Buy => (u64::MAX - price) as u64,
        Side::Sell => price,
    }
}

/// The levels that the stored levels of `side` stand for.
pub open spec fn level_views(side: Side, stored: Map<u64, Vec<OrderId>>) -> Levels {
    Map::new(
        |price: u64| stored.contains_key(level_key(side, price)),
        |price: u64| stored[level_key(side, price)]@,
    )
}

/// `price` is better than `other` on `side`: higher for a bid, lower for an
/// ask.
pub open spec fn better(side: Side, price: u64, other: u64) -> bool {
    match side {
        Side::Buy => price > other,
        Side::Sell => price < other,
    }
}

/// `prices` are the best occupied prices of `side`, the best first: as many
/// as `count`, or all of them where fewer are occupied.
pub open spec fn is_best_first(levels: Levels, side: Side, prices: Seq<u64>, count: nat) -> bool {
    &&& prices.len() <= count
    &&& forall|i: int| 0 <= i < prices.len() ==> levels.contains_key(#[trigger] prices[i])
    &&& forall|i: int, j: int|
        0 <= i < j < prices.len() ==> better(side, #[trigger] prices[i], #[trigger] prices[j])
    &&& forall|price: u64| #[trigger]
        levels.contains_key(price) && !prices.contains(price) ==> {
            &&& prices.len() == count
            &&& forall|i: int| 0 <= i < prices.len() ==> better(side, #[trigger] prices[i], price)
        }
}

/// `ids` without every occurrence of `id`, the others in their order.
pub open spec fn without(ids: Seq<OrderId>, id: OrderId) -> Seq<OrderId>
    decreases ids.len(),
{
    if ids.len() == 0 {
        ids
    } else if ids.last() == id {
        without(ids.drop_last(), id)
    } else {
        without(ids.drop_last(), id).push(ids.last())
    }
}

/// The orders resting at `price`; none where the price is not occupied.
pub open spec fn resting_at(levels: Levels, price: u64) -> Seq<OrderId> {
    if levels.contains_key(price) {
        levels[price]
    } else {
        Seq::empty()
    }
}

/// The levels after `id` joined the tail of the level at `price`.
pub open spec fn appended(levels: Levels, price: u64, id: OrderId) -> Levels {
    levels.insert(price, resting_at(levels, price).push(id))
}

/// The levels after `id` left the level at `price`. A level that is left
/// without orders goes with it.
pub open spec fn dropped(levels: Levels, price: u64, id: OrderId) -> Levels {
    if !levels.contains_key(price) {
        levels
    } else if without(levels[price], id).len() == 0 {
        levels.remove(price)
    } else {
        levels.insert(price, without(levels[price], id))
    }
}

/// Strictly ascending keys.
pub open spec fn ascending(keys: Seq<u64>) -> bool {
    forall|i: int, j: int| 0 <= i < j < keys.len() ==> keys[i] < keys[j]
}

/// The key of a level, and the price of a key.
pub(crate) fn key_of(side: Side, price: u64) -> (key: u64)
    ensures
        key == level_key(side, price),
        level_key(side, key) == price,
{
    match side {
        Side::Buy => u64::MAX - price,
        Side::Sell => price,
    }
}

/// `ids` without every occurrence of `id`.
pub(crate) fn remove_id(ids: &Vec<OrderId>, id: OrderId) -> (kept: Vec<OrderId>)
    ensures
        kept@ == without(ids@, id),
{
    let mut kept: Vec<OrderId> = Vec::new();
    let mut i: usize = 0;
    while i < ids.len()
        invariant
            i <= ids@.len(),
            kept@ == without(ids@.take(i as int), id),
        decreases ids@.len() - i,
    {
        proof {
            assert(ids@.take(i + 1).drop_last() =~= ids@.take(i as int));
        }
        if ids[i].0 != id.0 {
            kept.push(ids[i]);
        }
        i = i + 1;
    }
    proof {
        assert(ids@.take(i as int) =~= ids@);
    }
    kept
}

/// Puts `id` at the tail of the level of `side` at `price`, opening the
/// level where the price was not occupied.
pub(crate) fn append_order(
    levels: &mut BTreeMap<u64, Vec<OrderId>>,
    side: Side,
    price: u64,
    id: OrderId,
)
    ensures
        level_views(side, final(levels)@) == appended(level_views(side, old(levels)@), price, id),
{
    let key = key_of(side, price);
    let mut level = match levels.remove(&key) {
        Some(level) => level,
        None => Vec::new(),
    };
    level.push(id);
    levels.insert(key, level);
    proof {
        lemma_keys_apart(side);
        assert(level_views(side, levels@) =~= appended(
            level_views(side, old(levels)@),
            price,
            id,
        ));
    }
}

/// Takes `id` out of the level of `side` at `price` and closes the level if
/// nothing rests there any more.
pub(crate) fn drop_order(
    levels: &mut BTreeMap<u64, Vec<OrderId>>,
    side: Side,
    price: u64,
    id: OrderId,
)
    ensures
        level_views(side, final(levels)@) == dropped(level_views(side, old(levels)@), price, id),
{
    let key = key_of(side, price);
    match levels.remove(&key) {
        Some(level) => {
            let kept = remove_id(&level, id);
            if kept.len() > 0 {
                levels.insert(key, kept);
            }
        },
        None => {},
    }
    proof {
        lemma_keys_apart(side);
        assert(level_views(side, levels@) =~= dropped(level_views(side, old(levels)@), price, id));
    }
}

/// The orders resting on `side` at `price`, if the price is occupied.
pub(crate) fn level_at(levels: &BTreeMap<u64, Vec<OrderId>>, side: Side, price: u64) -> (level:
    Option<&Vec<OrderId>>)
    ensures
        match level {
            Some(ids) => level_views(side, levels@).contains_key(price) && ids@ == level_views(
                side,
                levels@,
            )[price],
            None => !level_views(side, levels@).contains_key(price),
        },
{
    let key = key_of(side, price);
    levels.get(&key)
}

/// The `count` lowest keys in ascending order; all keys where there are
/// fewer.
fn first_keys(levels: &BTreeMap<u64, Vec<OrderId>>, count: usize) -> (keys: Vec<u64>)
    ensures
        keys@.len() <= count,
        ascending(keys@),
        forall|i: int| 0 <= i < keys@.len() ==> levels@.contains_key(#[trigger] keys@[i]),
        forall|key: u64| #[trigger]
            levels@.contains_key(key) && !keys@.contains(key) ==> {
                &&& keys@.len() == count
                &&& forall|i: int| 0 <= i < keys@.len() ==> #[trigger] keys@[i] < key
            },
{
    let mut keys: Vec<u64> = Vec::new();
    if count > 0 {
        for key in it: levels.keys()
            invariant_except_break
                keys@.len() == it.index(),
                keys@.len() < count,
            invariant
                it.seq() == levels.keys().remaining(),
                forall|i: int| 0 <= i < keys@.len() ==> keys@[i] == *it.seq()[i],
            ensures
                keys@.len() <= count,
                keys@.len() <= it.seq().len(),
                keys@.len() == count || keys@.len() == it.seq().len(),
        {
            keys.push(*key);
            if keys.len() == count {
                break;
            }
        }
    }
    proof {
        let all = levels.keys().remaining();
        assert(vstd::laws_cmp::obeys_cmp::<&u64>());
        axiom_increasing_seq_meaning::<&u64>(all);
        assert forall|i: int, j: int| 0 <= i < j < all.len() implies *all[i] < *all[j] by {
            assert(OrdSpec::cmp_spec(&all[i], &all[j]) is Less);
        }
        if count > 0 {
            assert forall|i: int| 0 <= i < keys@.len() implies levels@.contains_key(
                #[trigger] keys@[i],
            ) by {
                assert(all.unref()[i] == keys@[i]);
                assert(all.unref().to_set().contains(keys@[i]));
            }
            assert forall|key: u64| #[trigger]
                levels@.contains_key(key) && !keys@.contains(key) implies {
                &&& keys@.len() == count
                &&& forall|i: int| 0 <= i < keys@.len() ==> #[trigger] keys@[i] < key
            } by {
                assert(all.unref().to_set().contains(key));
                let j = choose|j: int| 0 <= j < all.unref().len() && all.unref()[j] == key;
                assert(*all[j] == key);
                if j < keys@.len() {
                    assert(keys@[j] == key);
                }
            }
        }
    }
    keys
}

/// The `count` best occupied prices of `side`, the best first; all occupied
/// prices where there are fewer.
pub(crate) fn best_prices_of(
    levels: &BTreeMap<u64, Vec<OrderId>>,
    side: Side,
    count: usize,
) -> (prices: Vec<u64>)
    ensures
        is_best_first(level_views(side, levels@), side, prices@, count as nat),
{
    let keys = first_keys(levels, count);
    let mut prices: Vec<u64> = Vec::new();
    let mut i: usize = 0;
    while i < keys.len()
        invariant
            i <= keys@.len(),
            prices@.len() == i,
            forall|j: int| 0 <= j < i ==> #[trigger] prices@[j] == level_key(side, keys@[j]),
        decreases keys@.len() - i,
    {
        prices.push(key_of(side, keys[i]));
        i = i + 1;
    }
    proof {
        lemma_keys_apart(side);
        let view = level_views(side, levels@);
        assert forall|price: u64| #[trigger]
            view.contains_key(price) && !prices@.contains(price) implies {
            &&& prices@.len() == count
            &&& forall|i: int| 0 <= i < prices@.len() ==> better(side, #[trigger] prices@[i], price)
        } by {
            let key = level_key(side, price);
            if keys@.contains(key) {
                let j = choose|j: int| 0 <= j < keys@.len() && keys@[j] == key;
                assert(prices@[j] == price);
            }
        }
    }
    prices
}

/// Keys and prices stand for each other one to one, and a lower key is a
/// better price.
pub proof fn lemma_keys_apart(side: Side)
    ensures
        forall|price: u64| level_key(side, #[trigger] level_key(side, price)) == price,
        forall|a: u64, b: u64|
            #[trigger] level_key(side, a) < #[trigger] level_key(side, b) <==> better(side, a, b),
{
}

/// What is in a sequence with one more element at its end.
pub proof fn lemma_push_contains(ids: Seq<OrderId>, last: OrderId)
    ensures
        forall|id: OrderId| #[trigger]
            ids.push(last).contains(id) <==> ids.contains(id) || id == last,
        ids.no_duplicates() && !ids.contains(last) ==> ids.push(last).no_duplicates(),
{
    let longer = ids.push(last);
    assert forall|id: OrderId| #[trigger] longer.contains(id) <==> ids.contains(id) || id
        == last by {
        if longer.contains(id) {
            let i = choose|i: int| 0 <= i < longer.len() && longer[i] == id;
            if i < ids.len() {
                assert(ids[i] == id);
            }
        }
        if ids.contains(id) {
            let i = choose|i: int| 0 <= i < ids.len() && ids[i] == id;
            assert(longer[i] == id);
        }
        if id == last {
            assert(longer[ids.len() as int] == id);
        }
    }
}

/// Taking an order out of a level leaves the others, each as often as it
/// was there, and in their order.
pub proof fn lemma_without(ids: Seq<OrderId>, id: OrderId)
    ensures
        forall|other: OrderId| #[trigger]
            without(ids, id).contains(other) <==> ids.contains(other) && other != id,
        ids.no_duplicates() ==> without(ids, id).no_duplicates(),
        without(ids, id).len() <= ids.len(),
    decreases ids.len(),
{
    if ids.len() > 0 {
        let front = ids.drop_last();
        let last = ids.last();
        lemma_without(front, id);
        lemma_push_contains(front, last);
        lemma_push_contains(without(front, id), last);
        assert(ids =~= front.push(last));
        if ids.no_duplicates() {
            assert(front.no_duplicates());
            assert(!front.contains(last)) by {
                if front.contains(last) {
                    let i = choose|i: int| 0 <= i < front.len() && front[i] == last;
                    assert(ids[i] == ids[ids.len() - 1]);
                }
            }
        }
    }
}

} // verus!
