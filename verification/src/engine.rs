//! The matching engine: one incoming order against the book.

use vstd::prelude::*;
use vstd::string::StringExecFns;
use crate::book::{follows, ranks_after, stands_behind,
    book_live, book_sorted, find_order, first_at_price, insert_order, insert_resting,
    insert_pos, lemma_first_at_price, lemma_insert_keeps_sorted, lemma_insert_pos,
};
use crate::order::{
    order_views, trade_views, Order, OrderType, OrderView, State, StateView, Trade, TradeView,
    ValidationError,
};

verus! {

impl StateView {
    /// Both books are in price order and hold no order of quantity zero.
    pub open spec fn wf(self) -> bool {
        &&& book_sorted(OrderType::Bid, self.bids)
        &&& book_sorted(OrderType::Ask, self.asks)
        &&& book_live(self.bids)
        &&& book_live(self.asks)
    }

    /// This state with the book of `side` replaced by `own`, the book of the
    /// other side by `other`, and the trade log by `trades`.
    pub open spec fn with(side: OrderType, own: Seq<OrderView>, other: Seq<OrderView>, trades: Seq<
        TradeView,
    >) -> StateView {
        match side {
            OrderType::Bid => StateView { bids: own, asks: other, trades },
            OrderType::Ask => StateView { bids: other, asks: own, trades },
        }
    }
}

/// `order` with its quantity reduced by `traded`.
pub open spec fn reduced(order: OrderView, traded: u64) -> OrderView {
    OrderView { quantity: (order.quantity - traded) as u64, ..order }
}

/// The quantity exchanged when `incoming` meets `resting`.
pub open spec fn traded_quantity(resting: OrderView, incoming: OrderView) -> u64 {
    if resting.quantity <= incoming.quantity {
        resting.quantity
    } else {
        incoming.quantity
    }
}

/// The trade recorded when `incoming` meets `resting`: both orders as they
/// stood before the match, at the incoming order's price. Its identifier is
/// the resting order's identifier, a hyphen, and the incoming order's.
pub open spec fn trade_of(resting: OrderView, incoming: OrderView) -> TradeView {
    TradeView {
        id: resting.id + seq!['-'] + incoming.id,
        ask_order: if incoming.order_type == OrderType::Ask {
            incoming
        } else {
            resting
        },
        bid_order: if incoming.order_type == OrderType::Bid {
            incoming
        } else {
            resting
        },
        price: incoming.price,
        quantity: traded_quantity(resting, incoming),
    }
}

/// The opposite book after the order at position `at` has met `incoming`:
/// the resting order leaves when it is used up, and otherwise stays in place
/// with what is left of it.
pub open spec fn resting_after(book: Seq<OrderView>, at: int, incoming: OrderView) -> Seq<
    OrderView,
> {
    let traded = traded_quantity(book[at], incoming);
    if book[at].quantity > traded {
        book.update(at, reduced(book[at], traded))
    } else {
        book.remove(at)
    }
}

/// The incoming order's own book after it has met `resting`: what is left of
/// the incoming order enters the book, if anything is left.
pub open spec fn own_after(own: Seq<OrderView>, resting: OrderView, incoming: OrderView) -> Seq<
    OrderView,
> {
    let traded = traded_quantity(resting, incoming);
    if incoming.quantity > traded {
        insert_resting(incoming.order_type, own, reduced(incoming, traded))
    } else {
        own
    }
}

/// The state after `incoming` has been matched against `state`. The order
/// meets the first resting order of the other side at exactly its own price,
/// and no other; where there is none it rests in its own book.
pub open spec fn match_spec(state: StateView, incoming: OrderView) -> StateView {
    let side = incoming.order_type;
    let own = state.book(side);
    let other = state.book(side.opposite());
    match first_at_price(other, incoming.price) {
        None => StateView::with(side, insert_resting(side, own, incoming), other, state.trades),
        Some(at) => StateView::with(
            side,
            own_after(own, other[at], incoming),
            resting_after(other, at, incoming),
            state.trades.push(trade_of(other[at], incoming)),
        ),
    }
}

/// The error that an incoming order is refused with, if it is refused: its
/// price and its quantity must both be positive, and the price is looked at
/// first.
pub open spec fn validate_spec(order: OrderView) -> Option<ValidationError> {
    if order.price == 0 {
        Some(ValidationError::ZeroPrice)
    } else if order.quantity == 0 {
        Some(ValidationError::ZeroQuantity)
    } else {
        None
    }
}

/// The state after the orders of `incoming` have been matched one by one, in
/// order, or the error of the first of them that is refused.
pub open spec fn replay_spec(state: StateView, incoming: Seq<OrderView>) -> Result<
    StateView,
    ValidationError,
>
    decreases incoming.len(),
{
    if incoming.len() == 0 {
        Ok(state)
    } else {
        match replay_spec(state, incoming.drop_last()) {
            Ok(before) => match validate_spec(incoming.last()) {
                None => Ok(match_spec(before, incoming.last())),
                Some(e) => Err(e),
            },
            Err(e) => Err(e),
        }
    }
}

impl State {
    /// The empty state.
    pub fn new() -> (state: State)
        ensures
            state@.bids.len() == 0,
            state@.asks.len() == 0,
            state@.trades.len() == 0,
            state@.wf(),
    {
        State { pending_bid_orders: Vec::new(), pending_ask_orders: Vec::new(), trades: Vec::new() }
    }

    /// Tells whether both books are in price order and free of orders of
    /// quantity zero.
    pub fn is_well_formed(&self) -> (ok: bool)
        ensures
            ok == self@.wf(),
    {
        book_in_order(&self.pending_bid_orders, OrderType::Bid) && book_in_order(
            &self.pending_ask_orders,
            OrderType::Ask,
        )
    }
}

/// Tells whether a book of `side` is in price order and holds no order of
/// quantity zero.
pub fn book_in_order(orders: &Vec<Order>, side: OrderType) -> (ok: bool)
    ensures
        ok == (book_sorted(side, order_views(orders@)) && book_live(order_views(orders@))),
{
    let ghost book = order_views(orders@);
    let mut i: usize = 0;
    while i < orders.len()
        invariant
            i <= orders.len(),
            book == order_views(orders@),
            forall|j: int| 0 <= j < i ==> (#[trigger] book[j]).quantity > 0,
            forall|j: int| 0 < j < i ==> #[trigger] follows(side, book, j),
        decreases orders.len() - i,
    {
        assert(book[i as int] == orders[i as int]@);
        if orders[i].quantity == 0 {
            return false;
        }
        if i > 0 {
            assert(book[i - 1] == orders[i - 1]@);
            if stands_behind(side, orders[i - 1].price, orders[i].price) {
                assert(ranks_after(side, book[i - 1].price, book[i as int].price));
                return false;
            }
            assert(follows(side, book, i as int));
        }
        i = i + 1;
    }
    proof {
        lemma_adjacent_sorted(side, book);
    }
    true
}

/// A book in which every order may follow the one before it is sorted.
pub proof fn lemma_adjacent_sorted(side: OrderType, book: Seq<OrderView>)
    requires
        forall|j: int| 0 < j < book.len() ==> #[trigger] follows(side, book, j),
    ensures
        book_sorted(side, book),
    decreases book.len(),
{
    if book.len() > 1 {
        let front = book.drop_last();
        let n = book.len() - 1;
        assert forall|j: int| 0 < j < front.len() implies #[trigger] follows(side, front, j) by {
            assert(follows(side, book, j));
        }
        lemma_adjacent_sorted(side, front);
        assert(follows(side, book, n));
        assert forall|i: int, j: int| 0 <= i < j < book.len() implies !ranks_after(
            side,
            #[trigger] book[i].price,
            #[trigger] book[j].price,
        ) by {
            if j < n {
                assert(!ranks_after(side, front[i].price, front[j].price));
            } else if i < n - 1 {
                assert(!ranks_after(side, front[i].price, front[n - 1].price));
            }
        }
    }
}

/// Matching a valid order keeps both books in price order and free of
/// orders of quantity zero.
pub proof fn lemma_match_keeps_wf(state: StateView, incoming: OrderView)
    requires
        state.wf(),
        incoming.quantity > 0,
    ensures
        match_spec(state, incoming).wf(),
{
    let side = incoming.order_type;
    let own = state.book(side);
    let other = state.book(side.opposite());
    lemma_first_at_price(other, incoming.price);
    match first_at_price(other, incoming.price) {
        None => {
            lemma_insert_keeps_live(side, own, incoming);
        },
        Some(at) => {
            let traded = traded_quantity(other[at], incoming);
            if incoming.quantity > traded {
                lemma_insert_keeps_live(side, own, reduced(incoming, traded));
            }
            let left = resting_after(other, at, incoming);
            if other[at].quantity > traded {
                assert forall|i: int, j: int| 0 <= i < j < left.len() implies !ranks_after(
                    side.opposite(),
                    #[trigger] left[i].price,
                    #[trigger] left[j].price,
                ) by {
                    assert(left[i].price == other[i].price);
                    assert(left[j].price == other[j].price);
                }
                assert forall|i: int| 0 <= i < left.len() implies (#[trigger] left[i]).quantity
                    > 0 by {
                    if i != at {
                        assert(left[i] == other[i]);
                    }
                }
            } else {
                assert forall|i: int, j: int| 0 <= i < j < left.len() implies !ranks_after(
                    side.opposite(),
                    #[trigger] left[i].price,
                    #[trigger] left[j].price,
                ) by {
                    let bi = if i < at { i } else { i + 1 };
                    let bj = if j < at { j } else { j + 1 };
                    assert(left[i] == other[bi]);
                    assert(left[j] == other[bj]);
                }
                assert forall|i: int| 0 <= i < left.len() implies (#[trigger] left[i]).quantity
                    > 0 by {
                    let bi = if i < at { i } else { i + 1 };
                    assert(left[i] == other[bi]);
                }
            }
        },
    }
}

/// A sorted book without orders of quantity zero stays so when an order of
/// positive quantity enters it.
pub proof fn lemma_insert_keeps_live(side: OrderType, book: Seq<OrderView>, order: OrderView)
    requires
        book_sorted(side, book),
        book_live(book),
        order.quantity > 0,
    ensures
        book_sorted(side, insert_resting(side, book, order)),
        book_live(insert_resting(side, book, order)),
{
    lemma_insert_keeps_sorted(side, book, order);
    lemma_insert_pos(side, book, order.price);
    let p = insert_pos(side, book, order.price);
    let after = insert_resting(side, book, order);
    assert forall|i: int| 0 <= i < after.len() implies (#[trigger] after[i]).quantity > 0 by {
        if i < p {
            assert(after[i] == book[i]);
        } else if i > p {
            assert(after[i] == book[i - 1]);
        }
    }
}

/// Matches `new_order` against `other`, the book of the opposite side, with
/// `own` the book of its own side: at most one resting order is met, the
/// trade is appended to `trades`, and what is left of the incoming order
/// enters `own`.
pub fn process_order(
    own: &mut Vec<Order>,
    other: &mut Vec<Order>,
    trades: &mut Vec<Trade>,
    new_order: Order,
)
    requires
        book_sorted(new_order.order_type.opposite(), order_views(old(other)@)),
    ensures
        match first_at_price(order_views(old(other)@), new_order.price) {
            None => {
                &&& order_views(final(own)@) == insert_resting(
                    new_order.order_type,
                    order_views(old(own)@),
                    new_order@,
                )
                &&& order_views(final(other)@) == order_views(old(other)@)
                &&& trade_views(final(trades)@) == trade_views(old(trades)@)
            },
            Some(at) => {
                &&& order_views(final(own)@) == own_after(
                    order_views(old(own)@),
                    order_views(old(other)@)[at],
                    new_order@,
                )
                &&& order_views(final(other)@) == resting_after(
                    order_views(old(other)@),
                    at,
                    new_order@,
                )
                &&& trade_views(final(trades)@) == trade_views(old(trades)@).push(
                    trade_of(order_views(old(other)@)[at], new_order@),
                )
            },
        },
{
    let side = new_order.order_type;
    let other_side = match side {
        OrderType::Bid => OrderType::Ask,
        OrderType::Ask => OrderType::Bid,
    };
    let ghost own_before = order_views(own@);
    let ghost other_before = order_views(other@);
    let ghost trades_before = trade_views(trades@);
    let found = find_order(other, new_order.price, other_side);
    match found {
        None => {
            insert_order(own, new_order, side);
        },
        Some(index) => {
            proof {
                lemma_first_at_price(other_before, new_order.price);
            }
            let mut matched = other.remove(index);
            assert(matched@ == other_before[index as int]);
            assert(order_views(other@) =~= other_before.remove(index as int));
            let traded: u64 = if matched.quantity <= new_order.quantity {
                matched.quantity
            } else {
                new_order.quantity
            };
            let id = matched.id.clone().concat("-").concat(new_order.id.as_str());
            proof {
                reveal_strlit("-");
                assert("-"@ =~= seq!['-']);
            }
            let trade = match side {
                OrderType::Ask => Trade {
                    id,
                    ask_order: new_order.clone(),
                    bid_order: matched.clone(),
                    price: new_order.price,
                    quantity: traded,
                },
                OrderType::Bid => Trade {
                    id,
                    ask_order: matched.clone(),
                    bid_order: new_order.clone(),
                    price: new_order.price,
                    quantity: traded,
                },
            };
            assert(trade@ == trade_of(matched@, new_order@));
            trades.push(trade);
            assert(trade_views(trades@) =~= trades_before.push(trade_of(matched@, new_order@)));
            if matched.quantity > traded {
                let ghost whole = matched@;
                matched.quantity = matched.quantity - traded;
                assert(matched@ == reduced(whole, traded));
                other.insert(index, matched);
                assert(order_views(other@) =~= other_before.update(
                    index as int,
                    reduced(whole, traded),
                ));
            }
            if new_order.quantity > traded {
                let mut rest = new_order;
                rest.quantity = rest.quantity - traded;
                insert_order(own, rest, side);
            }
        },
    }
}

/// Checks an incoming order: its price and its quantity must be positive.
pub fn validate_order(order: &Order) -> (res: Result<(), ValidationError>)
    ensures
        match res {
            Ok(_) => validate_spec(order@).is_none(),
            Err(e) => validate_spec(order@) == Some(e),
        },
{
    if order.price == 0 {
        Err(ValidationError::ZeroPrice)
    } else if order.quantity == 0 {
        Err(ValidationError::ZeroQuantity)
    } else {
        Ok(())
    }
}

/// Matches one incoming order against the book. An order with a zero price
/// or a zero quantity is refused and the state is dropped; any other order
/// meets at most one resting order, at exactly its own price.
pub fn match_order(curr_state: State, new_order: Order) -> (res: Result<State, ValidationError>)
    requires
        curr_state@.wf(),
    ensures
        match res {
            Ok(next) => {
                &&& validate_spec(new_order@).is_none()
                &&& next@ == match_spec(curr_state@, new_order@)
                &&& next@.wf()
            },
            Err(e) => validate_spec(new_order@) == Some(e),
        },
{
    match validate_order(&new_order) {
        Err(e) => Err(e),
        Ok(_) => {
            proof {
                lemma_match_keeps_wf(curr_state@, new_order@);
            }
            let State { pending_bid_orders, pending_ask_orders, trades } = curr_state;
            let mut bids = pending_bid_orders;
            let mut asks = pending_ask_orders;
            let mut log = trades;
            match new_order.order_type {
                OrderType::Ask => {
                    process_order(&mut asks, &mut bids, &mut log, new_order);
                },
                OrderType::Bid => {
                    process_order(&mut bids, &mut asks, &mut log, new_order);
                },
            }
            Ok(State { pending_bid_orders: bids, pending_ask_orders: asks, trades: log })
        },
    }
}

/// Once a prefix of the orders has been refused, the whole sequence is, with
/// the same error.
pub proof fn lemma_replay_error_stays(state: StateView, incoming: Seq<OrderView>, upto: int)
    requires
        0 <= upto <= incoming.len(),
        replay_spec(state, incoming.take(upto)).is_err(),
    ensures
        replay_spec(state, incoming) == replay_spec(state, incoming.take(upto)),
    decreases incoming.len(),
{
    if upto == incoming.len() {
        assert(incoming.take(upto) =~= incoming);
    } else {
        assert(incoming.drop_last().take(upto) =~= incoming.take(upto));
        lemma_replay_error_stays(state, incoming.drop_last(), upto);
    }
}

/// Matches the orders of `incoming` one by one, in order, starting from
/// `state`, and stops at the first that is refused.
pub fn replay(state: State, incoming: &Vec<Order>) -> (res: Result<State, ValidationError>)
    requires
        state@.wf(),
    ensures
        match res {
            Ok(last) => replay_spec(state@, order_views(incoming@)) == Ok::<
                StateView,
                ValidationError,
            >(last@) && last@.wf(),
            Err(e) => replay_spec(state@, order_views(incoming@)) == Err::<
                StateView,
                ValidationError,
            >(e),
        },
{
    let ghost all = order_views(incoming@);
    let ghost start = state@;
    let mut current = state;
    let mut i: usize = 0;
    assert(all.take(0) =~= Seq::<OrderView>::empty());
    while i < incoming.len()
        invariant
            i <= incoming.len(),
            all == order_views(incoming@),
            start == state@,
            current@.wf(),
            replay_spec(start, all.take(i as int)) == Ok::<StateView, ValidationError>(current@),
        decreases incoming.len() - i,
    {
        let order = incoming[i].clone();
        proof {
            assert(all.take(i + 1).drop_last() =~= all.take(i as int));
            assert(all.take(i + 1).last() == order@);
        }
        let ghost before = current@;
        match match_order(current, order) {
            Ok(next) => {
                assert(replay_spec(start, all.take(i + 1)) == Ok::<StateView, ValidationError>(
                    match_spec(before, order@),
                ));
                current = next;
            },
            Err(e) => {
                proof {
                    assert(replay_spec(start, all.take(i + 1)) == Err::<
                        StateView,
                        ValidationError,
                    >(e));
                    lemma_replay_error_stays(start, all, i + 1);
                }
                return Err(e);
            },
        }
        i = i + 1;
    }
    assert(all.take(i as int) =~= all);
    Ok(current)
}

} // verus!
