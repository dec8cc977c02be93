//! What holds of every match: quantities are conserved, the books stay in
//! price order, and the outcome depends on the inputs alone.

use vstd::prelude::*;
use crate::book::{first_at_price, insert_pos, lemma_first_at_price, lemma_insert_pos, total_quantity};
use crate::engine::{
    lemma_match_keeps_wf, match_spec, reduced, replay_spec, traded_quantity, validate_spec,
};
use crate::order::{OrderView, StateView, TradeView};

verus! {

/// The sum of the quantities of the trades in a log.
pub open spec fn traded_total(trades: Seq<TradeView>) -> int
    decreases trades.len(),
{
    if trades.len() == 0 {
        0
    } else {
        traded_total(trades.drop_last()) + trades.last().quantity
    }
}

/// An order that enters a book adds its quantity to the book's total.
pub proof fn lemma_total_insert(book: Seq<OrderView>, at: int, order: OrderView)
    requires
        0 <= at <= book.len(),
    ensures
        total_quantity(book.insert(at, order)) == total_quantity(book) + order.quantity,
    decreases book.len(),
{
    let after = book.insert(at, order);
    if at == book.len() {
        assert(after.drop_last() =~= book);
    } else {
        assert(after.drop_last() =~= book.drop_last().insert(at, order));
        lemma_total_insert(book.drop_last(), at, order);
    }
}

/// An order that leaves a book takes its quantity off the book's total.
pub proof fn lemma_total_remove(book: Seq<OrderView>, at: int)
    requires
        0 <= at < book.len(),
    ensures
        total_quantity(book.remove(at)) == total_quantity(book) - book[at].quantity,
    decreases book.len(),
{
    let after = book.remove(at);
    if at == book.len() - 1 {
        assert(after =~= book.drop_last());
    } else {
        assert(after.drop_last() =~= book.drop_last().remove(at));
        lemma_total_remove(book.drop_last(), at);
    }
}

/// Replacing an order changes the book's total by the difference of the
/// two quantities.
pub proof fn lemma_total_update(book: Seq<OrderView>, at: int, order: OrderView)
    requires
        0 <= at < book.len(),
    ensures
        total_quantity(book.update(at, order)) == total_quantity(book) - book[at].quantity
            + order.quantity,
    decreases book.len(),
{
    let after = book.update(at, order);
    if at == book.len() - 1 {
        assert(after.drop_last() =~= book.drop_last());
    } else {
        assert(after.drop_last() =~= book.drop_last().update(at, order));
        lemma_total_update(book.drop_last(), at, order);
    }
}

/// Conservation. A match records no trade or one trade behind the log as it
/// was. The quantity of the incoming order is the quantity traded plus the
/// quantity that its own book gains, and the opposite book loses exactly
/// the quantity traded.
pub proof fn lemma_match_conserves_quantity(state: StateView, incoming: OrderView)
    ensures
        ({
            let after = match_spec(state, incoming);
            let side = incoming.order_type;
            let traded = traded_total(after.trades) - traded_total(state.trades);
            &&& after.trades == state.trades || (after.trades.len() == state.trades.len() + 1
                && after.trades.drop_last() == state.trades)
            &&& 0 <= traded <= incoming.quantity
            &&& incoming.quantity == traded + (total_quantity(after.book(side)) - total_quantity(
                state.book(side),
            ))
            &&& total_quantity(after.book(side.opposite())) == total_quantity(
                state.book(side.opposite()),
            ) - traded
        }),
{
    let after = match_spec(state, incoming);
    let side = incoming.order_type;
    let own = state.book(side);
    let other = state.book(side.opposite());
    lemma_first_at_price(other, incoming.price);
    match first_at_price(other, incoming.price) {
        None => {
            lemma_insert_pos(side, own, incoming.price);
            lemma_total_insert(own, insert_pos(side, own, incoming.price), incoming);
        },
        Some(at) => {
            let resting = other[at];
            let q = traded_quantity(resting, incoming);
            assert(after.trades.drop_last() =~= state.trades);
            assert(after.trades.last().quantity == q);
            if incoming.quantity > q {
                lemma_insert_pos(side, own, incoming.price);
                lemma_total_insert(
                    own,
                    insert_pos(side, own, incoming.price),
                    reduced(incoming, q),
                );
            }
            if resting.quantity > q {
                lemma_total_update(other, at, reduced(resting, q));
            } else {
                lemma_total_remove(other, at);
            }
        },
    }
}

/// Sort invariant. After any sequence of accepted orders, matched one by
/// one from a well-formed state, the bids run from the highest price down,
/// the asks from the lowest price up, and no book holds an order of
/// quantity zero.
pub proof fn lemma_replay_keeps_wf(state: StateView, incoming: Seq<OrderView>)
    requires
        state.wf(),
    ensures
        match replay_spec(state, incoming) {
            Ok(after) => after.wf(),
            Err(_) => true,
        },
    decreases incoming.len(),
{
    if incoming.len() > 0 {
        lemma_replay_keeps_wf(state, incoming.drop_last());
        match replay_spec(state, incoming.drop_last()) {
            Ok(before) => {
                if validate_spec(incoming.last()).is_none() {
                    lemma_match_keeps_wf(before, incoming.last());
                }
            },
            Err(_) => {},
        }
    }
}

/// Determinism. Two replays that start from equal states and take equal
/// orders in the same sequence end in equal states, or fail alike.
pub proof fn lemma_replay_deterministic(
    first: StateView,
    second: StateView,
    orders: Seq<OrderView>,
    again: Seq<OrderView>,
)
    requires
        first.bids =~= second.bids,
        first.asks =~= second.asks,
        first.trades =~= second.trades,
        orders.len() == again.len(),
        forall|i: int| 0 <= i < orders.len() ==> orders[i] == again[i],
    ensures
        replay_spec(first, orders) == replay_spec(second, again),
{
    assert(orders =~= again);
    assert(first == second);
}

} // verus!
