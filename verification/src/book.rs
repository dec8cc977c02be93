//! One side of the book: its ordering rule, the search for a resting order at
//! an exact price, and the insertion of a new resting order.

use vstd::prelude::*;
use crate::order::{order_views, Order, OrderType, OrderView};

verus! {

/// Whether an order resting at `resting` stands strictly behind an order at
/// `price` in the book of `side`: bids run from the highest price down, asks
/// from the lowest price up.
pub open spec fn ranks_after(side: OrderType, resting: u64, price: u64) -> bool {
    match side {
        OrderType::Bid => resting < price,
        OrderType::Ask => resting > price,
    }
}

/// The book of `side` is in price order: no order stands before one that it
/// ranks strictly behind.
pub open spec fn book_sorted(side: OrderType, book: Seq<OrderView>) -> bool {
    forall|i: int, j: int|
        0 <= i < j < book.len() ==> !ranks_after(side, #[trigger] book[i].price, #[trigger] book[j].price)
}

/// No order in the book has quantity zero.
pub open spec fn book_live(book: Seq<OrderView>) -> bool {
    forall|i: int| 0 <= i < book.len() ==> (#[trigger] book[i]).quantity > 0
}

/// The position of the first order at exactly `price`, if there is one.
pub open spec fn first_at_price(book: Seq<OrderView>, price: u64) -> Option<int>
    decreases book.len(),
{
    if book.len() == 0 {
        None
    } else if book[0].price == price {
        Some(0)
    } else {
        match first_at_price(book.drop_first(), price) {
            Some(i) => Some(i + 1),
            None => None,
        }
    }
}

/// The position at which a new order at `price` enters the book of `side`:
/// behind every order that it does not outrank, so that among equal prices
/// the earlier arrival keeps priority.
pub open spec fn insert_pos(side: OrderType, book: Seq<OrderView>, price: u64) -> int
    decreases book.len(),
{
    if book.len() == 0 || ranks_after(side, book[0].price, price) {
        0
    } else {
        1 + insert_pos(side, book.drop_first(), price)
    }
}

/// The book of `side` after `order` has entered it.
pub open spec fn insert_resting(side: OrderType, book: Seq<OrderView>, order: OrderView) -> Seq<
    OrderView,
> {
    book.insert(insert_pos(side, book, order.price), order)
}

/// The sum of the quantities of the orders in a book.
pub open spec fn total_quantity(book: Seq<OrderView>) -> int
    decreases book.len(),
{
    if book.len() == 0 {
        0
    } else {
        total_quantity(book.drop_last()) + book.last().quantity
    }
}

/// `first_at_price` names the first position that holds the price, and names
/// none exactly when no position holds it.
pub proof fn lemma_first_at_price(book: Seq<OrderView>, price: u64)
    ensures
        match first_at_price(book, price) {
            Some(i) => 0 <= i < book.len() && book[i].price == price && forall|j: int|
                0 <= j < i ==> (#[trigger] book[j]).price != price,
            None => forall|j: int| 0 <= j < book.len() ==> (#[trigger] book[j]).price != price,
        },
    decreases book.len(),
{
    if book.len() > 0 && book[0].price != price {
        let rest = book.drop_first();
        lemma_first_at_price(rest, price);
        assert(forall|j: int| 0 <= j < rest.len() ==> rest[j] == book[j + 1]);
        match first_at_price(rest, price) {
            Some(i) => {
                assert forall|j: int| 0 <= j < i + 1 implies (#[trigger] book[j]).price
                    != price by {
                    if j > 0 {
                        assert(rest[j - 1] == book[j]);
                    }
                }
            },
            None => {
                assert forall|j: int| 0 <= j < book.len() implies (#[trigger] book[j]).price
                    != price by {
                    if j > 0 {
                        assert(rest[j - 1] == book[j]);
                    }
                }
            },
        }
    }
}

/// `insert_pos` is the first position whose order ranks strictly behind the
/// price, or the length of the book where there is none.
pub proof fn lemma_insert_pos(side: OrderType, book: Seq<OrderView>, price: u64)
    ensures
        0 <= insert_pos(side, book, price) <= book.len(),
        forall|j: int|
            0 <= j < insert_pos(side, book, price) ==> !ranks_after(
                side,
                (#[trigger] book[j]).price,
                price,
            ),
        insert_pos(side, book, price) < book.len() ==> ranks_after(
            side,
            book[insert_pos(side, book, price)].price,
            price,
        ),
    decreases book.len(),
{
    if !(book.len() == 0 || ranks_after(side, book[0].price, price)) {
        let rest = book.drop_first();
        lemma_insert_pos(side, rest, price);
        let p = insert_pos(side, rest, price);
        assert(forall|j: int| 0 <= j < rest.len() ==> rest[j] == book[j + 1]);
        assert forall|j: int| 0 <= j < p + 1 implies !ranks_after(
            side,
            (#[trigger] book[j]).price,
            price,
        ) by {
            if j > 0 {
                assert(rest[j - 1] == book[j]);
            }
        }
    }
}

/// Any position that splits the book as `insert_pos` does is `insert_pos`.
pub proof fn lemma_insert_pos_unique(side: OrderType, book: Seq<OrderView>, price: u64, p: int)
    requires
        0 <= p <= book.len(),
        forall|j: int| 0 <= j < p ==> !ranks_after(side, (#[trigger] book[j]).price, price),
        p < book.len() ==> ranks_after(side, book[p].price, price),
    ensures
        insert_pos(side, book, price) == p,
{
    lemma_insert_pos(side, book, price);
    let q = insert_pos(side, book, price);
    if q < p {
        assert(!ranks_after(side, book[q].price, price));
    }
    if p < q {
        assert(!ranks_after(side, book[p].price, price));
    }
}

/// Any position that holds the price, with none before it that does, is
/// `first_at_price`.
pub proof fn lemma_first_at_price_unique(book: Seq<OrderView>, price: u64, p: int)
    requires
        0 <= p < book.len(),
        book[p].price == price,
        forall|j: int| 0 <= j < p ==> (#[trigger] book[j]).price != price,
    ensures
        first_at_price(book, price) == Some(p),
{
    lemma_first_at_price(book, price);
    match first_at_price(book, price) {
        Some(q) => {
            if q < p {
                assert(book[q].price != price);
            }
            if p < q {
                assert(book[p].price != price);
            }
        },
        None => {
            assert(book[p].price != price);
        },
    }
}

/// A sorted book stays sorted when an order enters it at `insert_pos`.
pub proof fn lemma_insert_keeps_sorted(side: OrderType, book: Seq<OrderView>, order: OrderView)
    requires
        book_sorted(side, book),
    ensures
        book_sorted(side, insert_resting(side, book, order)),
{
    lemma_insert_pos(side, book, order.price);
    let p = insert_pos(side, book, order.price);
    let after = insert_resting(side, book, order);
    assert forall|i: int, j: int| 0 <= i < j < after.len() implies !ranks_after(
        side,
        #[trigger] after[i].price,
        #[trigger] after[j].price,
    ) by {
        if i == p {
            assert(after[j] == book[j - 1]);
            if p < j - 1 {
                assert(!ranks_after(side, book[p].price, book[j - 1].price));
            }
        } else if j == p {
            assert(after[i] == book[i]);
        } else {
            let bi = if i < p { i } else { i - 1 };
            let bj = if j < p { j } else { j - 1 };
            assert(after[i] == book[bi]);
            assert(after[j] == book[bj]);
            assert(!ranks_after(side, book[bi].price, book[bj].price));
        }
    }
}

/// Tells whether an order resting at `resting` stands strictly behind an
/// order at `price` in the book of `side`.
pub fn stands_behind(side: OrderType, resting: u64, price: u64) -> (behind: bool)
    ensures
        behind == ranks_after(side, resting, price),
{
    match side {
        OrderType::Bid => resting < price,
        OrderType::Ask => resting > price,
    }
}

/// Whether the order at position `at` of a book of `side` may follow the one
/// before it.
pub open spec fn follows(side: OrderType, book: Seq<OrderView>, at: int) -> bool {
    !ranks_after(side, book[at - 1].price, book[at].price)
}

/// Searches the book of `side` for a resting order at exactly `price`,
/// stopping as soon as the prices have passed it.
pub fn find_order(orders: &Vec<Order>, price: u64, side: OrderType) -> (found: Option<usize>)
    requires
        book_sorted(side, order_views(orders@)),
    ensures
        match found {
            Some(i) => first_at_price(order_views(orders@), price) == Some(i as int),
            None => first_at_price(order_views(orders@), price).is_none(),
        },
{
    let ghost book = order_views(orders@);
    let mut i: usize = 0;
    while i < orders.len()
        invariant
            i <= orders.len(),
            book == order_views(orders@),
            book_sorted(side, book),
            forall|j: int| 0 <= j < i ==> (#[trigger] book[j]).price != price,
        decreases orders.len() - i,
    {
        let resting: u64 = orders[i].price;
        assert(book[i as int].price == resting);
        if resting == price {
            proof {
                lemma_first_at_price_unique(book, price, i as int);
            }
            return Some(i);
        }
        if stands_behind(side, resting, price) {
            proof {
                lemma_first_at_price(book, price);
                assert forall|j: int| 0 <= j < book.len() implies (#[trigger] book[j]).price
                    != price by {
                    if j > i {
                        assert(!ranks_after(side, book[i as int].price, book[j].price));
                    }
                }
            }
            return None;
        }
        i = i + 1;
    }
    proof {
        lemma_first_at_price(book, price);
    }
    None
}

/// Puts `order` into the book of `side`, behind every resting order that it
/// does not outrank.
pub fn insert_order(book: &mut Vec<Order>, order: Order, side: OrderType)
    ensures
        order_views(final(book)@) == insert_resting(side, order_views(old(book)@), order@),
{
    let ghost before = order_views(book@);
    let mut i: usize = 0;
    while i < book.len() && !stands_behind(side, book[i].price, order.price)
        invariant
            i <= book.len(),
            before == order_views(book@),
            forall|j: int| 0 <= j < i ==> !ranks_after(side, (#[trigger] before[j]).price, order.price),
        decreases book.len() - i,
    {
        assert(before[i as int].price == book[i as int].price);
        i = i + 1;
    }
    assert(i < book.len() ==> before[i as int].price == book[i as int].price);
    proof {
        lemma_insert_pos_unique(side, before, order.price, i as int);
    }
    book.insert(i, order);
    assert(order_views(book@) =~= before.insert(i as int, order@));
}

} // verus!
