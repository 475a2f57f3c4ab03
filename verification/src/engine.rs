//! The matching engine: one sequenced order is swept against the opposite
//! side of the book under price-time priority, execution events are emitted
//! against the resting orders it trades with, and any remainder rests.
//!
//! `match_spec` is the mathematical statement of that step; `process_order`
//! is proved to produce exactly its events and book.

use vstd::prelude::*;

use crate::book::book_contains_id;
use crate::book::lemma_best_exists;
use crate::book::lemma_best_unique;
use crate::book::lemma_level_remove_shape;
use crate::book::lemma_remove_id_absent;
use crate::book::lemma_remove_id_unique;
use crate::book::level_volume;
use crate::book::other_side;
use crate::book::price_no_worse;
use crate::book::remove_id_from_level;
use crate::book::seq_contains_id;
use crate::book::side_contains_id;
use crate::book::side_levels;
use crate::book::the_best_price;
use crate::book::view_ids_unique;
use crate::book::view_insert;
use crate::book::view_pop_head;
use crate::book::view_reduce_head;
use crate::book::view_remove;
use crate::book::wf_side_view;
use crate::book::wf_view;
use crate::book::BookView;
use crate::book::LimitOrderBook;
use crate::order::ExecuteMessage;
use crate::order::Execution;
use crate::order::OrderType;
use crate::order::OrderView;
use crate::order::RawOrder;
use crate::order::Side;

verus! {

/// What one sweep leaves behind: the events emitted against resting orders,
/// the book they left, the aggressor's unfilled remainder, and the price of
/// the last trade.
pub struct SweepResult {
    pub events: Seq<ExecuteMessage>,
    pub book: BookView,
    pub remaining: u64,
    pub last_price: u64,
}

/// Whether the aggressor trades at the opposite best price: a market order
/// always does; a limit ASK needs its price at or below the best bid, a
/// limit BID at or above the best ask.
pub open spec fn spec_crosses(aggr: OrderView, best: u64) -> bool {
    aggr.order_type == OrderType::MARKET || price_no_worse(aggr.side, aggr.price, best)
}

pub open spec fn opposite_nonempty(v: BookView, aggr_side: Side) -> bool {
    exists|p: u64| side_levels(v, other_side(aggr_side)).dom().contains(p)
}

/// Sweep the opposite side: while the aggressor has size left and the book
/// still crosses, trade against the head of the best opposite level. The
/// resting order's price sets the trade price; a trade that empties the
/// resting order is a FILL, one that leaves it resting is a PARTIAL and ends
/// the sweep.
pub open spec fn sweep(v: BookView, aggr: OrderView, remaining: u64, last: u64) -> SweepResult
    decreases remaining,
{
    let osd = other_side(aggr.side);
    let m = side_levels(v, osd);
    if remaining == 0 || !opposite_nonempty(v, aggr.side) {
        SweepResult { events: Seq::empty(), book: v, remaining, last_price: last }
    } else {
        let bp = the_best_price(m, osd);
        let top = m[bp][0];
        if !spec_crosses(aggr, bp) || top.size == 0 {
            SweepResult { events: Seq::empty(), book: v, remaining, last_price: last }
        } else if top.size > remaining {
            SweepResult {
                events: seq![
                    ExecuteMessage {
                        seq_id: top.seq_id,
                        execution: Execution::PARTIAL(bp, remaining),
                    },
                ],
                book: view_reduce_head(v, osd, bp, remaining),
                remaining: 0,
                last_price: bp,
            }
        } else {
            let ev = ExecuteMessage { seq_id: top.seq_id, execution: Execution::FILL(bp, top.size) };
            let rest = sweep(view_pop_head(v, osd, bp), aggr, (remaining - top.size) as u64, bp);
            SweepResult {
                events: seq![ev] + rest.events,
                book: rest.book,
                remaining: rest.remaining,
                last_price: rest.last_price,
            }
        }
    }
}

/// What processing one sequenced order does: sweep, then either a FILL for a
/// fully traded aggressor — carrying the last trade price and its full size —
/// or an INSERTED for a remainder that comes to rest in the book.
pub open spec fn match_spec(v: BookView, aggr: OrderView) -> (Seq<ExecuteMessage>, BookView) {
    let sr = sweep(v, aggr, aggr.size, aggr.price);
    if sr.remaining == 0 {
        (
            sr.events.push(
                ExecuteMessage {
                    seq_id: aggr.seq_id,
                    execution: Execution::FILL(sr.last_price, aggr.size),
                },
            ),
            sr.book,
        )
    } else {
        (
            sr.events.push(ExecuteMessage { seq_id: aggr.seq_id, execution: Execution::INSERTED }),
            view_insert(sr.book, OrderView { size: sr.remaining, ..aggr }),
        )
    }
}

fn opposite(side: Side) -> (r: Side)
    ensures
        r == other_side(side),
{
    match side {
        Side::ASK => Side::BID,
        Side::BID => Side::ASK,
    }
}

/// Shrinking a level's head keeps every order id where it was.
proof fn lemma_reduce_keeps_absent(v: BookView, sd: Side, bp: u64, qty: u64, id: Seq<char>)
    requires
        !book_contains_id(v, id),
        side_levels(v, sd).dom().contains(bp),
        side_levels(v, sd)[bp].len() >= 1,
    ensures
        !book_contains_id(view_reduce_head(v, sd, bp, qty), id),
{
    let w = view_reduce_head(v, sd, bp, qty);
    assert forall|sd2: Side| !(#[trigger] side_contains_id(side_levels(w, sd2), id)) by {
        if side_contains_id(side_levels(w, sd2), id) {
            let p = choose|p: u64| #[trigger]
                side_levels(w, sd2).dom().contains(p) && seq_contains_id(
                    side_levels(w, sd2)[p],
                    id,
                );
            let j = choose|j: int|
                0 <= j < side_levels(w, sd2)[p].len() && side_levels(w, sd2)[p][j].order_id == id;
            assert(side_levels(v, sd2).dom().contains(p));
            assert(side_levels(v, sd2)[p][j].order_id == id);
            assert(seq_contains_id(side_levels(v, sd2)[p], id));
            assert(side_contains_id(side_levels(v, sd2), id));
        }
    }
    assert(!side_contains_id(w.asks, id)) by {
        assert(side_levels(w, Side::ASK) == w.asks);
    }
    assert(!side_contains_id(w.bids, id)) by {
        assert(side_levels(w, Side::BID) == w.bids);
    }
}

/// Cancelling one id keeps every other id absent.
proof fn lemma_remove_keeps_absent(v: BookView, x: Seq<char>, id: Seq<char>)
    requires
        wf_view(v),
        !book_contains_id(v, id),
    ensures
        !book_contains_id(view_remove(v, x), id),
{
    let w = view_remove(v, x);
    assert forall|sd2: Side| !(#[trigger] side_contains_id(side_levels(w, sd2), id)) by {
        if side_contains_id(side_levels(w, sd2), id) {
            let p = choose|p: u64| #[trigger]
                side_levels(w, sd2).dom().contains(p) && seq_contains_id(
                    side_levels(w, sd2)[p],
                    id,
                );
            let j = choose|j: int|
                0 <= j < side_levels(w, sd2)[p].len() && side_levels(w, sd2)[p][j].order_id == id;
            assert(side_levels(v, sd2).dom().contains(p));
            lemma_level_remove_shape(v, x, sd2, p);
            let s = side_levels(v, sd2)[p];
            let t = side_levels(w, sd2)[p];
            if seq_contains_id(s, x) {
                let jr = choose|jr: int|
                    0 <= jr < s.len() && (#[trigger] s[jr]).order_id == x && t == s.remove(jr);
                let k = if j < jr {
                    j
                } else {
                    j + 1
                };
                assert(s[k].order_id == id);
                assert(seq_contains_id(s, id));
                assert(side_contains_id(side_levels(v, sd2), id));
            } else {
                assert(t == s);
                assert(seq_contains_id(s, id));
                assert(side_contains_id(side_levels(v, sd2), id));
            }
        }
    }
    assert(!side_contains_id(w.asks, id)) by {
        assert(side_levels(w, Side::ASK) == w.asks);
    }
    assert(!side_contains_id(w.bids, id)) by {
        assert(side_levels(w, Side::BID) == w.bids);
    }
}

/// Cancelling the id of the head order of a level takes out exactly that
/// head: in a well-formed book it is the only order with its id.
proof fn lemma_remove_head_is_pop(v: BookView, sd: Side, bp: u64)
    requires
        wf_view(v),
        side_levels(v, sd).dom().contains(bp),
    ensures
        view_remove(v, side_levels(v, sd)[bp][0].order_id) == view_pop_head(v, sd, bp),
{
    let id = side_levels(v, sd)[bp][0].order_id;
    let w = view_remove(v, id);
    let u = view_pop_head(v, sd, bp);
    let s = side_levels(v, sd)[bp];
    assert(s.len() >= 1);
    assert forall|k: int| 0 <= k < s.len() && k != 0 implies (#[trigger] s[k]).order_id != id by {
        if s[k].order_id == id {
            assert(side_levels(v, sd)[bp][k].order_id == side_levels(v, sd)[bp][0].order_id);
        }
    }
    lemma_remove_id_unique(s, id, 0);
    assert(s.remove(0) =~= s.drop_first());
    assert forall|sd2: Side, p: u64| #[trigger]
        side_levels(v, sd2).dom().contains(p) && !(sd2 == sd && p == bp) implies
        remove_id_from_level(side_levels(v, sd2)[p], id) == side_levels(v, sd2)[p] by {
        let s2 = side_levels(v, sd2)[p];
        assert forall|k: int| 0 <= k < s2.len() implies (#[trigger] s2[k]).order_id != id by {
            if s2[k].order_id == id {
                assert(side_levels(v, sd2)[p][k].order_id == side_levels(v, sd)[bp][0].order_id);
            }
        }
        lemma_remove_id_absent(s2, id);
    }
    assert(side_levels(w, sd) =~= side_levels(u, sd)) by {
        assert forall|p: u64| #[trigger]
            side_levels(w, sd).dom().contains(p) == side_levels(u, sd).dom().contains(p) && (
        side_levels(u, sd).dom().contains(p) ==> side_levels(w, sd)[p] == side_levels(
            u,
            sd,
        )[p]) by {
            if p == bp {
                assert(remove_id_from_level(s, id) == s.drop_first());
            }
        }
    }
    assert(side_levels(w, other_side(sd)) =~= side_levels(u, other_side(sd))) by {
        let osd = other_side(sd);
        assert forall|p: u64| #[trigger]
            side_levels(w, osd).dom().contains(p) == side_levels(u, osd).dom().contains(p) && (
        side_levels(u, osd).dom().contains(p) ==> side_levels(w, osd)[p] == side_levels(
            u,
            osd,
        )[p]) by {
            if side_levels(v, osd).dom().contains(p) {
                assert(remove_id_from_level(side_levels(v, osd)[p], id) == side_levels(
                    v,
                    osd,
                )[p]);
                assert(side_levels(v, osd)[p].len() > 0);
            }
        }
    }
    assert(w.asks =~= u.asks);
    assert(w.bids =~= u.bids);
    assert(w == u);
}

} // verus!

// ---------- the executable matching step ----------

verus! {

/// Apply one sequenced order to the book: sweep the opposite side while it
/// crosses, emit a PARTIAL or FILL against each resting order traded with,
/// and then either a FILL for a fully traded aggressor or an INSERTED for a
/// remainder that comes to rest.
pub fn process_order(book: &mut LimitOrderBook, order: RawOrder) -> (events: Vec<ExecuteMessage>)
    requires
        old(book).wf(),
        order.size >= 1,
        !book_contains_id(old(book)@, order@.order_id),
        side_levels(old(book)@, order.side).dom().contains(order.price) ==> level_volume(
            side_levels(old(book)@, order.side)[order.price],
        ) + order.size <= u64::MAX,
        old(book).spec_order_count() < usize::MAX,
    ensures
        final(book).wf(),
        events@ == match_spec(old(book)@, order@).0,
        final(book)@ == match_spec(old(book)@, order@).1,
        final(book).spec_book_id() == old(book).spec_book_id(),
{
    let ghost v0 = book@;
    let ghost o = order@;
    let ghost full = sweep(v0, o, o.size, o.price);
    let osd = opposite(order.side);
    let mut events: Vec<ExecuteMessage> = Vec::new();
    let mut remaining: u64 = order.size;
    let mut last: u64 = order.price;
    loop
        invariant
            book.wf(),
            o == order@,
            osd == other_side(o.side),
            o.size >= 1,
            remaining <= o.size,
            full == sweep(v0, o, o.size, o.price),
            sweep(book@, o, remaining, last).book == full.book,
            sweep(book@, o, remaining, last).remaining == full.remaining,
            sweep(book@, o, remaining, last).last_price == full.last_price,
            events@ + sweep(book@, o, remaining, last).events == full.events,
            side_levels(book@, o.side) == side_levels(v0, o.side),
            !book_contains_id(book@, o.order_id),
            book.spec_order_count() <= old(book).spec_order_count(),
            book.spec_book_id() == old(book).spec_book_id(),
        ensures
            book.wf(),
            sweep(book@, o, remaining, last) == (SweepResult {
                events: Seq::<ExecuteMessage>::empty(),
                book: book@,
                remaining,
                last_price: last,
            }),
            events@ == full.events,
            book@ == full.book,
            remaining == full.remaining,
            last == full.last_price,
            side_levels(book@, o.side) == side_levels(v0, o.side),
            !book_contains_id(book@, o.order_id),
            book.spec_order_count() <= old(book).spec_order_count(),
            book.spec_book_id() == old(book).spec_book_id(),
            remaining <= o.size,
        decreases remaining,
    {
        let ghost vpre = book@;
        if remaining == 0 {
            proof {
                assert(events@ + Seq::<ExecuteMessage>::empty() =~= events@);
            }
            break;
        }
        let top_opt = book.best(osd);
        match top_opt {
            None => {
                proof {
                    assert(!opposite_nonempty(vpre, o.side));
                    assert(events@ + Seq::<ExecuteMessage>::empty() =~= events@);
                }
                break;
            },
            Some(top) => {
                proof {
                    book.lemma_wf_view();
                    assert(opposite_nonempty(vpre, o.side)) by {
                        assert(side_levels(vpre, osd).dom().contains(top@.price));
                    }
                    lemma_best_exists(side_levels(vpre, osd), osd);
                    lemma_best_unique(
                        side_levels(vpre, osd),
                        osd,
                        the_best_price(side_levels(vpre, osd), osd),
                        top@.price,
                    );
                    assert(side_levels(vpre, osd)[top@.price][0].size >= 1);
                }
                let cross = match order.order_type {
                    OrderType::MARKET => true,
                    OrderType::LIMIT => match order.side {
                        Side::ASK => order.price <= top.price,
                        Side::BID => order.price >= top.price,
                    },
                };
                proof {
                    assert(cross == spec_crosses(o, top@.price));
                }
                if !cross {
                    proof {
                        assert(events@ + Seq::<ExecuteMessage>::empty() =~= events@);
                    }
                    break;
                }
                if top.size > remaining {
                    let ghost ev0 = events@;
                    let traded = remaining;
                    events.push(
                        ExecuteMessage::new(top.seq_id, Execution::PARTIAL(top.price, traded)),
                    );
                    book.reduce_best(osd, traded);
                    proof {
                        lemma_reduce_keeps_absent(vpre, osd, top@.price, traded, o.order_id);
                        let ev = ExecuteMessage {
                            seq_id: top@.seq_id,
                            execution: Execution::PARTIAL(top@.price, traded),
                        };
                        assert(sweep(vpre, o, remaining, last) == (SweepResult {
                            events: seq![ev],
                            book: book@,
                            remaining: 0u64,
                            last_price: top@.price,
                        }));
                        assert(sweep(book@, o, 0, top@.price) == (SweepResult {
                            events: Seq::<ExecuteMessage>::empty(),
                            book: book@,
                            remaining: 0u64,
                            last_price: top@.price,
                        }));
                        assert(events@ =~= ev0.push(ev));
                        assert(ev0 + seq![ev] =~= events@);
                        assert(events@ + Seq::<ExecuteMessage>::empty() =~= events@);
                        assert(side_levels(book@, o.side) =~= side_levels(vpre, o.side));
                    }
                    remaining = 0;
                    last = top.price;
                    proof {
                        assert(events@ + sweep(book@, o, remaining, last).events =~= full.events);
                    }
                    break;
                } else {
                    let ghost ev0 = events@;
                    let ghost last0 = last;
                    let traded = top.size;
                    events.push(
                        ExecuteMessage::new(top.seq_id, Execution::FILL(top.price, traded)),
                    );
                    book.remove(top.order_id);
                    remaining = remaining - traded;
                    last = top.price;
                    proof {
                        lemma_remove_head_is_pop(vpre, osd, top@.price);
                        lemma_remove_keeps_absent(vpre, top@.order_id, o.order_id);
                        let ev = ExecuteMessage {
                            seq_id: top@.seq_id,
                            execution: Execution::FILL(top@.price, traded),
                        };
                        assert(book@ == view_pop_head(vpre, osd, top@.price));
                        assert(sweep(vpre, o, (remaining + traded) as u64, last0) == (
                        SweepResult {
                            events: seq![ev] + sweep(book@, o, remaining, last).events,
                            book: sweep(book@, o, remaining, last).book,
                            remaining: sweep(book@, o, remaining, last).remaining,
                            last_price: sweep(book@, o, remaining, last).last_price,
                        })) by {
                            assert((remaining + traded) as u64 != 0);
                        }
                        assert(events@ =~= ev0.push(ev));
                        assert((ev0.push(ev)) + sweep(book@, o, remaining, last).events
                            =~= ev0 + (seq![ev] + sweep(
                            book@,
                            o,
                            remaining,
                            last,
                        ).events));
                        assert(side_levels(book@, o.side) =~= side_levels(vpre, o.side));
                    }
                }
            },
        }
    }
    if remaining == 0 {
        events.push(ExecuteMessage::new(order.seq_id, Execution::FILL(last, order.size)));
        proof {
            assert(events@ =~= match_spec(v0, o).0);
        }
        events
    } else {
        events.push(ExecuteMessage::new(order.seq_id, Execution::INSERTED));
        let rest = RawOrder {
            seq_id: order.seq_id,
            order_id: order.order_id,
            quote: order.quote,
            price: order.price,
            size: remaining,
            side: order.side,
            order_type: order.order_type,
        };
        proof {
            assert(rest@ == (OrderView { size: remaining, ..o }));
        }
        book.insert(rest);
        book.update_best(order.side);
        proof {
            assert(events@ =~= match_spec(v0, o).0);
        }
        events
    }
}

} // verus!

// ---------- conservation of size across matching ----------

verus! {

/// The quantity an execution event reports as traded.
pub open spec fn event_qty(e: ExecuteMessage) -> int {
    match e.execution {
        Execution::FILL(_p, q) => q as int,
        Execution::PARTIAL(_p, q) => q as int,
        _ => 0,
    }
}

/// The total quantity a run of events reports as traded.
pub open spec fn traded_quantity(events: Seq<ExecuteMessage>) -> int
    decreases events.len(),
{
    if events.len() == 0 {
        0
    } else {
        event_qty(events[0]) + traded_quantity(events.drop_first())
    }
}

/// The quantity a run of events reports as traded at one price.
pub open spec fn traded_at(events: Seq<ExecuteMessage>, p: u64) -> int
    decreases events.len(),
{
    if events.len() == 0 {
        0
    } else {
        (match events[0].execution {
            Execution::FILL(ep, q) => if ep == p {
                q as int
            } else {
                0
            },
            Execution::PARTIAL(ep, q) => if ep == p {
                q as int
            } else {
                0
            },
            _ => 0,
        }) + traded_at(events.drop_first(), p)
    }
}

/// The resting volume of one side at one price, zero when no level is there.
pub open spec fn lv(v: BookView, sd: Side, p: u64) -> int {
    if side_levels(v, sd).dom().contains(p) {
        level_volume(side_levels(v, sd)[p])
    } else {
        0
    }
}

/// Popping the best level's head keeps the view well-formed.
pub proof fn lemma_wf_view_pop(v: BookView, sd: Side, bp: u64)
    requires
        wf_view(v),
        side_levels(v, sd).dom().contains(bp),
    ensures
        wf_view(view_pop_head(v, sd, bp)),
{
    lemma_remove_head_is_pop(v, sd, bp);
    crate::book::lemma_view_remove_wf(v, side_levels(v, sd)[bp][0].order_id);
}

/// Shrinking a level's head order keeps the view well-formed.
pub proof fn lemma_wf_view_reduce(v: BookView, sd: Side, bp: u64, qty: u64)
    requires
        wf_view(v),
        side_levels(v, sd).dom().contains(bp),
        1 <= qty < side_levels(v, sd)[bp][0].size,
    ensures
        wf_view(view_reduce_head(v, sd, bp, qty)),
{
    let w = view_reduce_head(v, sd, bp, qty);
    let osd = other_side(sd);
    let s = side_levels(v, sd)[bp];
    let t = side_levels(w, sd)[bp];
    assert(t =~= s.update(0, OrderView { size: (s[0].size - qty) as u64, ..s[0] }));
    crate::book::lemma_level_volume_nonneg(s.drop_first());
    assert(level_volume(t) == level_volume(s) - qty) by {
        assert(t.drop_first() =~= s.drop_first());
        assert(level_volume(t) == t[0].size + level_volume(t.drop_first()));
        assert(level_volume(s) == s[0].size + level_volume(s.drop_first()));
    }
    assert forall|sd2: Side, p: u64| #[trigger]
        side_levels(w, sd2).dom().contains(p) implies side_levels(v, sd2).dom().contains(p)
        && side_levels(w, sd2)[p].len() == side_levels(v, sd2)[p].len() && (forall|j: int|
        0 <= j < side_levels(w, sd2)[p].len() ==> (#[trigger] side_levels(w, sd2)[p][j]).order_id
            == side_levels(v, sd2)[p][j].order_id && side_levels(w, sd2)[p][j].price == side_levels(
            v,
            sd2,
        )[p][j].price && side_levels(w, sd2)[p][j].side == side_levels(v, sd2)[p][j].side
            && side_levels(w, sd2)[p][j].size >= 1) by {
        if sd2 == sd && p == bp {
        } else {
            assert(side_levels(w, sd2)[p] == side_levels(v, sd2)[p]);
        }
    }
    assert forall|sd2: Side| #[trigger] wf_side_view(side_levels(w, sd2), sd2) by {
        assert(side_levels(w, sd2).dom() =~= side_levels(v, sd2).dom());
        assert forall|p: u64| #[trigger] side_levels(w, sd2).dom().contains(p) implies side_levels(
            w,
            sd2,
        )[p].len() >= 1 && level_volume(side_levels(w, sd2)[p]) <= u64::MAX by {
            if !(sd2 == sd && p == bp) {
                assert(side_levels(w, sd2)[p] == side_levels(v, sd2)[p]);
            }
        }
    }
    assert(view_ids_unique(w)) by {
        assert forall|sd1: Side, sd2: Side, p1: u64, p2: u64, j1: int, j2: int|
            (side_levels(w, sd1).dom().contains(p1) && 0 <= j1 < side_levels(w, sd1)[p1].len()
                && side_levels(w, sd2).dom().contains(p2) && 0 <= j2 < side_levels(
                w,
                sd2,
            )[p2].len() && #[trigger] side_levels(w, sd1)[p1][j1].order_id == #[trigger]
            side_levels(w, sd2)[p2][j2].order_id) implies (sd1 == sd2 && p1 == p2 && j1 == j2) by {
            assert(side_levels(w, sd1)[p1][j1].order_id == side_levels(v, sd1)[p1][j1].order_id);
            assert(side_levels(w, sd2)[p2][j2].order_id == side_levels(v, sd2)[p2][j2].order_id);
        }
    }
}

/// Law: no unit of size is created or destroyed. The events of a sweep
/// account exactly for the quantity the aggressor traded, and, price by
/// price, for the volume that left the opposite side; the aggressor's own
/// side is untouched.
pub proof fn lemma_sweep_conservation(v: BookView, aggr: OrderView, remaining: u64, last: u64)
    requires
        wf_view(v),
    ensures
        ({
            let sr = sweep(v, aggr, remaining, last);
            &&& sr.remaining <= remaining
            &&& traded_quantity(sr.events) == remaining - sr.remaining
            &&& forall|p: u64| #[trigger]
                lv(sr.book, other_side(aggr.side), p) == lv(v, other_side(aggr.side), p)
                    - traded_at(sr.events, p)
            &&& side_levels(sr.book, aggr.side) == side_levels(v, aggr.side)
            &&& wf_view(sr.book)
        }),
    decreases remaining,
{
    let osd = other_side(aggr.side);
    let m = side_levels(v, osd);
    let sr = sweep(v, aggr, remaining, last);
    if remaining == 0 || !opposite_nonempty(v, aggr.side) {
        assert(traded_quantity(sr.events) == 0);
        assert(forall|p: u64| #[trigger] traded_at(sr.events, p) == 0);
    } else {
        lemma_best_exists(m, osd);
        let bp = the_best_price(m, osd);
        let top = m[bp][0];
        if !spec_crosses(aggr, bp) || top.size == 0 {
            assert(traded_quantity(sr.events) == 0);
            assert(forall|p: u64| #[trigger] traded_at(sr.events, p) == 0);
        } else if top.size > remaining {
            let w = view_reduce_head(v, osd, bp, remaining);
            lemma_wf_view_reduce(v, osd, bp, remaining);
            let ev = ExecuteMessage {
                seq_id: top.seq_id,
                execution: Execution::PARTIAL(bp, remaining),
            };
            assert(sr.events =~= seq![ev]);
            assert(sr.events.drop_first() =~= Seq::<ExecuteMessage>::empty());
            assert(sr.events[0] == ev);
            assert(traded_quantity(sr.events.drop_first()) == 0);
            assert(traded_quantity(sr.events) == event_qty(ev));
            assert(traded_quantity(sr.events) == remaining);
            let t = side_levels(w, osd)[bp];
            let s = m[bp];
            assert(t =~= s.update(0, OrderView { size: (s[0].size - remaining) as u64, ..s[0] }));
            assert(level_volume(t) == level_volume(s) - remaining) by {
                assert(t.drop_first() =~= s.drop_first());
                assert(level_volume(t) == t[0].size + level_volume(t.drop_first()));
                assert(level_volume(s) == s[0].size + level_volume(s.drop_first()));
            }
            assert forall|p: u64| #[trigger]
                lv(sr.book, osd, p) == lv(v, osd, p) - traded_at(sr.events, p) by {
                assert(traded_at(sr.events.drop_first(), p) == 0);
                assert(traded_at(sr.events, p) == (if p == bp {
                    remaining as int
                } else {
                    0int
                }));
                if p != bp {
                    assert(side_levels(w, osd).dom().contains(p) == m.dom().contains(p));
                    if m.dom().contains(p) {
                        assert(side_levels(w, osd)[p] == m[p]);
                    }
                }
            }
            assert(side_levels(w, aggr.side) =~= side_levels(v, aggr.side));
        } else {
            let v2 = view_pop_head(v, osd, bp);
            lemma_wf_view_pop(v, osd, bp);
            let rest = sweep(v2, aggr, (remaining - top.size) as u64, bp);
            lemma_sweep_conservation(v2, aggr, (remaining - top.size) as u64, bp);
            let ev = ExecuteMessage { seq_id: top.seq_id, execution: Execution::FILL(bp, top.size) };
            assert(sr.events == seq![ev] + rest.events);
            assert(sr.events.drop_first() =~= rest.events);
            assert(sr.events[0] == ev);
            assert(traded_quantity(sr.events) == top.size + traded_quantity(rest.events));
            // the popped level loses exactly the head's size
            let s = m[bp];
            crate::book::lemma_level_volume_nonneg(s.drop_first());
            assert(level_volume(s) == s[0].size + level_volume(s.drop_first()));
            assert forall|p: u64| #[trigger]
                lv(sr.book, osd, p) == lv(v, osd, p) - traded_at(sr.events, p) by {
                assert(traded_at(sr.events.drop_first(), p) == traded_at(rest.events, p));
                assert(traded_at(sr.events, p) == (if p == bp {
                    top.size as int
                } else {
                    0int
                }) + traded_at(rest.events, p));
                assert(lv(sr.book, osd, p) == lv(v2, osd, p) - traded_at(rest.events, p));
                if p == bp {
                    if s.len() <= 1 {
                        assert(!side_levels(v2, osd).dom().contains(bp));
                        assert(lv(v2, osd, bp) == 0);
                        assert(s.drop_first() =~= Seq::<OrderView>::empty());
                        assert(level_volume(s) == s[0].size);
                    } else {
                        assert(side_levels(v2, osd)[bp] == s.drop_first());
                    }
                } else {
                    assert(side_levels(v2, osd).dom().contains(p) == m.dom().contains(p));
                    if m.dom().contains(p) {
                        assert(side_levels(v2, osd)[p] == m[p]);
                    }
                }
            }
            assert(side_levels(v2, aggr.side) =~= side_levels(v, aggr.side));
        }
    }
}

/// Law: the aggressor's own terminal event is a FILL exactly when its
/// remaining size reached zero, and an INSERTED for a resting remainder
/// otherwise; the events against resting orders account for everything the
/// aggressor traded.
pub proof fn lemma_match_events_account(v: BookView, aggr: OrderView)
    requires
        wf_view(v),
        aggr.size >= 1,
    ensures
        ({
            let sr = sweep(v, aggr, aggr.size, aggr.price);
            let (events, w) = match_spec(v, aggr);
            &&& events.len() == sr.events.len() + 1
            &&& events.last().seq_id == aggr.seq_id
            &&& (events.last().execution is FILL <==> sr.remaining == 0)
            &&& (events.last().execution is INSERTED <==> sr.remaining > 0)
            &&& traded_quantity(sr.events) == aggr.size - sr.remaining
        }),
{
    lemma_sweep_conservation(v, aggr, aggr.size, aggr.price);
}

} // verus!

// ---------- fills mark exactly the orders that empty ----------

verus! {

/// Sweeping never brings an absent order id back.
proof fn lemma_sweep_keeps_absent(v: BookView, aggr: OrderView, remaining: u64, last: u64, id: Seq<
    char,
>)
    requires
        wf_view(v),
        !book_contains_id(v, id),
    ensures
        !book_contains_id(sweep(v, aggr, remaining, last).book, id),
    decreases remaining,
{
    let osd = other_side(aggr.side);
    let m = side_levels(v, osd);
    if remaining == 0 || !opposite_nonempty(v, aggr.side) {
    } else {
        lemma_best_exists(m, osd);
        let bp = the_best_price(m, osd);
        let top = m[bp][0];
        if !spec_crosses(aggr, bp) || top.size == 0 {
        } else if top.size > remaining {
            lemma_reduce_keeps_absent(v, osd, bp, remaining, id);
        } else {
            lemma_remove_head_is_pop(v, osd, bp);
            lemma_remove_keeps_absent(v, top.order_id, id);
            lemma_wf_view_pop(v, osd, bp);
            lemma_sweep_keeps_absent(
                view_pop_head(v, osd, bp),
                aggr,
                (remaining - top.size) as u64,
                bp,
                id,
            );
        }
    }
}

/// Law, first half: every order of the swept side either still rests in
/// the book the sweep leaves, or a FILL bearing its sequence id stands
/// among the events — an order leaves only by emptying.
#[verifier::rlimit(100)]
#[verifier::spinoff_prover]
pub proof fn lemma_no_silent_removal(v: BookView, aggr: OrderView, remaining: u64, last: u64)
    requires
        wf_view(v),
    ensures
        ({
            let sr = sweep(v, aggr, remaining, last);
            let osd = other_side(aggr.side);
            forall|p: u64, j: int|
                side_levels(v, osd).dom().contains(p) && 0 <= j < side_levels(v, osd)[p].len()
                    ==> (book_contains_id(sr.book, (#[trigger] side_levels(v, osd)[p][j]).order_id)
                    || exists|i: int|
                    0 <= i < sr.events.len() && (#[trigger] sr.events[i]).seq_id == side_levels(
                        v,
                        osd,
                    )[p][j].seq_id && sr.events[i].execution is FILL)
        }),
    decreases remaining,
{
    let sr = sweep(v, aggr, remaining, last);
    let osd = other_side(aggr.side);
    let m = side_levels(v, osd);
    if remaining == 0 || !opposite_nonempty(v, aggr.side) {
        assert forall|p: u64, j: int|
            side_levels(v, osd).dom().contains(p) && 0 <= j < side_levels(v, osd)[p].len() implies (
        book_contains_id(sr.book, (#[trigger] side_levels(v, osd)[p][j]).order_id) || exists|i: int|
            0 <= i < sr.events.len() && (#[trigger] sr.events[i]).seq_id == side_levels(
                v,
                osd,
            )[p][j].seq_id && sr.events[i].execution is FILL) by {
            let o = side_levels(v, osd)[p][j];
            assert(seq_contains_id(side_levels(v, osd)[p], o.order_id));
            assert(side_contains_id(side_levels(v, osd), o.order_id));
            assert(book_contains_id(v, o.order_id));
        }
    } else {
        lemma_best_exists(m, osd);
        let bp = the_best_price(m, osd);
        let top = m[bp][0];
        if !spec_crosses(aggr, bp) || top.size == 0 {
            assert forall|p: u64, j: int|
                side_levels(v, osd).dom().contains(p) && 0 <= j < side_levels(v, osd)[p].len()
                    implies (book_contains_id(
                sr.book,
                (#[trigger] side_levels(v, osd)[p][j]).order_id,
            ) || exists|i: int|
                0 <= i < sr.events.len() && (#[trigger] sr.events[i]).seq_id == side_levels(
                    v,
                    osd,
                )[p][j].seq_id && sr.events[i].execution is FILL) by {
                let o = side_levels(v, osd)[p][j];
                assert(seq_contains_id(side_levels(v, osd)[p], o.order_id));
                assert(side_contains_id(side_levels(v, osd), o.order_id));
            }
        } else if top.size > remaining {
            let w = view_reduce_head(v, osd, bp, remaining);
            assert forall|p: u64, j: int|
                side_levels(v, osd).dom().contains(p) && 0 <= j < side_levels(v, osd)[p].len()
                    implies (book_contains_id(
                sr.book,
                (#[trigger] side_levels(v, osd)[p][j]).order_id,
            ) || exists|i: int|
                0 <= i < sr.events.len() && (#[trigger] sr.events[i]).seq_id == side_levels(
                    v,
                    osd,
                )[p][j].seq_id && sr.events[i].execution is FILL) by {
                let o = side_levels(v, osd)[p][j];
                assert(side_levels(w, osd).dom().contains(p));
                assert(side_levels(w, osd)[p][j].order_id == o.order_id);
                assert(seq_contains_id(side_levels(w, osd)[p], o.order_id));
                assert(side_contains_id(side_levels(w, osd), o.order_id));
                assert(book_contains_id(w, o.order_id)) by {
                    match osd {
                        Side::ASK => {
                            assert(side_levels(w, Side::ASK) == w.asks);
                        },
                        Side::BID => {
                            assert(side_levels(w, Side::BID) == w.bids);
                        },
                    }
                }
            }
        } else {
            let v2 = view_pop_head(v, osd, bp);
            lemma_wf_view_pop(v, osd, bp);
            let rem2 = (remaining - top.size) as u64;
            let rest = sweep(v2, aggr, rem2, bp);
            lemma_no_silent_removal(v2, aggr, rem2, bp);
            let ev = ExecuteMessage { seq_id: top.seq_id, execution: Execution::FILL(bp, top.size) };
            assert(sr.events == seq![ev] + rest.events);
            assert(sr.book == rest.book);
            assert forall|p: u64, j: int|
                side_levels(v, osd).dom().contains(p) && 0 <= j < side_levels(v, osd)[p].len()
                    implies (book_contains_id(
                sr.book,
                (#[trigger] side_levels(v, osd)[p][j]).order_id,
            ) || exists|i: int|
                0 <= i < sr.events.len() && (#[trigger] sr.events[i]).seq_id == side_levels(
                    v,
                    osd,
                )[p][j].seq_id && sr.events[i].execution is FILL) by {
                let o = side_levels(v, osd)[p][j];
                if p == bp && j == 0 {
                    assert(sr.events[0] == ev);
                    assert(sr.events[0].seq_id == o.seq_id && sr.events[0].execution is FILL);
                } else {
                    let j2 = if p == bp {
                        j - 1
                    } else {
                        j
                    };
                    assert(side_levels(v2, osd).dom().contains(p) && 0 <= j2 < side_levels(
                        v2,
                        osd,
                    )[p].len() && side_levels(v2, osd)[p][j2] == o) by {
                        if p == bp {
                            assert(side_levels(v, osd)[bp].len() > 1);
                            assert(side_levels(v2, osd)[bp] == side_levels(v, osd)[bp].drop_first());
                        }
                    }
                    if book_contains_id(rest.book, o.order_id) {
                    } else {
                        let i = choose|i: int|
                            0 <= i < rest.events.len() && (#[trigger] rest.events[i]).seq_id
                                == o.seq_id && rest.events[i].execution is FILL;
                        assert(sr.events[i + 1] == rest.events[i]);
                    }
                }
            }
        }
    }
}

/// Law, second half: every FILL among the sweep's events names a resting
/// order of the swept side whose id is gone from the book the sweep leaves —
/// a fill marks an order whose remaining size reached zero.
#[verifier::rlimit(100)]
#[verifier::spinoff_prover]
pub proof fn lemma_fill_names_removed(v: BookView, aggr: OrderView, remaining: u64, last: u64)
    requires
        wf_view(v),
    ensures
        ({
            let sr = sweep(v, aggr, remaining, last);
            let osd = other_side(aggr.side);
            forall|i: int|
                0 <= i < sr.events.len() && (#[trigger] sr.events[i]).execution is FILL
                    ==> exists|p: u64, j: int|
                    side_levels(v, osd).dom().contains(p) && 0 <= j < side_levels(v, osd)[p].len()
                        && (#[trigger] side_levels(v, osd)[p][j]).seq_id == sr.events[i].seq_id
                        && !book_contains_id(sr.book, side_levels(v, osd)[p][j].order_id)
        }),
    decreases remaining,
{
    let sr = sweep(v, aggr, remaining, last);
    let osd = other_side(aggr.side);
    let m = side_levels(v, osd);
    if remaining == 0 || !opposite_nonempty(v, aggr.side) {
    } else {
        lemma_best_exists(m, osd);
        let bp = the_best_price(m, osd);
        let top = m[bp][0];
        if !spec_crosses(aggr, bp) || top.size == 0 {
        } else if top.size > remaining {
            assert forall|i: int|
                0 <= i < sr.events.len() implies !((#[trigger] sr.events[i]).execution is FILL) by {
                assert(sr.events =~= seq![
                    ExecuteMessage {
                        seq_id: top.seq_id,
                        execution: Execution::PARTIAL(bp, remaining),
                    },
                ]);
            }
        } else {
            let v2 = view_pop_head(v, osd, bp);
            lemma_wf_view_pop(v, osd, bp);
            lemma_remove_head_is_pop(v, osd, bp);
            crate::book::lemma_view_remove_wf(v, top.order_id);
            assert(!book_contains_id(v2, top.order_id));
            let rem2 = (remaining - top.size) as u64;
            let rest = sweep(v2, aggr, rem2, bp);
            lemma_fill_names_removed(v2, aggr, rem2, bp);
            lemma_sweep_keeps_absent(v2, aggr, rem2, bp, top.order_id);
            let ev = ExecuteMessage { seq_id: top.seq_id, execution: Execution::FILL(bp, top.size) };
            assert(sr.events == seq![ev] + rest.events);
            assert(sr.book == rest.book);
            assert forall|i: int|
                0 <= i < sr.events.len() && (#[trigger] sr.events[i]).execution is FILL implies
                exists|p: u64, j: int|
                side_levels(v, osd).dom().contains(p) && 0 <= j < side_levels(v, osd)[p].len() && (
            #[trigger] side_levels(v, osd)[p][j]).seq_id == sr.events[i].seq_id
                && !book_contains_id(sr.book, side_levels(v, osd)[p][j].order_id) by {
                if i == 0 {
                    assert(side_levels(v, osd)[bp][0] == top);
                    assert(!book_contains_id(sr.book, top.order_id));
                } else {
                    assert(sr.events[i] == rest.events[i - 1]);
                    let (p2, j2) = choose|p2: u64, j2: int|
                        side_levels(v2, osd).dom().contains(p2) && 0 <= j2 < side_levels(
                            v2,
                            osd,
                        )[p2].len() && (#[trigger] side_levels(v2, osd)[p2][j2]).seq_id
                            == rest.events[i - 1].seq_id && !book_contains_id(
                            rest.book,
                            side_levels(v2, osd)[p2][j2].order_id,
                        );
                    let jv = if p2 == bp {
                        j2 + 1
                    } else {
                        j2
                    };
                    assert(side_levels(v, osd).dom().contains(p2) && 0 <= jv < side_levels(
                        v,
                        osd,
                    )[p2].len() && side_levels(v, osd)[p2][jv] == side_levels(v2, osd)[p2][j2]) by {
                        if p2 == bp {
                            assert(side_levels(v2, osd)[bp] == side_levels(
                                v,
                                osd,
                            )[bp].drop_first());
                        }
                    }
                }
            }
        }
    }
}

} // verus!
