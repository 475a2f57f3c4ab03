//! The limit order book: per-price FIFO levels, a sorted price ladder per
//! side, hash indices for O(1) level lookup, and best-quote caches.
//!
//! The ladder is a skip map from the `skiplist` crate, held behind a small
//! trusted surface; everything else is verified against the book's view: two
//! maps from price to the FIFO sequence of resting orders at that price.

use vstd::prelude::*;
use std::collections::HashMap;

use crate::order::Order;
use crate::order::OrderView;
use crate::order::RawOrder;
use crate::order::Side;

verus! {

broadcast use vstd::std_specs::hash::group_hash_axioms;

// ---------- the price ladder, behind a trusted surface ----------

/// The sorted price ladder of one side: a skip map from the `skiplist`
/// crate, from price to arena handle. The verifier sees it only through
/// `ladder_entries` and the trusted wrappers below.
#[verifier::external_body]
pub struct PriceLadder {
    inner: skiplist::SkipMap<u64, usize>,
}

/// The entries a price ladder holds, as a map from price to level handle.
pub uninterp spec fn ladder_entries(m: PriceLadder) -> Map<u64, usize>;

/// Relies on skiplist::SkipMap::new: a freshly created map is empty.
#[verifier::external_body]
fn ladder_new() -> (r: PriceLadder)
    ensures
        forall|k: u64| !ladder_entries(r).dom().contains(k),
{
    PriceLadder { inner: skiplist::SkipMap::new() }
}

/// Relies on skiplist::SkipMap::insert: the pair is added, replacing and
/// returning the previous value at that key if there was one.
#[verifier::external_body]
fn ladder_insert(m: &mut PriceLadder, key: u64, value: usize) -> (r: Option<usize>)
    ensures
        ladder_entries(*final(m)) == ladder_entries(*old(m)).insert(key, value),
        r == (if ladder_entries(*old(m)).contains_key(key) {
            Some(ladder_entries(*old(m))[key])
        } else {
            None::<usize>
        }),
{
    m.inner.insert(key, value)
}

/// Relies on skiplist::SkipMap::remove: the entry at the key is removed and
/// its value returned; absent keys leave the map unchanged.
#[verifier::external_body]
fn ladder_remove(m: &mut PriceLadder, key: u64) -> (r: Option<usize>)
    ensures
        ladder_entries(*final(m)) == ladder_entries(*old(m)).remove(key),
        r == (if ladder_entries(*old(m)).contains_key(key) {
            Some(ladder_entries(*old(m))[key])
        } else {
            None::<usize>
        }),
{
    m.inner.remove(&key)
}

/// Relies on skiplist::SkipMap::len: the number of entries.
#[verifier::external_body]
fn ladder_len(m: &PriceLadder) -> (r: usize)
    ensures
        ladder_entries(*m).dom().finite() ==> r == ladder_entries(*m).dom().len(),
{
    m.inner.len()
}

/// Relies on skiplist::SkipMap::first_key_value: the entry with the smallest
/// key, or `None` exactly when the map is empty.
#[verifier::external_body]
fn ladder_first(m: &PriceLadder) -> (r: Option<(u64, usize)>)
    ensures
        match r {
            Some((k, v)) => ladder_entries(*m).contains_pair(k, v) && forall|k2: u64|
                ladder_entries(*m).dom().contains(k2) ==> k <= k2,
            None => forall|k2: u64| !ladder_entries(*m).dom().contains(k2),
        },
{
    match m.inner.first_key_value() {
        Some((k, v)) => Some((*k, *v)),
        None => None,
    }
}

/// Relies on skiplist::SkipMap::last_key_value: the entry with the largest
/// key, or `None` exactly when the map is empty.
#[verifier::external_body]
fn ladder_last(m: &PriceLadder) -> (r: Option<(u64, usize)>)
    ensures
        match r {
            Some((k, v)) => ladder_entries(*m).contains_pair(k, v) && forall|k2: u64|
                ladder_entries(*m).dom().contains(k2) ==> k >= k2,
            None => forall|k2: u64| !ladder_entries(*m).dom().contains(k2),
        },
{
    match m.inner.last_key_value() {
        Some((k, v)) => Some((*k, *v)),
        None => None,
    }
}

// ---------- the view: what the book abstractly is ----------

/// Abstract state of a book: per side, a map from price to the FIFO
/// sequence of resting orders at that price. Every level present is
/// non-empty.
pub struct BookView {
    pub asks: Map<u64, Seq<OrderView>>,
    pub bids: Map<u64, Seq<OrderView>>,
}

pub open spec fn view_empty() -> BookView {
    BookView { asks: Map::empty(), bids: Map::empty() }
}

pub open spec fn side_levels(v: BookView, side: Side) -> Map<u64, Seq<OrderView>> {
    match side {
        Side::ASK => v.asks,
        Side::BID => v.bids,
    }
}

/// The total size resting in one level.
pub open spec fn level_volume(s: Seq<OrderView>) -> int
    decreases s.len(),
{
    if s.len() == 0 {
        0
    } else {
        s[0].size + level_volume(s.drop_first())
    }
}

pub open spec fn seq_contains_id(s: Seq<OrderView>, id: Seq<char>) -> bool {
    exists|j: int| 0 <= j < s.len() && s[j].order_id == id
}

pub open spec fn side_contains_id(m: Map<u64, Seq<OrderView>>, id: Seq<char>) -> bool {
    exists|p: u64| #[trigger] m.dom().contains(p) && seq_contains_id(m[p], id)
}

/// Whether any resting order in the book carries this order id.
pub open spec fn book_contains_id(v: BookView, id: Seq<char>) -> bool {
    side_contains_id(v.asks, id) || side_contains_id(v.bids, id)
}

/// The book after appending one order at the tail of its price level,
/// creating the level if absent.
pub open spec fn view_insert(v: BookView, o: OrderView) -> BookView {
    let m = side_levels(v, o.side);
    let lvl = if m.dom().contains(o.price) {
        m[o.price]
    } else {
        Seq::<OrderView>::empty()
    };
    let m2 = m.insert(o.price, lvl.push(o));
    match o.side {
        Side::ASK => BookView { asks: m2, bids: v.bids },
        Side::BID => BookView { asks: v.asks, bids: m2 },
    }
}

/// One level with every order of the given id taken out, keeping arrival
/// order.
pub open spec fn remove_id_from_level(s: Seq<OrderView>, id: Seq<char>) -> Seq<OrderView>
    decreases s.len(),
{
    if s.len() == 0 {
        s
    } else if s[0].order_id == id {
        remove_id_from_level(s.drop_first(), id)
    } else {
        seq![s[0]] + remove_id_from_level(s.drop_first(), id)
    }
}

pub open spec fn side_remove_id(m: Map<u64, Seq<OrderView>>, id: Seq<char>) -> Map<
    u64,
    Seq<OrderView>,
> {
    Map::new(
        |p: u64| m.dom().contains(p) && remove_id_from_level(m[p], id).len() > 0,
        |p: u64| remove_id_from_level(m[p], id),
    )
}

/// The book after cancelling the order with this id: the order leaves its
/// level, and a level left empty leaves the book.
pub open spec fn view_remove(v: BookView, id: Seq<char>) -> BookView {
    BookView { asks: side_remove_id(v.asks, id), bids: side_remove_id(v.bids, id) }
}

/// Whether `p` is the best price of one side: the lowest ask or the highest
/// bid present.
pub open spec fn is_best_price(m: Map<u64, Seq<OrderView>>, side: Side, p: u64) -> bool {
    m.dom().contains(p) && forall|q: u64| #[trigger]
        m.dom().contains(q) ==> match side {
            Side::ASK => p <= q,
            Side::BID => p >= q,
        }
}

/// Well-formedness of one side of a view: levels are non-empty, hold only
/// orders of that side at that price with positive size, and their volume
/// fits the counter.
pub open spec fn wf_side_view(m: Map<u64, Seq<OrderView>>, side: Side) -> bool {
    &&& m.dom().finite()
    &&& forall|p: u64| #[trigger]
        m.dom().contains(p) ==> m[p].len() >= 1 && level_volume(m[p]) <= u64::MAX
    &&& forall|p: u64, j: int|
        m.dom().contains(p) && 0 <= j < m[p].len() ==> ((#[trigger] m[p][j]).price == p
            && m[p][j].side == side && m[p][j].size >= 1)
}

/// No two resting orders, across both sides, share an order id.
pub open spec fn view_ids_unique(v: BookView) -> bool {
    forall|sd1: Side, sd2: Side, p1: u64, p2: u64, j1: int, j2: int|
        #![trigger side_levels(v, sd1)[p1][j1], side_levels(v, sd2)[p2][j2]]
        (side_levels(v, sd1).dom().contains(p1) && 0 <= j1 < side_levels(v, sd1)[p1].len()
            && side_levels(v, sd2).dom().contains(p2) && 0 <= j2 < side_levels(v, sd2)[p2].len()
            && side_levels(v, sd1)[p1][j1].order_id == side_levels(v, sd2)[p2][j2].order_id) ==> (
        sd1 == sd2 && p1 == p2 && j1 == j2)
}

/// Well-formedness of a whole view.
pub open spec fn wf_view(v: BookView) -> bool {
    &&& wf_side_view(v.asks, Side::ASK)
    &&& wf_side_view(v.bids, Side::BID)
    &&& view_ids_unique(v)
}

// ---------- the concrete book ----------

/// One price level: its price, the cached total resting size, and the
/// orders in arrival (FIFO) order.
#[derive(Debug, Clone)]
pub struct Limit {
    pub price: u64,
    pub vol: u64,
    pub orders: Vec<Order>,
}

impl Limit {
    pub fn new(price: u64) -> (r: Limit)
        ensures
            r.price == price,
            r.vol == 0,
            r.orders@ == Seq::<Order>::empty(),
    {
        Limit { price, vol: 0, orders: Vec::new() }
    }
}

pub open spec fn order_views(s: Seq<Order>) -> Seq<OrderView> {
    s.map_values(|o: Order| o@)
}

/// The limit order book for one symbol.
pub struct LimitOrderBook {
    /// The symbol this book partitions the exchange by.
    pub book_id: String,
    /// Arena of levels; the ladders and hash indices hold handles into it.
    /// A slot whose level has no orders is dead and unreferenced.
    levels: Vec<Limit>,
    /// Sorted price ladder of the ASK side: price to arena handle.
    ask_list: PriceLadder,
    /// Sorted price ladder of the BID side.
    bid_list: PriceLadder,
    /// Hash index of the ASK side: price to arena handle.
    ask_map: HashMap<u64, usize>,
    /// Hash index of the BID side.
    bid_map: HashMap<u64, usize>,
    /// Arena handle of the best (lowest-price) ASK level, if any.
    best_ask: Option<usize>,
    /// Arena handle of the best (highest-price) BID level, if any.
    best_bid: Option<usize>,
    /// Number of orders resting in the book.
    n_orders: usize,
}

impl View for LimitOrderBook {
    type V = BookView;

    closed spec fn view(&self) -> BookView {
        BookView {
            asks: Map::new(
                |p: u64| self.ask_map@.contains_key(p),
                |p: u64| order_views(self.levels@[self.ask_map@[p] as int].orders@),
            ),
            bids: Map::new(
                |p: u64| self.bid_map@.contains_key(p),
                |p: u64| order_views(self.levels@[self.bid_map@[p] as int].orders@),
            ),
        }
    }
}

impl LimitOrderBook {
    spec fn side_hash(&self, side: Side) -> Map<u64, usize> {
        match side {
            Side::ASK => self.ask_map@,
            Side::BID => self.bid_map@,
        }
    }

    spec fn side_ladder(&self, side: Side) -> Map<u64, usize> {
        ladder_entries_of(*self, side)
    }

    spec fn side_best(&self, side: Side) -> Option<usize> {
        match side {
            Side::ASK => self.best_ask,
            Side::BID => self.best_bid,
        }
    }

    /// A hash-index entry points at a live arena slot holding that side's
    /// level at that price.
    spec fn wf_entry(&self, side: Side, p: u64) -> bool {
        let i = self.side_hash(side)[p] as int;
        &&& 0 <= i < self.levels@.len()
        &&& self.levels@[i].price == p
        &&& self.levels@[i].orders@.len() >= 1
        &&& self.levels@[i].orders@[0].side == side
        &&& self.levels@[i].vol == level_volume(order_views(self.levels@[i].orders@))
    }

    spec fn wf_side(&self, side: Side) -> bool {
        &&& self.side_ladder(side) == self.side_hash(side)
        &&& self.side_hash(side).dom().finite()
        &&& forall|p: u64| #[trigger] self.side_hash(side).dom().contains(p) ==> self.wf_entry(side, p)
        &&& match self.side_best(side) {
            None => forall|p: u64| !(#[trigger] self.side_hash(side).dom().contains(p)),
            Some(i) => 0 <= i < self.levels@.len() && self.side_hash(side).contains_pair(
                self.levels@[i as int].price,
                i,
            ) && is_best_price(side_levels(self@, side), side, self.levels@[i as int].price),
        }
    }

    /// A live arena slot is claimed by its side's hash index.
    spec fn wf_arena(&self) -> bool {
        forall|i: int|
            0 <= i < self.levels@.len() && (#[trigger] self.levels@[i]).orders@.len() >= 1
                ==> self.side_hash(self.levels@[i].orders@[0].side).contains_pair(
                self.levels@[i].price,
                i as usize,
            )
    }

    spec fn repr_order_count(levels: Seq<Limit>, hi: int) -> int
        decreases hi,
    {
        if hi <= 0 {
            0
        } else {
            Self::repr_order_count(levels, hi - 1) + levels[hi - 1].orders.len()
        }
    }

    /// The representation invariant of the book.
    pub closed spec fn wf(&self) -> bool {
        &&& self.wf_side(Side::ASK)
        &&& self.wf_side(Side::BID)
        &&& self.wf_arena()
        &&& wf_view(self@)
        &&& self.n_orders == Self::repr_order_count(self.levels@, self.levels@.len() as int)
    }

    /// How many orders rest in the book; tracked exactly by insert and
    /// remove.
    pub closed spec fn spec_order_count(&self) -> int {
        self.n_orders as int
    }

    /// The symbol this book serves.
    pub closed spec fn spec_book_id(&self) -> Seq<char> {
        self.book_id@
    }

    /// An empty book for the given symbol.
    pub fn new(book_id: String) -> (r: LimitOrderBook)
        ensures
            r.wf(),
            r@ == view_empty(),
            r.spec_book_id() == book_id@,
            r.spec_order_count() == 0,
    {
        let r = LimitOrderBook {
            book_id,
            levels: Vec::new(),
            ask_list: ladder_new(),
            bid_list: ladder_new(),
            ask_map: HashMap::new(),
            bid_map: HashMap::new(),
            best_ask: None,
            best_bid: None,
            n_orders: 0,
        };
        proof {
            assert(ladder_entries(r.ask_list).dom() =~= Set::<u64>::empty());
            assert(ladder_entries(r.bid_list).dom() =~= Set::<u64>::empty());
            assert(ladder_entries(r.ask_list) =~= r.ask_map@);
            assert(ladder_entries(r.bid_list) =~= r.bid_map@);
            assert(r@.asks =~= Map::<u64, Seq<OrderView>>::empty());
            assert(r@.bids =~= Map::<u64, Seq<OrderView>>::empty());
        }
        r
    }

    /// The total resting size at one price, or `None` if no level is there.
    pub fn depth(&self, side: Side, limit: u64) -> (r: Option<u64>)
        requires
            self.wf(),
        ensures
            match r {
                Some(d) => side_levels(self@, side).dom().contains(limit) && d == level_volume(
                    side_levels(self@, side)[limit],
                ),
                None => !side_levels(self@, side).dom().contains(limit),
            },
    {
        let map = match side {
            Side::ASK => &self.ask_map,
            Side::BID => &self.bid_map,
        };
        match map.get(&limit) {
            Some(i) => {
                let i = *i;
                proof {
                    assert(self.side_hash(side).dom().contains(limit));
                    assert(self.wf_entry(side, limit));
                }
                Some(self.levels[i].vol)
            },
            None => None,
        }
    }
}

} // verus!

// ---------- facts about levels and views ----------

verus! {

pub proof fn lemma_level_volume_push(s: Seq<OrderView>, o: OrderView)
    ensures
        level_volume(s.push(o)) == level_volume(s) + o.size,
    decreases s.len(),
{
    assert(s.push(o).len() == s.len() + 1);
    assert(level_volume(s.push(o)) == s.push(o)[0].size + level_volume(s.push(o).drop_first()));
    if s.len() == 0 {
        assert(s.push(o).drop_first() =~= Seq::<OrderView>::empty());
        assert(s.push(o)[0] == o);
        assert(level_volume(Seq::<OrderView>::empty()) == 0);
    } else {
        assert(s.push(o).drop_first() =~= s.drop_first().push(o));
        assert(s.push(o)[0] == s[0]);
        lemma_level_volume_push(s.drop_first(), o);
        assert(level_volume(s) == s[0].size + level_volume(s.drop_first()));
    }
}

/// Appending a fresh-id order to a well-formed book keeps it well-formed.
pub proof fn lemma_view_insert_wf(v: BookView, o: OrderView)
    requires
        wf_view(v),
        o.size >= 1,
        !book_contains_id(v, o.order_id),
        side_levels(v, o.side).dom().contains(o.price) ==> level_volume(
            side_levels(v, o.side)[o.price],
        ) + o.size <= u64::MAX,
    ensures
        wf_view(view_insert(v, o)),
{
    let w = view_insert(v, o);
    let m = side_levels(v, o.side);
    let lvl = if m.dom().contains(o.price) {
        m[o.price]
    } else {
        Seq::<OrderView>::empty()
    };
    lemma_level_volume_push(lvl, o);
    let m2 = side_levels(w, o.side);
    assert(m2 == m.insert(o.price, lvl.push(o)));
    assert(side_levels(w, other_side(o.side)) == side_levels(v, other_side(o.side)));
    // side well-formedness
    assert forall|p: u64| #[trigger] m2.dom().contains(p) implies m2[p].len() >= 1 && level_volume(
        m2[p],
    ) <= u64::MAX by {
        if p != o.price {
            assert(m.dom().contains(p));
        }
    }
    assert forall|p: u64, j: int|
        m2.dom().contains(p) && 0 <= j < m2[p].len() implies ((#[trigger] m2[p][j]).price == p
        && m2[p][j].side == o.side && m2[p][j].size >= 1) by {
        if p == o.price {
            if j < lvl.len() {
                assert(lvl[j] == m2[p][j]);
                if m.dom().contains(o.price) {
                    assert(m[p][j] == lvl[j]);
                }
            } else {
                assert(m2[p][j] == o);
            }
        } else {
            assert(m.dom().contains(p));
            assert(m[p][j] == m2[p][j]);
        }
    }
    // id uniqueness: the new order's id is fresh, everything else kept its place
    assert forall|sd1: Side, sd2: Side, p1: u64, p2: u64, j1: int, j2: int|
        (side_levels(w, sd1).dom().contains(p1) && 0 <= j1 < side_levels(w, sd1)[p1].len()
            && side_levels(w, sd2).dom().contains(p2) && 0 <= j2 < side_levels(w, sd2)[p2].len()
            && #[trigger] side_levels(w, sd1)[p1][j1].order_id == #[trigger] side_levels(
            w,
            sd2,
        )[p2][j2].order_id) implies (sd1 == sd2 && p1 == p2 && j1 == j2) by {
        let new1 = sd1 == o.side && p1 == o.price && j1 == lvl.len();
        let new2 = sd2 == o.side && p2 == o.price && j2 == lvl.len();
        if new1 && new2 {
        } else if new1 {
            assert(side_levels(w, sd1)[p1][j1] == o);
            let o2 = old_order_at(v, w, o, lvl, sd2, p2, j2);
            assert(false);
        } else if new2 {
            assert(side_levels(w, sd2)[p2][j2] == o);
            let o1 = old_order_at(v, w, o, lvl, sd1, p1, j1);
            assert(false);
        } else {
            let o1 = old_order_at(v, w, o, lvl, sd1, p1, j1);
            let o2 = old_order_at(v, w, o, lvl, sd2, p2, j2);
        }
    }
}

spec fn ladder_entries_of(b: LimitOrderBook, side: Side) -> Map<u64, usize> {
    match side {
        Side::ASK => ladder_entries(b.ask_list),
        Side::BID => ladder_entries(b.bid_list),
    }
}

/// Whether `a` is a strictly better price than `b` on this side.
pub open spec fn strictly_better(side: Side, a: u64, b: u64) -> bool {
    match side {
        Side::ASK => a < b,
        Side::BID => a > b,
    }
}

pub open spec fn other_side(s: Side) -> Side {
    match s {
        Side::ASK => Side::BID,
        Side::BID => Side::ASK,
    }
}

/// In `w == view_insert(v, o)`, any position other than the appended slot
/// shows the order `v` already had there.
proof fn old_order_at(
    v: BookView,
    w: BookView,
    o: OrderView,
    lvl: Seq<OrderView>,
    sd: Side,
    p: u64,
    j: int,
) -> (r: OrderView)
    requires
        wf_view(v),
        w == view_insert(v, o),
        lvl == (if side_levels(v, o.side).dom().contains(o.price) {
            side_levels(v, o.side)[o.price]
        } else {
            Seq::<OrderView>::empty()
        }),
        side_levels(w, sd).dom().contains(p),
        0 <= j < side_levels(w, sd)[p].len(),
        !(sd == o.side && p == o.price && j == lvl.len()),
        !book_contains_id(v, o.order_id),
    ensures
        side_levels(v, sd).dom().contains(p),
        0 <= j < side_levels(v, sd)[p].len(),
        side_levels(v, sd)[p][j] == side_levels(w, sd)[p][j],
        r == side_levels(v, sd)[p][j],
        r.order_id != o.order_id,
{
    let m = side_levels(v, o.side);
    if sd == o.side && p == o.price {
        assert(side_levels(w, sd)[p] == lvl.push(o));
        assert(j < lvl.len());
        assert(m.dom().contains(o.price));
    }
    let r = side_levels(v, sd)[p][j];
    if r.order_id == o.order_id {
        assert(seq_contains_id(side_levels(v, sd)[p], o.order_id));
        assert(side_contains_id(side_levels(v, sd), o.order_id));
        assert(book_contains_id(v, o.order_id));
    }
    r
}

} // verus!

// ---------- insertion ----------

verus! {

impl LimitOrderBook {
    /// Place the order at the tail of its price level, creating the level
    /// if absent; a first order on a side, or one at a strictly better
    /// price, becomes the best quote of its side.
    pub fn insert(&mut self, raw_order: RawOrder)
        requires
            old(self).wf(),
            raw_order.size >= 1,
            !book_contains_id(old(self)@, raw_order@.order_id),
            side_levels(old(self)@, raw_order.side).dom().contains(raw_order.price)
                ==> level_volume(side_levels(old(self)@, raw_order.side)[raw_order.price])
                + raw_order.size <= u64::MAX,
            old(self).spec_order_count() < usize::MAX,
        ensures
            final(self).wf(),
            final(self)@ == view_insert(old(self)@, raw_order@),
            final(self).spec_book_id() == old(self).spec_book_id(),
            final(self).spec_order_count() == old(self).spec_order_count() + 1,
    {
        let ghost o = raw_order@;
        let ghost b0 = *self;
        let ghost v0 = self@;
        proof {
            lemma_view_insert_wf(v0, o);
        }
        let price = raw_order.price;
        let size = raw_order.size;
        let side = raw_order.side;
        let order = Order::from(raw_order);
        match side {
            Side::ASK => {
                let existing: Option<usize> = match self.ask_map.get(&price) {
                    Some(i) => Some(*i),
                    None => None,
                };
                match existing {
                    Some(i) => {
                        proof {
                            assert(self.side_hash(Side::ASK).dom().contains(price));
                            assert(self.wf_entry(Side::ASK, price));
                            assert(v0.asks[price] == order_views(self.levels@[i as int].orders@));
                            lemma_level_volume_push(
                                order_views(self.levels@[i as int].orders@),
                                o,
                            );
                        }
                        let mut l = Limit::new(0);
                        core::mem::swap(&mut l, &mut self.levels[i]);
                        l.vol = l.vol + size;
                        l.orders.push(order);
                        self.levels[i] = l;
                        self.n_orders = self.n_orders + 1;
                        proof {
                            assert(order@ == o);
                            assert(self.levels@ =~= b0.levels@.update(
                                i as int,
                                self.levels@[i as int],
                            ));
                            assert(order_views(self.levels@[i as int].orders@) =~= order_views(
                                b0.levels@[i as int].orders@,
                            ).push(o));
                            assert(b0.levels@[i as int].orders@.len() >= 1);
                            assert(self.levels@[i as int].orders@[0] == b0.levels@[i as
                                int].orders@[0]);
                            Self::lemma_insert_existing(b0, *self, o, i as int);
                        }
                    },
                    None => {
                        let idx = self.levels.len();
                        let mut lim = Limit::new(price);
                        lim.vol = size;
                        lim.orders.push(order);
                        self.levels.push(lim);
                        ladder_insert(&mut self.ask_list, price, idx);
                        self.ask_map.insert(price, idx);
                        match self.best_ask {
                            None => {
                                self.best_ask = Some(idx);
                            },
                            Some(b) => {
                                if price < self.levels[b].price {
                                    self.best_ask = Some(idx);
                                }
                            },
                        }
                        self.n_orders = self.n_orders + 1;
                        proof {
                            assert(order@ == o);
                            assert(self.levels@ =~= b0.levels@.push(self.levels@[idx as int]));
                            assert(order_views(self.levels@[idx as int].orders@) =~= seq![o]);
                            Self::lemma_insert_fresh(b0, *self, o, idx as int);
                        }
                    },
                }
            },
            Side::BID => {
                let existing: Option<usize> = match self.bid_map.get(&price) {
                    Some(i) => Some(*i),
                    None => None,
                };
                match existing {
                    Some(i) => {
                        proof {
                            assert(self.side_hash(Side::BID).dom().contains(price));
                            assert(self.wf_entry(Side::BID, price));
                            assert(v0.bids[price] == order_views(self.levels@[i as int].orders@));
                            lemma_level_volume_push(
                                order_views(self.levels@[i as int].orders@),
                                o,
                            );
                        }
                        let mut l = Limit::new(0);
                        core::mem::swap(&mut l, &mut self.levels[i]);
                        l.vol = l.vol + size;
                        l.orders.push(order);
                        self.levels[i] = l;
                        self.n_orders = self.n_orders + 1;
                        proof {
                            assert(order@ == o);
                            assert(self.levels@ =~= b0.levels@.update(
                                i as int,
                                self.levels@[i as int],
                            ));
                            assert(order_views(self.levels@[i as int].orders@) =~= order_views(
                                b0.levels@[i as int].orders@,
                            ).push(o));
                            assert(b0.levels@[i as int].orders@.len() >= 1);
                            assert(self.levels@[i as int].orders@[0] == b0.levels@[i as
                                int].orders@[0]);
                            Self::lemma_insert_existing(b0, *self, o, i as int);
                        }
                    },
                    None => {
                        let idx = self.levels.len();
                        let mut lim = Limit::new(price);
                        lim.vol = size;
                        lim.orders.push(order);
                        self.levels.push(lim);
                        ladder_insert(&mut self.bid_list, price, idx);
                        self.bid_map.insert(price, idx);
                        match self.best_bid {
                            None => {
                                self.best_bid = Some(idx);
                            },
                            Some(b) => {
                                if price > self.levels[b].price {
                                    self.best_bid = Some(idx);
                                }
                            },
                        }
                        self.n_orders = self.n_orders + 1;
                        proof {
                            assert(order@ == o);
                            assert(self.levels@ =~= b0.levels@.push(self.levels@[idx as int]));
                            assert(order_views(self.levels@[idx as int].orders@) =~= seq![o]);
                            Self::lemma_insert_fresh(b0, *self, o, idx as int);
                        }
                    },
                }
            },
        }
    }

    /// After pushing onto an existing level's slot, the book is the old
    /// view with the order appended, and well-formed.
    proof fn lemma_insert_existing(b0: LimitOrderBook, b1: LimitOrderBook, o: OrderView, i: int)
        requires
            b0.wf(),
            o.size >= 1,
            !book_contains_id(b0@, o.order_id),
            b0.side_hash(o.side).dom().contains(o.price),
            i == b0.side_hash(o.side)[o.price] as int,
            level_volume(side_levels(b0@, o.side)[o.price]) + o.size <= u64::MAX,
            b1.levels@.len() == b0.levels@.len(),
            b1.levels@ == b0.levels@.update(i, b1.levels@[i]),
            b1.levels@[i].price == o.price,
            order_views(b1.levels@[i].orders@) == order_views(b0.levels@[i].orders@).push(o),
            b1.levels@[i].orders@[0].side == o.side,
            b1.levels@[i].vol == b0.levels@[i].vol + o.size,
            b1.ask_map@ == b0.ask_map@,
            b1.bid_map@ == b0.bid_map@,
            ladder_entries(b1.ask_list) == ladder_entries(b0.ask_list),
            ladder_entries(b1.bid_list) == ladder_entries(b0.bid_list),
            b1.best_ask == b0.best_ask,
            b1.best_bid == b0.best_bid,
            b1.n_orders == b0.n_orders + 1,
        ensures
            b1.wf(),
            b1@ == view_insert(b0@, o),
    {
        let v0 = b0@;
        let sd = o.side;
        let osd = other_side(sd);
        lemma_view_insert_wf(v0, o);
        assert(b0.wf_entry(sd, o.price));
        Self::lemma_repr_count_update(
            b0.levels@,
            b1.levels@,
            i,
            b1.levels@.len() as int,
        );
        assert(side_levels(v0, sd)[o.price] == order_views(b0.levels@[i].orders@));
        lemma_level_volume_push(order_views(b0.levels@[i].orders@), o);
        // slots of other prices and of the other side are untouched
        assert forall|sd2: Side, p: u64| #[trigger]
            b1.side_hash(sd2).dom().contains(p) && !(sd2 == sd && p == o.price) implies {
            &&& b1.side_hash(sd2)[p] as int != i
            &&& b1.levels@[b1.side_hash(sd2)[p] as int] == b0.levels@[b0.side_hash(sd2)[p] as int]
        } by {
            assert(b0.wf_entry(sd2, p));
            let j = b0.side_hash(sd2)[p] as int;
            if j == i {
                assert(b0.levels@[i].price == o.price);
                assert(b0.levels@[i].orders@[0].side == sd);
                assert(order_views(b0.levels@[i].orders@)[0].side == sd);
                assert(side_levels(v0, sd2)[p][0].side == sd2);
                assert(order_views(b0.levels@[j].orders@) == side_levels(v0, sd2)[p]);
            }
        }
        // the views line up
        assert(order_views(b1.levels@[i].orders@) == side_levels(v0, sd)[o.price].push(o));
        assert(side_levels(b1@, sd) =~= side_levels(view_insert(v0, o), sd)) by {
            assert forall|p: u64| #[trigger] b1.side_hash(sd).dom().contains(p) implies side_levels(
                b1@,
                sd,
            )[p] == side_levels(view_insert(v0, o), sd)[p] by {
                if p != o.price {
                    assert(b0.wf_entry(sd, p));
                }
            }
        }
        assert(side_levels(b1@, osd) =~= side_levels(view_insert(v0, o), osd)) by {
            assert forall|p: u64| #[trigger]
                b1.side_hash(osd).dom().contains(p) implies side_levels(b1@, osd)[p] == side_levels(
                view_insert(v0, o),
                osd,
            )[p] by {
                assert(b0.wf_entry(osd, p));
            }
        }
        assert(b1@ == view_insert(v0, o)) by {
            assert(b1@.asks =~= view_insert(v0, o).asks);
            assert(b1@.bids =~= view_insert(v0, o).bids);
        }
        // well-formedness carries over
        assert forall|sd2: Side, p: u64| #[trigger]
            b1.side_hash(sd2).dom().contains(p) implies b1.wf_entry(sd2, p) by {
            assert(b0.wf_entry(sd2, p));
            if sd2 == sd && p == o.price {
                assert(b1.levels@[i].orders@.len() == b0.levels@[i].orders@.len() + 1);
            }
        }
        assert(side_levels(b1@, sd).dom() =~= side_levels(v0, sd).dom());
        assert(side_levels(b1@, osd).dom() =~= side_levels(v0, osd).dom());
        assert forall|sd2: Side| #[trigger] b1.wf_side_holds(sd2) by {
            match b1.side_best(sd2) {
                None => {
                    assert forall|p: u64| !(#[trigger] b1.side_hash(sd2).dom().contains(p)) by {
                        if b1.side_hash(sd2).dom().contains(p) {
                            assert(b0.side_hash(sd2).dom().contains(p));
                        }
                    }
                },
                Some(bi) => {
                    let bp = b0.levels@[bi as int].price;
                    assert(b0.side_hash(sd2).contains_pair(bp, bi));
                    assert(b0.wf_entry(sd2, bp));
                    assert(b1.levels@[bi as int].price == bp);
                },
            }
        }
        assert forall|k: int|
            0 <= k < b1.levels@.len() && (#[trigger] b1.levels@[k]).orders@.len() >= 1 implies b1
                .side_hash(b1.levels@[k].orders@[0].side).contains_pair(
                b1.levels@[k].price,
                k as usize,
            ) by {
            if k != i {
                assert(b1.levels@[k] == b0.levels@[k]);
            } else {
                assert(b1.side_hash(sd).contains_pair(o.price, i as usize));
            }
        }
    }

    /// One side's best-pointer and membership facts, as `wf_side` asks them.
    spec fn wf_side_holds(&self, side: Side) -> bool {
        self.wf_side(side)
    }

    /// After pushing a fresh level onto the arena and registering it in the
    /// ladder, the hash index and possibly the best pointer, the book is the
    /// old view with the order appended, and well-formed.
    proof fn lemma_insert_fresh(b0: LimitOrderBook, b1: LimitOrderBook, o: OrderView, idx: int)
        requires
            b0.wf(),
            o.size >= 1,
            !book_contains_id(b0@, o.order_id),
            !b0.side_hash(o.side).dom().contains(o.price),
            idx == b0.levels@.len(),
            0 <= idx <= usize::MAX,
            b1.levels@.len() == b0.levels@.len() + 1,
            b1.levels@ == b0.levels@.push(b1.levels@[idx]),
            b1.levels@[idx].price == o.price,
            order_views(b1.levels@[idx].orders@) == seq![o],
            b1.levels@[idx].orders@[0].side == o.side,
            b1.levels@[idx].vol == o.size,
            b1.side_hash(o.side) == b0.side_hash(o.side).insert(o.price, idx as usize),
            b1.side_hash(other_side(o.side)) == b0.side_hash(other_side(o.side)),
            ladder_entries_of(b1, o.side) == ladder_entries_of(b0, o.side).insert(
                o.price,
                idx as usize,
            ),
            ladder_entries_of(b1, other_side(o.side)) == ladder_entries_of(b0, other_side(o.side)),
            b1.side_best(o.side) == (match b0.side_best(o.side) {
                None => Some(idx as usize),
                Some(b) => if strictly_better(o.side, o.price, b0.levels@[b as int].price) {
                    Some(idx as usize)
                } else {
                    Some(b)
                },
            }),
            b1.side_best(other_side(o.side)) == b0.side_best(other_side(o.side)),
            b1.n_orders == b0.n_orders + 1,
        ensures
            b1.wf(),
            b1@ == view_insert(b0@, o),
    {
        let v0 = b0@;
        let sd = o.side;
        let osd = other_side(sd);
        lemma_view_insert_wf(v0, o);
        Self::lemma_repr_count_grows(b0.levels@, b1.levels@, b1.levels@.len() as int);
        // untouched slots show the old levels
        assert forall|sd2: Side, p: u64| #[trigger]
            b0.side_hash(sd2).dom().contains(p) implies {
            &&& b0.side_hash(sd2)[p] as int != idx
            &&& b1.levels@[b0.side_hash(sd2)[p] as int] == b0.levels@[b0.side_hash(sd2)[p] as int]
            &&& b1.side_hash(sd2).contains_pair(p, b0.side_hash(sd2)[p])
        } by {
            assert(b0.wf_entry(sd2, p));
        }
        // the views line up
        assert(side_levels(b1@, sd) =~= side_levels(view_insert(v0, o), sd)) by {
            assert(side_levels(v0, sd).dom() == b0.side_hash(sd).dom());
            assert forall|p: u64| #[trigger] b1.side_hash(sd).dom().contains(p) implies side_levels(
                b1@,
                sd,
            )[p] == side_levels(view_insert(v0, o), sd)[p] by {
                if p == o.price {
                    assert(b1.side_hash(sd)[p] == idx as usize);
                    assert(idx as usize as int == idx);
                    assert(side_levels(b1@, sd)[p] == order_views(b1.levels@[idx].orders@));
                    assert(Seq::<OrderView>::empty().push(o) =~= seq![o]);
                } else {
                    assert(b0.side_hash(sd).dom().contains(p));
                    assert(b0.wf_entry(sd, p));
                }
            }
            assert(side_levels(b1@, sd).dom() =~= side_levels(view_insert(v0, o), sd).dom());
        }
        assert(side_levels(b1@, osd) =~= side_levels(view_insert(v0, o), osd)) by {
            assert forall|p: u64| #[trigger]
                b1.side_hash(osd).dom().contains(p) implies side_levels(b1@, osd)[p] == side_levels(
                view_insert(v0, o),
                osd,
            )[p] by {
                assert(b0.wf_entry(osd, p));
            }
            assert(side_levels(b1@, osd).dom() =~= side_levels(view_insert(v0, o), osd).dom());
        }
        assert(b1@ == view_insert(v0, o)) by {
            assert(b1@.asks =~= view_insert(v0, o).asks);
            assert(b1@.bids =~= view_insert(v0, o).bids);
        }
        // well-formedness of entries
        assert forall|sd2: Side, p: u64| #[trigger]
            b1.side_hash(sd2).dom().contains(p) implies b1.wf_entry(sd2, p) by {
            if sd2 == sd && p == o.price {
                assert(b1.levels@[idx].orders@.len() == 1);
                assert(level_volume(seq![o]) == o.size) by {
                    assert(seq![o].drop_first() =~= Seq::<OrderView>::empty());
                    assert(level_volume(Seq::<OrderView>::empty()) == 0);
                }
            } else {
                assert(b0.side_hash(sd2).dom().contains(p));
                assert(b0.wf_entry(sd2, p));
            }
        }
        // the best pointers
        assert(b1.wf_side_holds(sd)) by {
            let bi = b1.side_best(sd)->Some_0;
            let bp = b1.levels@[bi as int].price;
            assert(b1.side_hash(sd).contains_pair(bp, bi)) by {
                match b0.side_best(sd) {
                    None => {
                        assert(bi == idx as usize);
                    },
                    Some(b) => {
                        if strictly_better(sd, o.price, b0.levels@[b as int].price) {
                            assert(bi == idx as usize);
                        } else {
                            let bp0 = b0.levels@[b as int].price;
                            assert(b0.side_hash(sd).contains_pair(bp0, b));
                            assert(b0.wf_entry(sd, bp0));
                            assert(bp0 != o.price);
                            assert(b1.levels@[b as int] == b0.levels@[b as int]);
                        }
                    },
                }
            }
            assert(is_best_price(side_levels(b1@, sd), sd, bp)) by {
                assert forall|q: u64| #[trigger]
                    side_levels(b1@, sd).dom().contains(q) implies (match sd {
                    Side::ASK => bp <= q,
                    Side::BID => bp >= q,
                }) by {
                    match b0.side_best(sd) {
                        None => {
                            assert forall|p2: u64|
                                !(#[trigger] b0.side_hash(sd).dom().contains(p2)) by {}
                            assert(q == o.price);
                        },
                        Some(b) => {
                            let bp0 = b0.levels@[b as int].price;
                            assert(is_best_price(side_levels(v0, sd), sd, bp0));
                            if q != o.price {
                                assert(side_levels(v0, sd).dom().contains(q));
                            }
                        },
                    }
                }
            }
        }
        assert(b1.wf_side_holds(osd)) by {
            match b1.side_best(osd) {
                None => {
                    assert forall|p: u64| !(#[trigger] b1.side_hash(osd).dom().contains(p)) by {}
                },
                Some(bi) => {
                    let bp0 = b0.levels@[bi as int].price;
                    assert(b0.side_hash(osd).contains_pair(bp0, bi));
                    assert(b0.wf_entry(osd, bp0));
                    assert(b1.levels@[bi as int] == b0.levels@[bi as int]);
                    assert(is_best_price(side_levels(v0, osd), osd, bp0));
                    assert(side_levels(b1@, osd).dom() =~= side_levels(v0, osd).dom());
                },
            }
        }
        // arena claims
        assert forall|k: int|
            0 <= k < b1.levels@.len() && (#[trigger] b1.levels@[k]).orders@.len() >= 1 implies b1
                .side_hash(b1.levels@[k].orders@[0].side).contains_pair(
                b1.levels@[k].price,
                k as usize,
            ) by {
            if k != idx {
                assert(b1.levels@[k] == b0.levels@[k]);
                let sd2 = b0.levels@[k].orders@[0].side;
                assert(b0.side_hash(sd2).contains_pair(b0.levels@[k].price, k as usize));
                if sd2 == sd {
                    assert(b0.levels@[k].price != o.price || !b0.side_hash(sd).dom().contains(
                        o.price,
                    ));
                }
            }
        }
    }
}

} // verus!

// ---------- counting orders in the arena ----------

verus! {

impl LimitOrderBook {
    /// Replacing one slot shifts the count by the difference of that slot's
    /// sizes; slots above `hi` do not matter.
    proof fn lemma_repr_count_update(a: Seq<Limit>, b: Seq<Limit>, i: int, hi: int)
        requires
            a.len() == b.len(),
            0 <= i < a.len(),
            hi <= a.len(),
            forall|k: int| 0 <= k < a.len() && k != i ==> a[k] == b[k],
        ensures
            Self::repr_order_count(b, hi) == Self::repr_order_count(a, hi) + (if i < hi {
                b[i].orders.len() - a[i].orders.len()
            } else {
                0
            }),
        decreases hi,
    {
        if hi > 0 {
            Self::lemma_repr_count_update(a, b, i, hi - 1);
        }
    }

    /// Extending the arena by one slot adds that slot's orders to the count.
    proof fn lemma_repr_count_grows(a: Seq<Limit>, b: Seq<Limit>, hi: int)
        requires
            b.len() == a.len() + 1,
            hi <= b.len(),
            forall|k: int| 0 <= k < a.len() ==> a[k] == b[k],
        ensures
            Self::repr_order_count(b, hi) == Self::repr_order_count(a, if hi <= a.len() {
                hi
            } else {
                a.len() as int
            }) + (if hi == b.len() {
                b[hi - 1].orders.len() as int
            } else {
                0
            }),
        decreases hi,
    {
        if hi > 0 {
            Self::lemma_repr_count_grows(a, b, hi - 1);
        }
    }

    /// The count is at least any one slot's share.
    proof fn lemma_repr_count_at_least(a: Seq<Limit>, i: int, hi: int)
        requires
            0 <= i < hi <= a.len(),
        ensures
            Self::repr_order_count(a, hi) >= a[i].orders.len(),
            Self::repr_order_count(a, hi) >= 0,
        decreases hi,
    {
        if hi > 0 {
            if i < hi - 1 {
                Self::lemma_repr_count_at_least(a, i, hi - 1);
                Self::lemma_repr_count_nonneg(a, hi - 1);
            } else {
                Self::lemma_repr_count_nonneg(a, hi - 1);
            }
        }
    }

    proof fn lemma_repr_count_nonneg(a: Seq<Limit>, hi: int)
        ensures
            Self::repr_order_count(a, hi) >= 0,
        decreases hi,
    {
        if hi > 0 {
            Self::lemma_repr_count_nonneg(a, hi - 1);
        }
    }
}

} // verus!

// ---------- facts about cancelling ----------

verus! {

pub proof fn lemma_remove_id_absent(s: Seq<OrderView>, id: Seq<char>)
    requires
        forall|j: int| 0 <= j < s.len() ==> (#[trigger] s[j]).order_id != id,
    ensures
        remove_id_from_level(s, id) == s,
    decreases s.len(),
{
    if s.len() > 0 {
        lemma_remove_id_absent(s.drop_first(), id);
        assert(seq![s[0]] + s.drop_first() =~= s);
    }
}

pub proof fn lemma_remove_id_unique(s: Seq<OrderView>, id: Seq<char>, j: int)
    requires
        0 <= j < s.len(),
        s[j].order_id == id,
        forall|k: int| 0 <= k < s.len() && k != j ==> (#[trigger] s[k]).order_id != id,
    ensures
        remove_id_from_level(s, id) == s.remove(j),
    decreases s.len(),
{
    if j == 0 {
        lemma_remove_id_absent(s.drop_first(), id);
        assert(s.remove(0) =~= s.drop_first());
    } else {
        lemma_remove_id_unique(s.drop_first(), id, j - 1);
        assert(s.remove(j) =~= seq![s[0]] + s.drop_first().remove(j - 1));
    }
}

pub proof fn lemma_level_volume_nonneg(s: Seq<OrderView>)
    ensures
        level_volume(s) >= 0,
    decreases s.len(),
{
    if s.len() > 0 {
        lemma_level_volume_nonneg(s.drop_first());
    }
}

pub proof fn lemma_level_volume_remove(s: Seq<OrderView>, j: int)
    requires
        0 <= j < s.len(),
    ensures
        level_volume(s.remove(j)) == level_volume(s) - s[j].size,
    decreases s.len(),
{
    if j == 0 {
        assert(s.remove(0) =~= s.drop_first());
    } else {
        lemma_level_volume_remove(s.drop_first(), j - 1);
        assert(s.remove(j).drop_first() =~= s.drop_first().remove(j - 1));
        assert(s.remove(j)[0] == s[0]);
    }
}

/// What cancelling does to one level of a well-formed book: nothing if the
/// id is not there, otherwise it takes out exactly the one order that
/// carries it.
pub proof fn lemma_level_remove_shape(v: BookView, id: Seq<char>, sd: Side, p: u64)
    requires
        wf_view(v),
        side_levels(v, sd).dom().contains(p),
    ensures
        ({
            let s = side_levels(v, sd)[p];
            let t = remove_id_from_level(s, id);
            if seq_contains_id(s, id) {
                exists|jr: int|
                    0 <= jr < s.len() && (#[trigger] s[jr]).order_id == id && t == s.remove(jr)
            } else {
                t == s
            }
        }),
{
    let s = side_levels(v, sd)[p];
    if seq_contains_id(s, id) {
        let jr = choose|jr: int| 0 <= jr < s.len() && (#[trigger] s[jr]).order_id == id;
        assert forall|k: int| 0 <= k < s.len() && k != jr implies (#[trigger] s[k]).order_id != id by {
            if s[k].order_id == id {
                assert(side_levels(v, sd)[p][k].order_id == side_levels(v, sd)[p][jr].order_id);
            }
        }
        lemma_remove_id_unique(s, id, jr);
    } else {
        assert forall|k: int| 0 <= k < s.len() implies (#[trigger] s[k]).order_id != id by {
            if s[k].order_id == id {
                assert(seq_contains_id(s, id));
            }
        }
        lemma_remove_id_absent(s, id);
    }
}

/// Cancelling keeps a book well-formed, and the id is no longer reachable.
#[verifier::rlimit(60)]
pub proof fn lemma_view_remove_wf(v: BookView, id: Seq<char>)
    requires
        wf_view(v),
    ensures
        wf_view(view_remove(v, id)),
        !book_contains_id(view_remove(v, id), id),
{
    let w = view_remove(v, id);
    assert forall|sd: Side, p: u64| #[trigger]
        side_levels(w, sd).dom().contains(p) implies side_levels(v, sd).dom().contains(p) by {}
    // each surviving level is the old one, possibly with one order taken out
    assert forall|sd: Side, p: u64| #[trigger] side_levels(w, sd).dom().contains(p) implies {
        let s = side_levels(v, sd)[p];
        let t = side_levels(w, sd)[p];
        &&& t.len() >= 1
        &&& level_volume(t) <= u64::MAX
        &&& forall|j: int|
            0 <= j < t.len() ==> exists|k: int|
                0 <= k < s.len() && (#[trigger] t[j]) == s[k] && t[j].order_id != id
    } by {
        lemma_level_remove_shape(v, id, sd, p);
        let s = side_levels(v, sd)[p];
        let t = side_levels(w, sd)[p];
        lemma_level_volume_nonneg(s);
        if seq_contains_id(s, id) {
            let jr = choose|jr: int|
                0 <= jr < s.len() && (#[trigger] s[jr]).order_id == id && t == s.remove(jr);
            lemma_level_volume_remove(s, jr);
            assert forall|j: int| 0 <= j < t.len() implies exists|k: int|
                0 <= k < s.len() && (#[trigger] t[j]) == s[k] && t[j].order_id != id by {
                let k = if j < jr {
                    j
                } else {
                    j + 1
                };
                assert(t[j] == s[k]);
                if s[k].order_id == id {
                    assert(side_levels(v, sd)[p][k].order_id == side_levels(v, sd)[p][jr].order_id);
                }
            }
        } else {
            assert forall|j: int| 0 <= j < t.len() implies exists|k: int|
                0 <= k < s.len() && (#[trigger] t[j]) == s[k] && t[j].order_id != id by {
                assert(t[j] == s[j]);
                if s[j].order_id == id {
                    assert(seq_contains_id(s, id));
                }
            }
        }
    }
    // sides remain well-formed
    assert forall|sd: Side| #[trigger] wf_side_view(side_levels(w, sd), sd) by {
        vstd::set_lib::lemma_len_subset(side_levels(w, sd).dom(), side_levels(v, sd).dom());
        assert(side_levels(w, sd).dom().finite()) by {
            assert(side_levels(w, sd).dom() <= side_levels(v, sd).dom());
        }
        assert forall|p: u64, j: int|
            side_levels(w, sd).dom().contains(p) && 0 <= j < side_levels(w, sd)[p].len() implies ((
        #[trigger] side_levels(w, sd)[p][j]).price == p && side_levels(w, sd)[p][j].side == sd
            && side_levels(w, sd)[p][j].size >= 1) by {
            let k = choose|k: int|
                0 <= k < side_levels(v, sd)[p].len() && side_levels(w, sd)[p][j] == side_levels(
                    v,
                    sd,
                )[p][k] && side_levels(w, sd)[p][j].order_id != id;
            assert(side_levels(v, sd)[p][k].price == p);
        }
    }
    // ids are still unique, and the cancelled one is gone
    assert forall|sd1: Side, sd2: Side, p1: u64, p2: u64, j1: int, j2: int|
        (side_levels(w, sd1).dom().contains(p1) && 0 <= j1 < side_levels(w, sd1)[p1].len()
            && side_levels(w, sd2).dom().contains(p2) && 0 <= j2 < side_levels(w, sd2)[p2].len()
            && #[trigger] side_levels(w, sd1)[p1][j1].order_id == #[trigger] side_levels(
            w,
            sd2,
        )[p2][j2].order_id) implies (sd1 == sd2 && p1 == p2 && j1 == j2) by {
        lemma_level_remove_shape(v, id, sd1, p1);
        lemma_level_remove_shape(v, id, sd2, p2);
        let s1 = side_levels(v, sd1)[p1];
        let s2 = side_levels(v, sd2)[p2];
        let t1 = side_levels(w, sd1)[p1];
        let t2 = side_levels(w, sd2)[p2];
        let k1 = pos_before_remove(s1, t1, id, j1);
        let k2 = pos_before_remove(s2, t2, id, j2);
        assert(side_levels(v, sd1)[p1][k1].order_id == side_levels(v, sd2)[p2][k2].order_id);
        assert(sd1 == sd2 && p1 == p2 && k1 == k2);
    }
    assert forall|sd: Side, p: u64, j: int|
        side_levels(w, sd).dom().contains(p) && 0 <= j < side_levels(w, sd)[p].len() implies (
    #[trigger] side_levels(w, sd)[p][j]).order_id != id by {
        let k = choose|k: int|
            0 <= k < side_levels(v, sd)[p].len() && side_levels(w, sd)[p][j] == side_levels(
                v,
                sd,
            )[p][k] && side_levels(w, sd)[p][j].order_id != id;
    }
    assert(!book_contains_id(w, id)) by {
        if side_contains_id(w.asks, id) {
            let p = choose|p: u64| #[trigger] w.asks.dom().contains(p) && seq_contains_id(
                w.asks[p],
                id,
            );
            let j = choose|j: int| 0 <= j < w.asks[p].len() && w.asks[p][j].order_id == id;
            assert(side_levels(w, Side::ASK)[p][j].order_id == id);
        }
        if side_contains_id(w.bids, id) {
            let p = choose|p: u64| #[trigger] w.bids.dom().contains(p) && seq_contains_id(
                w.bids[p],
                id,
            );
            let j = choose|j: int| 0 <= j < w.bids[p].len() && w.bids[p][j].order_id == id;
            assert(side_levels(w, Side::BID)[p][j].order_id == id);
        }
    }
}

/// The old position that a post-cancel position shows, when the level lost
/// at most the one order with the cancelled id. Positions map injectively.
proof fn pos_before_remove(s: Seq<OrderView>, t: Seq<OrderView>, id: Seq<char>, j: int) -> (k: int)
    requires
        0 <= j < t.len(),
        t == s || exists|jr: int|
            0 <= jr < s.len() && (#[trigger] s[jr]).order_id == id && t == s.remove(jr),
    ensures
        0 <= k < s.len(),
        s[k] == t[j],
        forall|j2: int|
            0 <= j2 < t.len() && j2 != j ==> #[trigger] pos_map(s, t, id, j2) != k,
        k == pos_map(s, t, id, j),
{
    if t == s {
        j
    } else {
        let jr = choose|jr: int|
            0 <= jr < s.len() && (#[trigger] s[jr]).order_id == id && t == s.remove(jr);
        let jj = pos_jr(s, t, id);
        assert(0 <= jj < s.len() && s[jj].order_id == id && t == s.remove(jj));
        if j < jj {
            j
        } else {
            j + 1
        }
    }
}

/// The removed position, fixed by choice so that all callers agree on it.
spec fn pos_jr(s: Seq<OrderView>, t: Seq<OrderView>, id: Seq<char>) -> int {
    choose|jr: int| 0 <= jr < s.len() && (#[trigger] s[jr]).order_id == id && t == s.remove(jr)
}

/// Where a post-cancel index sits in the pre-cancel level.
spec fn pos_map(s: Seq<OrderView>, t: Seq<OrderView>, id: Seq<char>, j: int) -> int {
    if t == s {
        j
    } else if j < pos_jr(s, t, id) {
        j
    } else {
        j + 1
    }
}

} // verus!

// ---------- cancellation ----------

verus! {

pub open spec fn price_no_worse(side: Side, a: u64, b: u64) -> bool {
    match side {
        Side::ASK => a <= b,
        Side::BID => a >= b,
    }
}

pub proof fn lemma_level_volume_at_least(s: Seq<OrderView>, j: int)
    requires
        0 <= j < s.len(),
    ensures
        level_volume(s) >= s[j].size,
    decreases s.len(),
{
    lemma_level_volume_nonneg(s.drop_first());
    if j > 0 {
        lemma_level_volume_at_least(s.drop_first(), j - 1);
    }
}

/// Cancelling an id nothing carries leaves the view as it was.
pub proof fn lemma_view_remove_absent(v: BookView, id: Seq<char>)
    requires
        wf_view(v),
        !book_contains_id(v, id),
    ensures
        view_remove(v, id) == v,
{
    assert forall|sd: Side, p: u64| #[trigger]
        side_levels(v, sd).dom().contains(p) implies remove_id_from_level(side_levels(v, sd)[p], id)
        == side_levels(v, sd)[p] && side_levels(v, sd)[p].len() > 0 by {
        let s = side_levels(v, sd)[p];
        assert forall|j: int| 0 <= j < s.len() implies (#[trigger] s[j]).order_id != id by {
            if s[j].order_id == id {
                assert(seq_contains_id(s, id));
                assert(side_contains_id(side_levels(v, sd), id));
            }
        }
        lemma_remove_id_absent(s, id);
    }
    assert(side_remove_id(v.asks, id) =~= v.asks) by {
        assert forall|p: u64| #[trigger] v.asks.dom().contains(p) implies side_remove_id(
            v.asks,
            id,
        ).dom().contains(p) && side_remove_id(v.asks, id)[p] == v.asks[p] by {
            assert(side_levels(v, Side::ASK).dom().contains(p));
            assert(remove_id_from_level(v.asks[p], id) == v.asks[p]);
            assert(v.asks[p].len() > 0);
        }
    }
    assert(side_remove_id(v.bids, id) =~= v.bids) by {
        assert forall|p: u64| #[trigger] v.bids.dom().contains(p) implies side_remove_id(
            v.bids,
            id,
        ).dom().contains(p) && side_remove_id(v.bids, id)[p] == v.bids[p] by {
            assert(side_levels(v, Side::BID).dom().contains(p));
            assert(remove_id_from_level(v.bids[p], id) == v.bids[p]);
            assert(v.bids[p].len() > 0);
        }
    }
}

impl LimitOrderBook {
    spec fn side_best_of(&self, side: Side) -> Option<usize> {
        self.side_best(side)
    }

    /// Where in the arena the order with this id rests, if anywhere.
    fn find_order(&self, order_id: &String) -> (r: Option<(usize, usize)>)
        ensures
            match r {
                Some((li, oi)) => li < self.levels@.len() && oi < self.levels@[li
                    as int].orders@.len() && self.levels@[li as int].orders@[oi as int].order_id@
                    == order_id@,
                None => forall|li: int, oi: int|
                    #![trigger self.levels@[li].orders@[oi]]
                    0 <= li < self.levels@.len() && 0 <= oi < self.levels@[li].orders@.len()
                        ==> self.levels@[li].orders@[oi].order_id@ != order_id@,
            },
    {
        let n = self.levels.len();
        let mut li: usize = 0;
        while li < n
            invariant
                li <= n,
                n == self.levels@.len(),
                forall|l2: int, o2: int|
                    #![trigger self.levels@[l2].orders@[o2]]
                    0 <= l2 < li && 0 <= o2 < self.levels@[l2].orders@.len()
                        ==> self.levels@[l2].orders@[o2].order_id@ != order_id@,
            decreases n - li,
        {
            let m = self.levels[li].orders.len();
            let mut oi: usize = 0;
            while oi < m
                invariant
                    li < n,
                    oi <= m,
                    n == self.levels@.len(),
                    m == self.levels@[li as int].orders@.len(),
                    forall|l2: int, o2: int|
                        #![trigger self.levels@[l2].orders@[o2]]
                        0 <= l2 < li && 0 <= o2 < self.levels@[l2].orders@.len()
                            ==> self.levels@[l2].orders@[o2].order_id@ != order_id@,
                    forall|o2: int|
                        0 <= o2 < oi ==> (#[trigger] self.levels@[li as int].orders@[o2]).order_id@
                            != order_id@,
                decreases m - oi,
            {
                if self.levels[li].orders[oi].order_id.eq(order_id) {
                    return Some((li, oi));
                }
                oi = oi + 1;
            }
            li = li + 1;
        }
        None
    }

    /// Cancel the order with this id, if it rests in the book: it leaves its
    /// level, an emptied level leaves its side, and that side's best quote
    /// is recomputed.
    pub fn remove(&mut self, order_id: String)
        requires
            old(self).wf(),
        ensures
            final(self).wf(),
            final(self)@ == view_remove(old(self)@, order_id@),
            final(self).spec_book_id() == old(self).spec_book_id(),
            final(self).spec_order_count() == old(self).spec_order_count() - (if book_contains_id(
                old(self)@,
                order_id@,
            ) {
                1int
            } else {
                0int
            }),
            !book_contains_id(final(self)@, order_id@),
    {
        let ghost b0 = *self;
        let ghost v0 = self@;
        proof {
            lemma_view_remove_wf(v0, order_id@);
        }
        match self.find_order(&order_id) {
            None => {
                proof {
                    assert(!book_contains_id(v0, order_id@)) by {
                        if side_contains_id(v0.asks, order_id@) {
                            let p = choose|p: u64| #[trigger]
                                v0.asks.dom().contains(p) && seq_contains_id(
                                    v0.asks[p],
                                    order_id@,
                                );
                            let j = choose|j: int|
                                0 <= j < v0.asks[p].len() && v0.asks[p][j].order_id == order_id@;
                            assert(b0.wf_entry(Side::ASK, p));
                            let li = b0.side_hash(Side::ASK)[p] as int;
                            assert(b0.levels@[li].orders@[j].order_id@ == order_id@);
                        }
                        if side_contains_id(v0.bids, order_id@) {
                            let p = choose|p: u64| #[trigger]
                                v0.bids.dom().contains(p) && seq_contains_id(
                                    v0.bids[p],
                                    order_id@,
                                );
                            let j = choose|j: int|
                                0 <= j < v0.bids[p].len() && v0.bids[p][j].order_id == order_id@;
                            assert(b0.wf_entry(Side::BID, p));
                            let li = b0.side_hash(Side::BID)[p] as int;
                            assert(b0.levels@[li].orders@[j].order_id@ == order_id@);
                        }
                    }
                    lemma_view_remove_absent(v0, order_id@);
                }
            },
            Some((li, oi)) => {
                proof {
                    assert(b0.levels@[li as int].orders@.len() >= 1);
                    assert(b0.side_hash(b0.levels@[li as int].orders@[0].side).contains_pair(
                        b0.levels@[li as int].price,
                        li,
                    ));
                    Self::lemma_repr_count_at_least(b0.levels@, li as int, b0.levels@.len() as int);
                }
                let side = self.levels[li].orders[0].side;
                let price = self.levels[li].price;
                let sz = self.levels[li].orders[oi].size;
                proof {
                    assert(b0.wf_entry(side, price));
                    assert(order_views(b0.levels@[li as int].orders@)[oi as int].size == sz);
                    lemma_level_volume_at_least(order_views(b0.levels@[li as int].orders@), oi as int);
                }
                let mut l = Limit::new(0);
                core::mem::swap(&mut l, &mut self.levels[li]);
                l.orders.remove(oi);
                l.vol = l.vol - sz;
                self.levels[li] = l;
                self.n_orders = self.n_orders - 1;
                if self.levels[li].orders.len() == 0 {
                    match side {
                        Side::ASK => {
                            self.ask_map.remove(&price);
                            ladder_remove(&mut self.ask_list, price);
                        },
                        Side::BID => {
                            self.bid_map.remove(&price);
                            ladder_remove(&mut self.bid_list, price);
                        },
                    }
                }
                let ghost mut bk: Option<(u64, usize)> = None;
                match side {
                    Side::ASK => {
                        let first = ladder_first(&self.ask_list);
                        self.best_ask = match first {
                            Some((_k, v)) => Some(v),
                            None => None,
                        };
                        proof {
                            bk = first;
                        }
                    },
                    Side::BID => {
                        let last = ladder_last(&self.bid_list);
                        self.best_bid = match last {
                            Some((_k, v)) => Some(v),
                            None => None,
                        };
                        proof {
                            bk = last;
                        }
                    },
                }
                proof {
                    assert(side_levels(v0, side)[self.levels@[li as int].price][oi as int].order_id
                        == order_id@) by {
                        assert(b0.wf_entry(side, b0.levels@[li as int].price));
                    }
                    assert(seq_contains_id(
                        side_levels(v0, side)[b0.levels@[li as int].price],
                        order_id@,
                    ));
                    assert(side_levels(v0, side).dom().contains(b0.levels@[li as int].price));
                    assert(side_contains_id(side_levels(v0, side), order_id@));
                    assert(book_contains_id(v0, order_id@));
                    assert(self.levels@ =~= b0.levels@.update(li as int, self.levels@[li as int]));
                    assert(self.levels@[li as int].orders@ =~= b0.levels@[li as
                        int].orders@.remove(oi as int));
                    Self::lemma_remove_found(b0, *self, order_id@, side, li as int, oi as int, bk);
                }
            },
        }
    }
}

} // verus!

// ---------- the cancel transformation, slot by slot ----------

verus! {

impl LimitOrderBook {
    /// After taking one order out of its slot, dropping the level from its
    /// side's indices if it emptied, and recomputing that side's best from
    /// the ladder, the book is the old view with the id cancelled, and
    /// well-formed.
    #[verifier::rlimit(80)]
    proof fn lemma_remove_found(
        b0: Self,
        b1: Self,
        id: Seq<char>,
        sd: Side,
        li: int,
        oi: int,
        bk: Option<(u64, usize)>,
    )
        requires
            b0.wf(),
            0 <= li < b0.levels@.len(),
            0 <= oi < b0.levels@[li].orders@.len(),
            b0.levels@[li].orders@[oi].order_id@ == id,
            sd == b0.levels@[li].orders@[0].side,
            b1.levels@.len() == b0.levels@.len(),
            forall|k: int| 0 <= k < b0.levels@.len() && k != li ==> b1.levels@[k] == b0.levels@[k],
            b1.levels@[li].price == b0.levels@[li].price,
            b1.levels@[li].orders@ == b0.levels@[li].orders@.remove(oi),
            b1.levels@[li].vol == b0.levels@[li].vol - b0.levels@[li].orders@[oi].size,
            ({
                let price = b0.levels@[li].price;
                if b0.levels@[li].orders@.len() > 1 {
                    b1.side_hash(sd) == b0.side_hash(sd) && ladder_entries_of(b1, sd)
                        == ladder_entries_of(b0, sd)
                } else {
                    b1.side_hash(sd) == b0.side_hash(sd).remove(price) && ladder_entries_of(b1, sd)
                        == ladder_entries_of(b0, sd).remove(price)
                }
            }),
            b1.side_hash(other_side(sd)) == b0.side_hash(other_side(sd)),
            ladder_entries_of(b1, other_side(sd)) == ladder_entries_of(b0, other_side(sd)),
            match bk {
                Some((k, v)) => ladder_entries_of(b1, sd).contains_pair(k, v) && forall|k2: u64|
                    #[trigger] ladder_entries_of(b1, sd).dom().contains(k2) ==> price_no_worse(
                        sd,
                        k,
                        k2,
                    ),
                None => forall|k2: u64| !(#[trigger] ladder_entries_of(b1, sd).dom().contains(k2)),
            },
            b1.side_best(sd) == (match bk {
                Some((k, v)) => Some(v),
                None => None::<usize>,
            }),
            b1.side_best(other_side(sd)) == b0.side_best(other_side(sd)),
            b1.n_orders == b0.n_orders - 1,
        ensures
            b1.wf(),
            b1@ == view_remove(b0@, id),
    {
        let v0 = b0@;
        let w = view_remove(v0, id);
        let osd = other_side(sd);
        let price = b0.levels@[li].price;
        let s = order_views(b0.levels@[li].orders@);
        lemma_view_remove_wf(v0, id);
        assert(b0.levels@.len() == vstd::std_specs::vec::spec_vec_len(&b0.levels));
        assert(b0.levels@.len() <= usize::MAX);
        assert(b0.side_hash(sd).contains_pair(price, li as usize));
        assert(b0.wf_entry(sd, price));
        assert(b0.side_hash(sd)[price] == li as usize);
        assert(li as usize as int == li);
        assert(side_levels(v0, sd)[price] == s);
        assert(s[oi].order_id == id);
        Self::lemma_repr_count_update(b0.levels@, b1.levels@, li, b1.levels@.len() as int);
        // within the level, only position oi carries the id
        assert forall|k: int| 0 <= k < s.len() && k != oi implies (#[trigger] s[k]).order_id
            != id by {
            if s[k].order_id == id {
                assert(side_levels(v0, sd)[price][k].order_id == side_levels(
                    v0,
                    sd,
                )[price][oi].order_id);
            }
        }
        lemma_remove_id_unique(s, id, oi);
        assert(order_views(b1.levels@[li].orders@) =~= s.remove(oi));
        lemma_level_volume_remove(s, oi);
        // every other level keeps clear of the id
        assert forall|sd2: Side, p2: u64| #[trigger]
            b0.side_hash(sd2).dom().contains(p2) && !(sd2 == sd && p2 == price) implies {
            &&& remove_id_from_level(side_levels(v0, sd2)[p2], id) == side_levels(v0, sd2)[p2]
            &&& b0.side_hash(sd2)[p2] as int != li
            &&& b1.levels@[b0.side_hash(sd2)[p2] as int] == b0.levels@[b0.side_hash(sd2)[p2] as int]
        } by {
            assert(b0.wf_entry(sd2, p2));
            let s2 = side_levels(v0, sd2)[p2];
            assert forall|k: int| 0 <= k < s2.len() implies (#[trigger] s2[k]).order_id != id by {
                if s2[k].order_id == id {
                    assert(side_levels(v0, sd2)[p2][k].order_id == side_levels(
                        v0,
                        sd,
                    )[price][oi].order_id);
                }
            }
            lemma_remove_id_absent(s2, id);
            let j2 = b0.side_hash(sd2)[p2] as int;
            if j2 == li {
                assert(order_views(b0.levels@[j2].orders@) == s2);
                assert(s2[0].side == sd2);
                assert(s[0].side == sd);
                if sd2 == sd {
                    assert(b0.levels@[j2].price == p2);
                }
            }
        }
        // the views line up
        assert(side_levels(b1@, sd) =~= side_levels(w, sd)) by {
            assert forall|p: u64| #[trigger]
                side_levels(w, sd).dom().contains(p) implies b1.side_hash(sd).dom().contains(p)
                && side_levels(b1@, sd)[p] == side_levels(w, sd)[p] by {
                if p == price {
                    assert(remove_id_from_level(s, id).len() > 0);
                    assert(s.len() > 1);
                } else {
                    assert(b0.side_hash(sd).dom().contains(p));
                    assert(b0.wf_entry(sd, p));
                }
            }
            assert forall|p: u64| #[trigger]
                b1.side_hash(sd).dom().contains(p) implies side_levels(w, sd).dom().contains(
                p,
            ) by {
                if p == price {
                    assert(s.len() > 1) by {
                        if s.len() <= 1 {
                            assert(!b1.side_hash(sd).dom().contains(price));
                        }
                    }
                    assert(remove_id_from_level(s, id) == s.remove(oi));
                    assert(s.remove(oi).len() > 0);
                } else {
                    assert(b0.side_hash(sd).dom().contains(p));
                }
            }
        }
        assert(side_levels(b1@, osd) =~= side_levels(w, osd)) by {
            assert forall|p: u64| #[trigger]
                b1.side_hash(osd).dom().contains(p) implies side_levels(b1@, osd)[p]
                == remove_id_from_level(side_levels(v0, osd)[p], id) && remove_id_from_level(
                side_levels(v0, osd)[p],
                id,
            ).len() > 0 by {
                assert(b0.side_hash(osd).dom().contains(p));
                assert(!(osd == sd && p == price));
                assert(b0.wf_entry(osd, p));
            }
            assert forall|p: u64| #[trigger]
                side_levels(w, osd).dom().contains(p) implies b1.side_hash(osd).dom().contains(
                p,
            ) by {}
        }
        assert(b1@ == w) by {
            assert(b1@.asks =~= w.asks);
            assert(b1@.bids =~= w.bids);
        }
        // entries remain well-formed
        assert forall|sd2: Side, p: u64| #[trigger]
            b1.side_hash(sd2).dom().contains(p) implies b1.wf_entry(sd2, p) by {
            if sd2 == sd && p == price {
                assert(b1.levels@[li].orders@.len() >= 1);
                assert(b1.levels@[li].orders@[0] == b0.levels@[li].orders@[if oi == 0 {
                    1int
                } else {
                    0int
                }]);
                assert(s[if oi == 0 {
                    1int
                } else {
                    0int
                }].side == sd);
            } else {
                assert(b0.side_hash(sd2).dom().contains(p));
                assert(b0.wf_entry(sd2, p));
            }
        }
        // best pointers
        assert(b1.wf_side_holds(sd)) by {
            assert(ladder_entries_of(b1, sd) =~= b1.side_hash(sd));
            match bk {
                None => {
                    assert forall|p: u64| !(#[trigger] b1.side_hash(sd).dom().contains(p)) by {
                        if b1.side_hash(sd).dom().contains(p) {
                            assert(ladder_entries_of(b1, sd).dom().contains(p));
                        }
                    }
                },
                Some((k, bi)) => {
                    assert(b1.side_hash(sd).contains_pair(k, bi));
                    assert(b1.wf_entry(sd, k));
                    assert(b1.levels@[bi as int].price == k);
                    assert(is_best_price(side_levels(b1@, sd), sd, k)) by {
                        assert forall|q: u64| #[trigger]
                            side_levels(b1@, sd).dom().contains(q) implies price_no_worse(
                            sd,
                            k,
                            q,
                        ) by {
                            assert(ladder_entries_of(b1, sd).dom().contains(q));
                        }
                    }
                },
            }
        }
        assert(b1.wf_side_holds(osd)) by {
            match b1.side_best(osd) {
                None => {
                    assert forall|p: u64| !(#[trigger] b1.side_hash(osd).dom().contains(p)) by {}
                },
                Some(bi) => {
                    let bp = b0.levels@[bi as int].price;
                    assert(b0.side_hash(osd).contains_pair(bp, bi));
                    assert(b0.wf_entry(osd, bp));
                    assert(bi as int != li);
                    assert(b1.levels@[bi as int] == b0.levels@[bi as int]);
                    assert(is_best_price(side_levels(v0, osd), osd, bp));
                    assert(is_best_price(side_levels(b1@, osd), osd, bp)) by {
                        assert forall|q: u64| #[trigger]
                            side_levels(b1@, osd).dom().contains(q) implies price_no_worse(
                            osd,
                            bp,
                            q,
                        ) by {
                            assert(side_levels(v0, osd).dom().contains(q));
                        }
                    }
                },
            }
        }
        // arena claims
        assert forall|k: int|
            0 <= k < b1.levels@.len() && (#[trigger] b1.levels@[k]).orders@.len() >= 1 implies b1
                .side_hash(b1.levels@[k].orders@[0].side).contains_pair(
                b1.levels@[k].price,
                k as usize,
            ) by {
            if k != li {
                assert(b1.levels@[k] == b0.levels@[k]);
                let sd2 = b0.levels@[k].orders@[0].side;
                assert(b0.side_hash(sd2).contains_pair(b0.levels@[k].price, k as usize));
                if sd2 == sd && b0.levels@[k].price == price {
                    assert(k == li);
                }
            } else {
                assert(b1.levels@[li].orders@.len() >= 1);
                assert(s.len() > 1);
                assert(b1.levels@[li].orders@[0].side == sd);
                assert(b1.side_hash(sd).contains_pair(price, li as usize));
            }
        }
    }
}

} // verus!

// ---------- best quotes and sizes ----------

verus! {

/// A verified field-by-field copy of an order.
pub fn clone_order(o: &Order) -> (r: Order)
    ensures
        r@ == o@,
{
    Order {
        seq_id: o.seq_id,
        order_id: o.order_id.clone(),
        quote: o.quote.clone(),
        price: o.price,
        size: o.size,
        side: o.side,
        order_type: o.order_type,
    }
}

impl LimitOrderBook {
    /// Recompute the best quote of one side from the ladder: the head order
    /// of the lowest ASK or highest BID level, or none if the side is empty.
    pub fn update_best(&mut self, side: Side)
        requires
            old(self).wf(),
        ensures
            final(self).wf(),
            final(self)@ == old(self)@,
            final(self).spec_book_id() == old(self).spec_book_id(),
            final(self).spec_order_count() == old(self).spec_order_count(),
    {
        let ghost b0 = *self;
        let ghost mut bk: Option<(u64, usize)> = None;
        match side {
            Side::ASK => {
                let first = ladder_first(&self.ask_list);
                self.best_ask = match first {
                    Some((_k, v)) => Some(v),
                    None => None,
                };
                proof {
                    bk = first;
                }
            },
            Side::BID => {
                let last = ladder_last(&self.bid_list);
                self.best_bid = match last {
                    Some((_k, v)) => Some(v),
                    None => None,
                };
                proof {
                    bk = last;
                }
            },
        }
        proof {
            Self::lemma_set_best(b0, *self, side, bk);
        }
    }

    /// Re-pointing one side's best at the ladder's top entry preserves
    /// everything the book states.
    proof fn lemma_set_best(b0: Self, b1: Self, sd: Side, bk: Option<(u64, usize)>)
        requires
            b0.wf(),
            b1.levels@ == b0.levels@,
            b1.ask_map@ == b0.ask_map@,
            b1.bid_map@ == b0.bid_map@,
            ladder_entries_of(b1, Side::ASK) == ladder_entries_of(b0, Side::ASK),
            ladder_entries_of(b1, Side::BID) == ladder_entries_of(b0, Side::BID),
            b1.n_orders == b0.n_orders,
            match bk {
                Some((k, v)) => ladder_entries_of(b1, sd).contains_pair(k, v) && forall|k2: u64|
                    #[trigger] ladder_entries_of(b1, sd).dom().contains(k2) ==> price_no_worse(
                        sd,
                        k,
                        k2,
                    ),
                None => forall|k2: u64| !(#[trigger] ladder_entries_of(b1, sd).dom().contains(k2)),
            },
            b1.side_best(sd) == (match bk {
                Some((k, v)) => Some(v),
                None => None::<usize>,
            }),
            b1.side_best(other_side(sd)) == b0.side_best(other_side(sd)),
        ensures
            b1.wf(),
            b1@ == b0@,
    {
        let osd = other_side(sd);
        assert(b1@.asks =~= b0@.asks);
        assert(b1@.bids =~= b0@.bids);
        assert(b1@ == b0@);
        assert forall|sd2: Side, p: u64| #[trigger]
            b1.side_hash(sd2).dom().contains(p) implies b1.wf_entry(sd2, p) by {
            assert(b0.wf_entry(sd2, p));
        }
        assert(b1.wf_side_holds(sd)) by {
            match bk {
                None => {
                    assert forall|p: u64| !(#[trigger] b1.side_hash(sd).dom().contains(p)) by {
                        if b1.side_hash(sd).dom().contains(p) {
                            assert(ladder_entries_of(b1, sd).dom().contains(p));
                        }
                    }
                },
                Some((k, bi)) => {
                    assert(b1.side_hash(sd).contains_pair(k, bi));
                    assert(b1.wf_entry(sd, k));
                    assert(b1.levels@[bi as int].price == k);
                    assert(is_best_price(side_levels(b1@, sd), sd, k)) by {
                        assert forall|q: u64| #[trigger]
                            side_levels(b1@, sd).dom().contains(q) implies price_no_worse(
                            sd,
                            k,
                            q,
                        ) by {
                            assert(ladder_entries_of(b1, sd).dom().contains(q));
                        }
                    }
                },
            }
        }
        assert(b1.wf_side_holds(osd)) by {
            match b1.side_best(osd) {
                None => {
                    assert forall|p: u64| !(#[trigger] b1.side_hash(osd).dom().contains(p)) by {}
                },
                Some(bi) => {
                    let bp = b0.levels@[bi as int].price;
                    assert(b0.side_hash(osd).contains_pair(bp, bi));
                    assert(is_best_price(side_levels(b0@, osd), osd, bp));
                    assert(is_best_price(side_levels(b1@, osd), osd, bp));
                },
            }
        }
    }

    /// The head order of the best level on one side, or none if the side is
    /// empty.
    pub fn best(&self, side: Side) -> (r: Option<Order>)
        requires
            self.wf(),
        ensures
            match r {
                Some(o) => is_best_price(side_levels(self@, side), side, o@.price) && o@
                    == side_levels(self@, side)[o@.price][0],
                None => forall|p: u64| !(#[trigger] side_levels(self@, side).dom().contains(p)),
            },
    {
        let best = match side {
            Side::ASK => self.best_ask,
            Side::BID => self.best_bid,
        };
        match best {
            None => {
                proof {
                    assert forall|p: u64|
                        !(#[trigger] side_levels(self@, side).dom().contains(p)) by {
                        if side_levels(self@, side).dom().contains(p) {
                            assert(self.side_hash(side).dom().contains(p));
                        }
                    }
                }
                None
            },
            Some(i) => {
                proof {
                    let bp = self.levels@[i as int].price;
                    assert(self.side_hash(side).contains_pair(bp, i));
                    assert(self.wf_entry(side, bp));
                }
                Some(clone_order(&self.levels[i].orders[0]))
            },
        }
    }

    /// The head order of the lowest-price ASK level, if any.
    pub fn best_ask(&self) -> (r: Option<Order>)
        requires
            self.wf(),
        ensures
            match r {
                Some(o) => is_best_price(self@.asks, Side::ASK, o@.price) && o@
                    == self@.asks[o@.price][0],
                None => forall|p: u64| !(#[trigger] self@.asks.dom().contains(p)),
            },
    {
        self.best(Side::ASK)
    }

    /// The head order of the highest-price BID level, if any.
    pub fn best_bid(&self) -> (r: Option<Order>)
        requires
            self.wf(),
        ensures
            match r {
                Some(o) => is_best_price(self@.bids, Side::BID, o@.price) && o@
                    == self@.bids[o@.price][0],
                None => forall|p: u64| !(#[trigger] self@.bids.dom().contains(p)),
            },
    {
        self.best(Side::BID)
    }

    /// How many price levels the ASK ladder holds.
    pub fn ask_list_len(&self) -> (r: usize)
        requires
            self.wf(),
        ensures
            r == self@.asks.dom().len(),
    {
        proof {
            assert(self@.asks.dom() =~= self.ask_map@.dom());
        }
        ladder_len(&self.ask_list)
    }

    /// How many price levels the BID ladder holds.
    pub fn bid_list_len(&self) -> (r: usize)
        requires
            self.wf(),
        ensures
            r == self@.bids.dom().len(),
    {
        proof {
            assert(self@.bids.dom() =~= self.bid_map@.dom());
        }
        ladder_len(&self.bid_list)
    }

    /// How many price levels the ASK hash index holds.
    pub fn ask_map_len(&self) -> (r: usize)
        requires
            self.wf(),
        ensures
            r == self@.asks.dom().len(),
    {
        proof {
            assert(self@.asks.dom() =~= self.ask_map@.dom());
        }
        self.ask_map.len()
    }

    /// How many price levels the BID hash index holds.
    pub fn bid_map_len(&self) -> (r: usize)
        requires
            self.wf(),
        ensures
            r == self@.bids.dom().len(),
    {
        proof {
            assert(self@.bids.dom() =~= self.bid_map@.dom());
        }
        self.bid_map.len()
    }

    /// How many orders rest in the book.
    pub fn ord_map_len(&self) -> (r: usize)
        requires
            self.wf(),
        ensures
            r as int == self.spec_order_count(),
    {
        self.n_orders
    }
}

} // verus!

// ---------- the insert/remove round trip ----------

verus! {

proof fn lemma_remove_id_push(s: Seq<OrderView>, o: OrderView)
    requires
        forall|j: int| 0 <= j < s.len() ==> (#[trigger] s[j]).order_id != o.order_id,
    ensures
        remove_id_from_level(s.push(o), o.order_id) == s,
    decreases s.len(),
{
    if s.len() == 0 {
        let e = Seq::<OrderView>::empty();
        assert(s.push(o)[0] == o);
        assert(s.push(o).drop_first() =~= e);
        assert(remove_id_from_level(e, o.order_id) == e);
        assert(remove_id_from_level(s.push(o), o.order_id) == remove_id_from_level(
            s.push(o).drop_first(),
            o.order_id,
        ));
        assert(s =~= e);
    } else {
        assert(s.push(o)[0] == s[0]);
        assert(s.push(o).drop_first() =~= s.drop_first().push(o));
        lemma_remove_id_push(s.drop_first(), o);
        assert(seq![s[0]] + s.drop_first() =~= s);
    }
}

/// Law: inserting an order whose id is new to the book and then cancelling
/// that id returns the book to exactly its prior state.
pub proof fn lemma_insert_remove_round_trip(v: BookView, o: OrderView)
    requires
        wf_view(v),
        !book_contains_id(v, o.order_id),
    ensures
        view_remove(view_insert(v, o), o.order_id) == v,
{
    let w = view_insert(v, o);
    let u = view_remove(w, o.order_id);
    let id = o.order_id;
    let m = side_levels(v, o.side);
    let lvl = if m.dom().contains(o.price) {
        m[o.price]
    } else {
        Seq::<OrderView>::empty()
    };
    assert forall|j: int| 0 <= j < lvl.len() implies (#[trigger] lvl[j]).order_id != id by {
        if m.dom().contains(o.price) && lvl[j].order_id == id {
            assert(seq_contains_id(m[o.price], id));
            assert(side_contains_id(m, id));
        }
    }
    lemma_remove_id_push(lvl, o);
    // every level of the other side, and every other level of this side, is
    // free of the id
    assert forall|sd: Side, p: u64| #[trigger]
        side_levels(v, sd).dom().contains(p) implies remove_id_from_level(
        side_levels(v, sd)[p],
        id,
    ) == side_levels(v, sd)[p] by {
        let s = side_levels(v, sd)[p];
        assert forall|j: int| 0 <= j < s.len() implies (#[trigger] s[j]).order_id != id by {
            if s[j].order_id == id {
                assert(seq_contains_id(s, id));
                assert(side_contains_id(side_levels(v, sd), id));
            }
        }
        lemma_remove_id_absent(s, id);
    }
    assert(side_levels(u, o.side) =~= side_levels(v, o.side)) by {
        assert forall|p: u64| #[trigger]
            side_levels(u, o.side).dom().contains(p) == side_levels(v, o.side).dom().contains(p)
            && (side_levels(v, o.side).dom().contains(p) ==> side_levels(u, o.side)[p]
            == side_levels(v, o.side)[p]) by {
            if p == o.price {
                assert(side_levels(w, o.side)[p] == lvl.push(o));
                assert(remove_id_from_level(lvl.push(o), id) == lvl);
                if m.dom().contains(o.price) {
                    assert(lvl.len() > 0);
                } else {
                    assert(lvl.len() == 0);
                }
            } else {
                if side_levels(v, o.side).dom().contains(p) {
                    assert(side_levels(w, o.side)[p] == side_levels(v, o.side)[p]);
                }
            }
        }
    }
    assert(side_levels(u, other_side(o.side)) =~= side_levels(v, other_side(o.side))) by {
        let osd = other_side(o.side);
        assert(side_levels(w, osd) == side_levels(v, osd));
        assert forall|p: u64| #[trigger]
            side_levels(u, osd).dom().contains(p) == side_levels(v, osd).dom().contains(p) && (
        side_levels(v, osd).dom().contains(p) ==> side_levels(u, osd)[p] == side_levels(
            v,
            osd,
        )[p]) by {
            if side_levels(v, osd).dom().contains(p) {
                assert(remove_id_from_level(side_levels(v, osd)[p], id) == side_levels(v, osd)[p]);
                assert(side_levels(v, osd)[p].len() > 0);
            }
        }
    }
    assert(u.asks =~= v.asks);
    assert(u.bids =~= v.bids);
}

} // verus!

// ---------- what matching needs from the book ----------

verus! {

/// The best price of a non-empty side.
pub open spec fn the_best_price(m: Map<u64, Seq<OrderView>>, side: Side) -> u64 {
    choose|p: u64| is_best_price(m, side, p)
}

/// The book with the head order of the level at `bp` on `side` shrunk by
/// `qty`.
pub open spec fn view_reduce_head(v: BookView, side: Side, bp: u64, qty: u64) -> BookView {
    let m = side_levels(v, side);
    let lvl = m[bp];
    let top = lvl[0];
    let top2 = OrderView { size: (top.size - qty) as u64, ..top };
    let m2 = m.insert(bp, lvl.update(0, top2));
    match side {
        Side::ASK => BookView { asks: m2, bids: v.bids },
        Side::BID => BookView { asks: v.asks, bids: m2 },
    }
}

/// The book with the head order of the level at `bp` on `side` gone; a level
/// left empty leaves the book.
pub open spec fn view_pop_head(v: BookView, side: Side, bp: u64) -> BookView {
    let m = side_levels(v, side);
    let lvl = m[bp];
    let m2 = if lvl.len() <= 1 {
        m.remove(bp)
    } else {
        m.insert(bp, lvl.drop_first())
    };
    match side {
        Side::ASK => BookView { asks: m2, bids: v.bids },
        Side::BID => BookView { asks: v.asks, bids: m2 },
    }
}

/// Two best prices of one side are the same price.
pub proof fn lemma_best_unique(m: Map<u64, Seq<OrderView>>, side: Side, a: u64, b: u64)
    requires
        is_best_price(m, side, a),
        is_best_price(m, side, b),
    ensures
        a == b,
{
}

/// A non-empty side has a best price.
pub proof fn lemma_best_exists(m: Map<u64, Seq<OrderView>>, side: Side)
    requires
        m.dom().finite(),
        exists|p: u64| m.dom().contains(p),
    ensures
        is_best_price(m, side, the_best_price(m, side)),
{
    let leq = |a: u64, b: u64|
        match side {
            Side::ASK => a <= b,
            Side::BID => b <= a,
        };
    let witness = choose|p: u64| m.dom().contains(p);
    assert(m.dom().len() > 0) by {
        if m.dom().len() == 0 {
            assert(m.dom() =~= Set::<u64>::empty());
        }
    }
    m.dom().find_unique_minimal_ensures(leq);
    let bp = m.dom().find_unique_minimal(leq);
    assert(vstd::relations::is_minimal(leq, bp, m.dom()));
    assert(is_best_price(m, side, bp)) by {
        assert forall|q: u64| #[trigger] m.dom().contains(q) implies price_no_worse(
            side,
            bp,
            q,
        ) by {
            assert(leq(bp, q) || !leq(q, bp));
        }
    }
}

impl LimitOrderBook {
    /// A well-formed book has a well-formed view.
    pub proof fn lemma_wf_view(&self)
        requires
            self.wf(),
        ensures
            wf_view(self@),
    {
    }

    /// Shrink the head order of the best level on one side by `qty`,
    /// leaving it resting with what remains.
    pub fn reduce_best(&mut self, side: Side, qty: u64)
        requires
            old(self).wf(),
            exists|p: u64| side_levels(old(self)@, side).dom().contains(p),
            1 <= qty < side_levels(old(self)@, side)[the_best_price(
                side_levels(old(self)@, side),
                side,
            )][0].size,
        ensures
            final(self).wf(),
            final(self)@ == view_reduce_head(
                old(self)@,
                side,
                the_best_price(side_levels(old(self)@, side), side),
                qty,
            ),
            final(self).spec_book_id() == old(self).spec_book_id(),
            final(self).spec_order_count() == old(self).spec_order_count(),
    {
        let ghost b0 = *self;
        let ghost v0 = self@;
        proof {
            lemma_best_exists(side_levels(v0, side), side);
        }
        let i = match side {
            Side::ASK => match self.best_ask {
                Some(i) => i,
                None => {
                    proof {
                        assert(false);
                    }
                    0
                },
            },
            Side::BID => match self.best_bid {
                Some(i) => i,
                None => {
                    proof {
                        assert(false);
                    }
                    0
                },
            },
        };
        proof {
            let bp = self.levels@[i as int].price;
            assert(self.side_hash(side).contains_pair(bp, i));
            assert(self.wf_entry(side, bp));
            lemma_best_unique(
                side_levels(v0, side),
                side,
                bp,
                the_best_price(side_levels(v0, side), side),
            );
        }
        let mut l = Limit::new(0);
        core::mem::swap(&mut l, &mut self.levels[i]);
        proof {
            let s = order_views(l.orders@);
            assert(s == side_levels(v0, side)[b0.levels@[i as int].price]);
            assert(qty < s[0].size);
            lemma_level_volume_at_least(s, 0);
            assert(l.vol == level_volume(s));
        }
        let newo = {
            let o0 = &l.orders[0];
            Order {
                seq_id: o0.seq_id,
                order_id: o0.order_id.clone(),
                quote: o0.quote.clone(),
                price: o0.price,
                size: o0.size - qty,
                side: o0.side,
                order_type: o0.order_type,
            }
        };
        l.orders[0] = newo;
        l.vol = l.vol - qty;
        self.levels[i] = l;
        proof {
            assert(self.levels@ =~= b0.levels@.update(i as int, self.levels@[i as int]));
            assert(order_views(self.levels@[i as int].orders@) =~= order_views(
                b0.levels@[i as int].orders@,
            ).update(
                0,
                OrderView {
                    size: (order_views(b0.levels@[i as int].orders@)[0].size - qty) as u64,
                    ..order_views(b0.levels@[i as int].orders@)[0]
                },
            ));
            Self::lemma_reduce_ok(b0, *self, side, i as int, qty);
        }
    }

    /// After shrinking the best level's head in place, the book is the old
    /// view with that head reduced, and well-formed.
    proof fn lemma_reduce_ok(b0: Self, b1: Self, sd: Side, i: int, qty: u64)
        requires
            b0.wf(),
            b0.side_best(sd) == Some(i as usize),
            0 <= i < b0.levels@.len(),
            i == i as usize as int,
            1 <= qty < b0.levels@[i].orders@[0].size,
            b1.levels@.len() == b0.levels@.len(),
            forall|k: int| 0 <= k < b0.levels@.len() && k != i ==> b1.levels@[k] == b0.levels@[k],
            b1.levels@[i].price == b0.levels@[i].price,
            b1.levels@[i].vol == b0.levels@[i].vol - qty,
            b1.levels@[i].orders@.len() == b0.levels@[i].orders@.len(),
            order_views(b1.levels@[i].orders@) == order_views(b0.levels@[i].orders@).update(
                0,
                OrderView {
                    size: (order_views(b0.levels@[i].orders@)[0].size - qty) as u64,
                    ..order_views(b0.levels@[i].orders@)[0]
                },
            ),
            b1.levels@[i].orders@[0].side == b0.levels@[i].orders@[0].side,
            b1.ask_map@ == b0.ask_map@,
            b1.bid_map@ == b0.bid_map@,
            ladder_entries_of(b1, Side::ASK) == ladder_entries_of(b0, Side::ASK),
            ladder_entries_of(b1, Side::BID) == ladder_entries_of(b0, Side::BID),
            b1.best_ask == b0.best_ask,
            b1.best_bid == b0.best_bid,
            b1.n_orders == b0.n_orders,
        ensures
            b1.wf(),
            b1@ == view_reduce_head(
                b0@,
                sd,
                b0.levels@[i].price,
                qty,
            ),
    {
        let v0 = b0@;
        let osd = other_side(sd);
        let bp = b0.levels@[i].price;
        let s = order_views(b0.levels@[i].orders@);
        assert(b0.side_hash(sd).contains_pair(bp, i as usize));
        assert(b0.wf_entry(sd, bp));
        assert(side_levels(v0, sd)[bp] == s);
        Self::lemma_repr_count_update(b0.levels@, b1.levels@, i, b1.levels@.len() as int);
        // volume of the updated level
        assert(level_volume(order_views(b1.levels@[i].orders@)) == level_volume(s) - qty) by {
            let t = order_views(b1.levels@[i].orders@);
            assert(t.drop_first() =~= s.drop_first());
            assert(level_volume(t) == t[0].size + level_volume(t.drop_first()));
            assert(level_volume(s) == s[0].size + level_volume(s.drop_first()));
        }
        // untouched slots
        assert forall|sd2: Side, p: u64| #[trigger]
            b0.side_hash(sd2).dom().contains(p) && !(sd2 == sd && p == bp) implies {
            &&& b0.side_hash(sd2)[p] as int != i
            &&& b1.levels@[b0.side_hash(sd2)[p] as int] == b0.levels@[b0.side_hash(sd2)[p] as int]
        } by {
            assert(b0.wf_entry(sd2, p));
            let j = b0.side_hash(sd2)[p] as int;
            if j == i {
                assert(order_views(b0.levels@[j].orders@)[0].side == sd2);
                assert(s[0].side == sd);
            }
        }
        // views line up
        let w = view_reduce_head(v0, sd, bp, qty);
        assert(side_levels(b1@, sd) =~= side_levels(w, sd)) by {
            assert forall|p: u64| #[trigger] b1.side_hash(sd).dom().contains(p) implies side_levels(
                b1@,
                sd,
            )[p] == side_levels(w, sd)[p] by {
                if p != bp {
                    assert(b0.wf_entry(sd, p));
                }
            }
        }
        assert(side_levels(b1@, osd) =~= side_levels(w, osd)) by {
            assert forall|p: u64| #[trigger]
                b1.side_hash(osd).dom().contains(p) implies side_levels(b1@, osd)[p] == side_levels(
                w,
                osd,
            )[p] by {
                assert(b0.wf_entry(osd, p));
            }
        }
        assert(b1@ == w) by {
            assert(b1@.asks =~= w.asks);
            assert(b1@.bids =~= w.bids);
        }
        // well-formedness
        assert forall|sd2: Side, p: u64| #[trigger]
            b1.side_hash(sd2).dom().contains(p) implies b1.wf_entry(sd2, p) by {
            assert(b0.wf_entry(sd2, p));
        }
        assert(side_levels(b1@, sd).dom() =~= side_levels(v0, sd).dom());
        assert(side_levels(b1@, osd).dom() =~= side_levels(v0, osd).dom());
        assert forall|sd2: Side| #[trigger] b1.wf_side_holds(sd2) by {
            match b1.side_best(sd2) {
                None => {
                    assert forall|p: u64| !(#[trigger] b1.side_hash(sd2).dom().contains(p)) by {
                        if b1.side_hash(sd2).dom().contains(p) {
                            assert(b0.side_hash(sd2).dom().contains(p));
                        }
                    }
                },
                Some(bi) => {
                    let bp0 = b0.levels@[bi as int].price;
                    assert(b0.side_hash(sd2).contains_pair(bp0, bi));
                    assert(b0.wf_entry(sd2, bp0));
                    assert(b1.levels@[bi as int].price == bp0);
                    assert(is_best_price(side_levels(v0, sd2), sd2, bp0));
                    assert(is_best_price(side_levels(b1@, sd2), sd2, bp0)) by {
                        assert forall|q: u64| #[trigger]
                            side_levels(b1@, sd2).dom().contains(q) implies price_no_worse(
                            sd2,
                            bp0,
                            q,
                        ) by {
                            assert(side_levels(v0, sd2).dom().contains(q));
                        }
                    }
                },
            }
        }
        // id uniqueness: the same ids sit in the same places
        assert(view_ids_unique(b1@)) by {
            assert forall|sd1: Side, sd2: Side, p1: u64, p2: u64, j1: int, j2: int|
                (side_levels(b1@, sd1).dom().contains(p1) && 0 <= j1 < side_levels(
                    b1@,
                    sd1,
                )[p1].len() && side_levels(b1@, sd2).dom().contains(p2) && 0 <= j2 < side_levels(
                    b1@,
                    sd2,
                )[p2].len() && #[trigger] side_levels(b1@, sd1)[p1][j1].order_id == #[trigger]
                side_levels(b1@, sd2)[p2][j2].order_id) implies (sd1 == sd2 && p1 == p2 && j1
                == j2) by {
                assert(side_levels(b1@, sd1)[p1][j1].order_id == side_levels(
                    v0,
                    sd1,
                )[p1][j1].order_id);
                assert(side_levels(b1@, sd2)[p2][j2].order_id == side_levels(
                    v0,
                    sd2,
                )[p2][j2].order_id);
            }
        }
        // arena claims
        assert forall|k: int|
            0 <= k < b1.levels@.len() && (#[trigger] b1.levels@[k]).orders@.len() >= 1 implies b1
                .side_hash(b1.levels@[k].orders@[0].side).contains_pair(
                b1.levels@[k].price,
                k as usize,
            ) by {
            if k != i {
                assert(b1.levels@[k] == b0.levels@[k]);
            } else {
                assert(b1.side_hash(sd).contains_pair(bp, i as usize));
            }
        }
    }
}

} // verus!

// ---------- membership ----------

verus! {

impl LimitOrderBook {
    /// Whether an order with this id rests anywhere in the book.
    pub fn contains_order(&self, order_id: &String) -> (r: bool)
        requires
            self.wf(),
        ensures
            r == book_contains_id(self@, order_id@),
    {
        match self.find_order(order_id) {
            Some((li, oi)) => {
                proof {
                    let side = self.levels@[li as int].orders@[0].side;
                    let price = self.levels@[li as int].price;
                    assert(self.side_hash(side).contains_pair(price, li));
                    assert(self.wf_entry(side, price));
                    assert(side_levels(self@, side)[price][oi as int].order_id == order_id@);
                    assert(seq_contains_id(side_levels(self@, side)[price], order_id@));
                    assert(side_levels(self@, side).dom().contains(price));
                    assert(side_contains_id(side_levels(self@, side), order_id@));
                }
                true
            },
            None => {
                proof {
                    let v0 = self@;
                    if side_contains_id(v0.asks, order_id@) {
                        let p = choose|p: u64| #[trigger]
                            v0.asks.dom().contains(p) && seq_contains_id(v0.asks[p], order_id@);
                        let j = choose|j: int|
                            0 <= j < v0.asks[p].len() && v0.asks[p][j].order_id == order_id@;
                        assert(self.wf_entry(Side::ASK, p));
                        let li = self.side_hash(Side::ASK)[p] as int;
                        assert(self.levels@[li].orders@[j].order_id@ == order_id@);
                    }
                    if side_contains_id(v0.bids, order_id@) {
                        let p = choose|p: u64| #[trigger]
                            v0.bids.dom().contains(p) && seq_contains_id(v0.bids[p], order_id@);
                        let j = choose|j: int|
                            0 <= j < v0.bids[p].len() && v0.bids[p][j].order_id == order_id@;
                        assert(self.wf_entry(Side::BID, p));
                        let li = self.side_hash(Side::BID)[p] as int;
                        assert(self.levels@[li].orders@[j].order_id@ == order_id@);
                    }
                }
                false
            },
        }
    }
}

} // verus!
