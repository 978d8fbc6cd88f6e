//! The engine's cache of order books: for each symbol the last five depth updates in a
//! ring buffer and a flag telling whether the symbol is queued for processing; and the
//! decisions taken on them.

use vstd::prelude::*;
use ringbuf::traits::{Consumer, Producer, RingBuffer};
use ringbuf::StaticRb;
use crate::decimal::{less_than, value_lt, Decimal};
use crate::graph::Triangle;
use crate::math::{middle_sells, PlanError};
use crate::market::texts;
use crate::messages::{ArbitragePlan, DepthUpdate};

verus! {

/// The view of a book level `[price, quantity]`.
pub open spec fn level_view(l: [Decimal; 2]) -> ((int, nat), (int, nat)) {
    (l[0]@, l[1]@)
}

pub open spec fn levels_view(ls: Seq<[Decimal; 2]>) -> Seq<((int, nat), (int, nat))> {
    ls.map_values(|l: [Decimal; 2]| level_view(l))
}

impl View for DepthUpdate {
    type V = (Seq<char>, Seq<((int, nat), (int, nat))>, Seq<((int, nat), (int, nat))>, u64);

    open spec fn view(&self) -> Self::V {
        (self.symbol@, levels_view(self.bid_levels@), levels_view(self.ask_levels@), self.timestamp)
    }
}

/// How many depth updates the ring keeps.
pub const DEPTH_RING_CAPACITY: usize = 5;

/// A `ringbuf::StaticRb` of five depth updates. Its inside is hidden from the proofs (the
/// ring's storage type is bound by a trait of `ringbuf`); what it holds is
/// `depth_ring_contents`, and the functions below state how each operation changes it.
#[verifier::external_body]
pub struct DepthRing {
    rb: StaticRb<DepthUpdate, DEPTH_RING_CAPACITY>,
}

/// The depth updates in the ring, oldest first.
pub uninterp spec fn depth_ring_contents(r: DepthRing) -> Seq<DepthView>;

/// The view of a depth update.
pub type DepthView = <DepthUpdate as View>::V;

/// The ring after `u` is pushed: the oldest update is dropped first where five are held.
pub open spec fn overwrite_push(c: Seq<DepthView>, u: DepthView) -> Seq<DepthView> {
    if c.len() >= DEPTH_RING_CAPACITY {
        c.drop_first().push(u)
    } else {
        c.push(u)
    }
}

/// `StaticRb::default`: an empty ring.
#[verifier::external_body]
pub(crate) fn depth_ring_new() -> (r: DepthRing)
    ensures
        depth_ring_contents(r).len() == 0,
{
    DepthRing { rb: StaticRb::default() }
}

/// `RingBuffer::push_overwrite`: where the ring is full its oldest update is dropped, then
/// `update` goes to the back.
#[verifier::external_body]
pub(crate) fn depth_ring_push_overwrite(r: &mut DepthRing, update: DepthUpdate)
    ensures
        depth_ring_contents(*final(r)) == overwrite_push(depth_ring_contents(*old(r)), update@),
{
    r.rb.push_overwrite(update);
}

/// `Consumer::try_pop`: the oldest update, removed; `None` on an empty ring. A ring of
/// capacity five never holds more than five updates.
#[verifier::external_body]
pub(crate) fn depth_ring_try_pop(r: &mut DepthRing) -> (res: Option<DepthUpdate>)
    ensures
        depth_ring_contents(*old(r)).len() <= DEPTH_RING_CAPACITY,
        depth_ring_contents(*old(r)).len() == 0 ==> res is None && depth_ring_contents(*final(r))
            == depth_ring_contents(*old(r)),
        depth_ring_contents(*old(r)).len() > 0 ==> res is Some && res.unwrap()@ == depth_ring_contents(
            *old(r),
        )[0] && depth_ring_contents(*final(r)) == depth_ring_contents(*old(r)).drop_first(),
{
    r.rb.try_pop()
}

/// `Producer::try_push`: `update` goes to the back where there is room; a full ring hands
/// it back unchanged.
#[verifier::external_body]
pub(crate) fn depth_ring_try_push(r: &mut DepthRing, update: DepthUpdate) -> (res: Result<(), DepthUpdate>)
    ensures
        depth_ring_contents(*old(r)).len() < DEPTH_RING_CAPACITY ==> res is Ok && depth_ring_contents(*final(r))
            == depth_ring_contents(*old(r)).push(update@),
        depth_ring_contents(*old(r)).len() >= DEPTH_RING_CAPACITY ==> res is Err && depth_ring_contents(*final(r))
            == depth_ring_contents(*old(r)),
{
    r.rb.try_push(update)
}

/// The cached books of one symbol and whether the symbol is queued for processing.
pub struct CacheEntry {
    pub buf: DepthRing,
    pub in_flight: bool,
}

impl View for CacheEntry {
    type V = (Seq<DepthView>, bool);

    open spec fn view(&self) -> Self::V {
        (depth_ring_contents(self.buf), self.in_flight)
    }
}

/// An entry after `u` is recorded, and whether the symbol must be sent for processing.
pub open spec fn recorded(e: (Seq<DepthView>, bool), u: DepthView) -> ((Seq<DepthView>, bool), bool) {
    ((overwrite_push(e.0, u), true), !e.1)
}

/// An entry after its symbol was processed.
pub open spec fn released(e: (Seq<DepthView>, bool)) -> (Seq<DepthView>, bool) {
    (e.0, false)
}

/// The ring keeps the latest updates: never more than five, the newest last, and, where
/// it held fewer than five, everything it held before.
pub proof fn lemma_ring_keeps_latest(c: Seq<DepthView>, u: DepthView)
    requires
        c.len() <= DEPTH_RING_CAPACITY,
    ensures
        overwrite_push(c, u).len() <= DEPTH_RING_CAPACITY,
        overwrite_push(c, u).last() == u,
        c.len() < DEPTH_RING_CAPACITY ==> overwrite_push(c, u) == c.push(u),
        c.len() == DEPTH_RING_CAPACITY ==> overwrite_push(c, u) == c.subrange(1, DEPTH_RING_CAPACITY as int).push(u),
{
    if c.len() == DEPTH_RING_CAPACITY {
        assert(c.drop_first() =~= c.subrange(1, DEPTH_RING_CAPACITY as int));
    }
}

/// Reading the books of a symbol moves the oldest update to the back and loses none:
/// the ring holds as many updates as before, and the same ones.
pub proof fn lemma_reading_keeps_books(c: Seq<DepthView>)
    requires
        c.len() > 0,
    ensures
        c.drop_first().push(c[0]).len() == c.len(),
        forall|x: DepthView| c.contains(x) <==> #[trigger] c.drop_first().push(c[0]).contains(x),
{
    let r = c.drop_first().push(c[0]);
    assert forall|x: DepthView| c.contains(x) <==> #[trigger] r.contains(x) by {
        if c.contains(x) {
            let i = choose|i: int| 0 <= i < c.len() && c[i] == x;
            if i == 0 {
                assert(r[r.len() - 1] == x);
            } else {
                assert(r[i - 1] == x);
            }
        }
        if r.contains(x) {
            let j = choose|j: int| 0 <= j < r.len() && r[j] == x;
            if j == r.len() - 1 {
                assert(c[0] == x);
            } else {
                assert(c[j + 1] == x);
            }
        }
    }
}

/// A symbol is sent for processing once: a second update recorded before its processing
/// ends does not send it again, and the first update after that does.
pub proof fn lemma_sent_once(e: (Seq<DepthView>, bool), u1: DepthView, u2: DepthView)
    ensures
        !recorded(recorded(e, u1).0, u2).1,
        recorded(released(recorded(e, u1).0), u2).1,
        recorded(e, u1).1 == !e.1,
{
}

/// A copy of book levels, equal to them.
pub fn copy_levels(levels: &Vec<[Decimal; 2]>) -> (r: Vec<[Decimal; 2]>)
    ensures
        r@ == levels@,
{
    let mut r: Vec<[Decimal; 2]> = Vec::new();
    let mut i: usize = 0;
    while i < levels.len()
        invariant
            i <= levels@.len(),
            r@ == levels@.take(i as int),
        decreases levels.len() - i,
    {
        let l = levels[i];
        r.push([l[0], l[1]]);
        assert(r@.last() == levels@[i as int]) by {
            assert(r@.last()@ =~= levels@[i as int]@);
        }
        i = i + 1;
        assert(r@ =~= levels@.take(i as int));
    }
    assert(levels@.take(levels.len() as int) =~= levels@);
    r
}

impl CacheEntry {
    /// An empty entry, not queued.
    pub fn new() -> (r: CacheEntry)
        ensures
            r@ == (Seq::<DepthView>::empty(), false),
    {
        CacheEntry { buf: depth_ring_new(), in_flight: false }
    }

    /// Stores a depth update (dropping the oldest of five) and marks the symbol queued;
    /// the result tells whether it was not queued yet, so that it must be sent for
    /// processing.
    pub fn record_update(&mut self, update: DepthUpdate) -> (send: bool)
        ensures
            (final(self)@, send) == recorded(old(self)@, update@),
    {
        depth_ring_push_overwrite(&mut self.buf, update);
        let was_in_flight = self.in_flight;
        self.in_flight = true;
        !was_in_flight
    }

    /// The bids (or asks) of the oldest stored update, which is moved to the back of the
    /// ring; `None` when nothing is stored.
    pub fn take_levels(&mut self, bids: bool) -> (r: Option<Vec<[Decimal; 2]>>)
        ensures
            final(self).in_flight == old(self).in_flight,
            depth_ring_contents(old(self).buf).len() == 0 ==> r is None && depth_ring_contents(
                final(self).buf,
            ) == depth_ring_contents(old(self).buf),
            depth_ring_contents(old(self).buf).len() > 0 ==> {
                let oldest = depth_ring_contents(old(self).buf)[0];
                &&& r is Some
                &&& levels_view(r.unwrap()@) == if bids {
                    oldest.1
                } else {
                    oldest.2
                }
                &&& depth_ring_contents(final(self).buf) == depth_ring_contents(
                    old(self).buf,
                ).drop_first().push(oldest)
            },
    {
        let depth = match depth_ring_try_pop(&mut self.buf) {
            Some(d) => d,
            None => return None,
        };
        let levels = if bids {
            copy_levels(&depth.bid_levels)
        } else {
            copy_levels(&depth.ask_levels)
        };
        let _ = depth_ring_try_push(&mut self.buf, depth);
        Some(levels)
    }

    /// The symbol is no longer queued.
    pub fn release(&mut self)
        ensures
            final(self)@ == released(old(self)@),
    {
        self.in_flight = false;
    }
}

/// Leg `leg` of the triangle is priced on the bids: the last leg sells C, and the middle
/// leg sells B when B is the base of the middle pair; otherwise the asks are used.
pub fn leg_uses_bids(triangle: &Triangle, leg: usize) -> (r: bool)
    requires
        leg < 3,
    ensures
        r == (leg == 2 || (leg == 1 && middle_sells(*triangle))),
{
    if leg == 0 {
        false
    } else if leg == 1 {
        triangle.intermediate_token == triangle.pairs[0].base && triangle.intermediate_token
            == triangle.pairs[1].base
    } else {
        true
    }
}

/// The levels of leg `leg` taken from the cached books of its symbol (see `take_levels`).
pub fn leg_levels(triangle: &Triangle, leg: usize, entry: &mut CacheEntry) -> (r: Option<Vec<[Decimal; 2]>>)
    requires
        leg < 3,
    ensures
        final(entry).in_flight == old(entry).in_flight,
        depth_ring_contents(old(entry).buf).len() == 0 ==> r is None,
        depth_ring_contents(old(entry).buf).len() > 0 ==> {
            let oldest = depth_ring_contents(old(entry).buf)[0];
            &&& r is Some
            &&& levels_view(r.unwrap()@) == if leg == 2 || (leg == 1 && middle_sells(*triangle)) {
                oldest.1
            } else {
                oldest.2
            }
            &&& depth_ring_contents(final(entry).buf) == depth_ring_contents(
                old(entry).buf,
            ).drop_first().push(oldest)
        },
{
    let bids = leg_uses_bids(triangle, leg);
    entry.take_levels(bids)
}

/// The symbols of the legs of the triangles, three per triangle, in order.
pub open spec fn leg_symbol_seq(ts: Seq<&Triangle>) -> Seq<Seq<char>>
    decreases ts.len(),
{
    if ts.len() == 0 {
        Seq::empty()
    } else {
        leg_symbol_seq(ts.drop_last()) + seq![
            ts.last().pairs[0].symbol@,
            ts.last().pairs[1].symbol@,
            ts.last().pairs[2].symbol@,
        ]
    }
}

/// Each text of `s` once, in the order of first occurrence.
pub open spec fn first_occurrences(s: Seq<Seq<char>>) -> Seq<Seq<char>>
    decreases s.len(),
{
    if s.len() == 0 {
        Seq::empty()
    } else {
        let d = first_occurrences(s.drop_last());
        if d.contains(s.last()) {
            d
        } else {
            d.push(s.last())
        }
    }
}

/// Whether `v` holds `s`.
fn contains_text(v: &Vec<String>, s: &String) -> (r: bool)
    ensures
        r == texts(v@).contains(s@),
{
    let mut i: usize = 0;
    while i < v.len()
        invariant
            i <= v.len(),
            forall|j: int| 0 <= j < i ==> texts(v@)[j] != s@,
        decreases v.len() - i,
    {
        if v[i] == *s {
            assert(texts(v@)[i as int] == s@);
            return true;
        }
        i = i + 1;
    }
    false
}

/// Appends `s` to `v` unless `v` already holds it.
fn push_new(v: &mut Vec<String>, s: &String)
    ensures
        texts(final(v)@) == if texts(old(v)@).contains(s@) {
            texts(old(v)@)
        } else {
            texts(old(v)@).push(s@)
        },
{
    if !contains_text(v, s) {
        let ghost before = v@;
        v.push(s.clone());
        assert(texts(v@) =~= texts(before).push(s@));
    }
}

/// The symbols that the triangles trade, each once, in the order in which their legs
/// first name them.
pub fn leg_symbols(triangles: &Vec<&Triangle>) -> (r: Vec<String>)
    ensures
        texts(r@) == first_occurrences(leg_symbol_seq(triangles@)),
{
    let mut r: Vec<String> = Vec::new();
    let mut i: usize = 0;
    assert(leg_symbol_seq(triangles@.take(0)) =~= Seq::<Seq<char>>::empty());
    assert(texts(r@) =~= Seq::<Seq<char>>::empty());
    while i < triangles.len()
        invariant
            i <= triangles.len(),
            texts(r@) == first_occurrences(leg_symbol_seq(triangles@.take(i as int))),
        decreases triangles.len() - i,
    {
        let t = triangles[i];
        let ghost base = leg_symbol_seq(triangles@.take(i as int));
        let ghost legs = seq![t.pairs[0].symbol@, t.pairs[1].symbol@, t.pairs[2].symbol@];
        let mut leg: usize = 0;
        assert(base + legs.take(0) =~= base);
        while leg < 3
            invariant
                leg <= 3,
                legs == seq![t.pairs[0].symbol@, t.pairs[1].symbol@, t.pairs[2].symbol@],
                texts(r@) == first_occurrences(base + legs.take(leg as int)),
            decreases 3 - leg,
        {
            push_new(&mut r, &t.pairs[leg].symbol);
            proof {
                let x = base + legs.take(leg as int);
                let y = base + legs.take(leg as int + 1);
                assert(y.drop_last() =~= x);
                assert(y.last() == legs[leg as int]);
            }
            leg = leg + 1;
        }
        proof {
            assert(triangles@.take(i as int + 1).drop_last() =~= triangles@.take(i as int));
            assert(legs.take(3) =~= legs);
        }
        i = i + 1;
    }
    assert(triangles@.take(triangles.len() as int) =~= triangles@);
    r
}

/// `s` is among `symbols` at a position marked present.
pub open spec fn cached(symbols: Seq<Seq<char>>, present: Seq<bool>, s: Seq<char>) -> bool {
    exists|i: int| 0 <= i < symbols.len() && symbols[i] == s && present[i]
}

/// All three legs of the triangle are cached.
pub open spec fn legs_cached(t: &Triangle, symbols: Seq<Seq<char>>, present: Seq<bool>) -> bool {
    &&& cached(symbols, present, t.pairs[0].symbol@)
    &&& cached(symbols, present, t.pairs[1].symbol@)
    &&& cached(symbols, present, t.pairs[2].symbol@)
}

fn is_cached(symbols: &Vec<String>, present: &Vec<bool>, s: &String) -> (r: bool)
    requires
        symbols.len() == present.len(),
    ensures
        r == cached(texts(symbols@), present@, s@),
{
    let mut i: usize = 0;
    while i < symbols.len()
        invariant
            i <= symbols.len(),
            symbols.len() == present.len(),
            forall|j: int| 0 <= j < i ==> !(texts(symbols@)[j] == s@ && present@[j]),
        decreases symbols.len() - i,
    {
        if present[i] && symbols[i] == *s {
            assert(texts(symbols@)[i as int] == s@);
            return true;
        }
        i = i + 1;
    }
    false
}

/// A triangle is selected for pricing exactly when the books of all three of its pairs
/// (`pairs[0]`, `pairs[1]` and `pairs[2]`) are cached: every selected triangle is one of the
/// candidates and has all three books, and every candidate with all three books is selected.
pub proof fn law_selected_triangles_have_all_books<'a>(
    triangles: Seq<&'a Triangle>,
    symbols: Seq<Seq<char>>,
    present: Seq<bool>,
    r: Seq<&'a Triangle>,
)
    requires
        r == triangles.filter(|t: &'a Triangle| legs_cached(t, symbols, present)),
    ensures
        forall|x: int, leg: int|
            0 <= x < r.len() && 0 <= leg < 3 ==> cached(symbols, present, (#[trigger] r[x].pairs[leg]).symbol@)
                && triangles.contains(r[x]),
        forall|i: int|
            #![trigger triangles[i]]
            0 <= i < triangles.len() && (forall|leg: int|
                0 <= leg < 3 ==> cached(symbols, present, (#[trigger] triangles[i].pairs[leg]).symbol@))
                ==> r.contains(triangles[i]),
{
    let pred = |t: &'a Triangle| legs_cached(t, symbols, present);
    assert forall|x: int, leg: int| 0 <= x < r.len() && 0 <= leg < 3 implies cached(
        symbols,
        present,
        (#[trigger] r[x].pairs[leg]).symbol@,
    ) && triangles.contains(r[x]) by {
        triangles.lemma_filter_pred(pred, x);
        assert(r.contains(r[x]));
        triangles.lemma_filter_contains_rev(pred, r[x]);
        assert(legs_cached(r[x], symbols, present));
        assert(cached(symbols, present, r[x].pairs[0].symbol@));
        assert(cached(symbols, present, r[x].pairs[1].symbol@));
        assert(cached(symbols, present, r[x].pairs[2].symbol@));
    }
    assert forall|i: int|
        #![trigger triangles[i]]
        0 <= i < triangles.len() && (forall|leg: int|
            0 <= leg < 3 ==> cached(symbols, present, (#[trigger] triangles[i].pairs[leg]).symbol@)) implies r.contains(
        triangles[i],
    ) by {
        let t = triangles[i];
        assert(cached(symbols, present, t.pairs[0].symbol@));
        assert(cached(symbols, present, t.pairs[1].symbol@));
        assert(cached(symbols, present, t.pairs[2].symbol@));
        assert(pred(t));
        triangles.lemma_filter_contains(pred, i);
    }
}

/// The triangles, in order, whose three symbols all have cached books; `present[i]`
/// tells whether `symbols[i]` has.
pub fn cached_triangles<'a>(
    triangles: &Vec<&'a Triangle>,
    symbols: &Vec<String>,
    present: &Vec<bool>,
) -> (r: Vec<&'a Triangle>)
    requires
        symbols.len() == present.len(),
    ensures
        r@ == triangles@.filter(|t: &'a Triangle| legs_cached(t, texts(symbols@), present@)),
        forall|x: int, leg: int|
            0 <= x < r@.len() && 0 <= leg < 3 ==> cached(
                texts(symbols@),
                present@,
                (#[trigger] r@[x].pairs[leg]).symbol@,
            ) && triangles@.contains(r@[x]),
        forall|i: int|
            #![trigger triangles@[i]]
            0 <= i < triangles@.len() && (forall|leg: int|
                0 <= leg < 3 ==> cached(texts(symbols@), present@, (#[trigger] triangles@[i].pairs[leg]).symbol@))
                ==> r@.contains(triangles@[i]),
{
    let ghost pred = |t: &'a Triangle| legs_cached(t, texts(symbols@), present@);
    let mut r: Vec<&'a Triangle> = Vec::new();
    let mut i: usize = 0;
    proof {
        reveal(Seq::filter);
        assert(triangles@.take(0).filter(pred) =~= Seq::<&'a Triangle>::empty());
    }
    while i < triangles.len()
        invariant
            i <= triangles.len(),
            symbols.len() == present.len(),
            pred == (|t: &'a Triangle| legs_cached(t, texts(symbols@), present@)),
            r@ == triangles@.take(i as int).filter(pred),
        decreases triangles.len() - i,
    {
        let t = triangles[i];
        let keep = is_cached(symbols, present, &t.pairs[0].symbol) && is_cached(
            symbols,
            present,
            &t.pairs[1].symbol,
        ) && is_cached(symbols, present, &t.pairs[2].symbol);
        proof {
            reveal(Seq::filter);
            let next = triangles@.take(i as int + 1);
            assert(next.drop_last() =~= triangles@.take(i as int));
            assert(next.last() == t);
            assert(keep == pred(t));
        }
        if keep {
            r.push(t);
        }
        i = i + 1;
    }
    assert(triangles@.take(triangles.len() as int) =~= triangles@);
    proof {
        law_selected_triangles_have_all_books(triangles@, texts(symbols@), present@, r@);
    }
    r
}

/// What the engine does with a computed plan.
#[derive(Debug, PartialEq, Eq)]
pub enum PlanVerdict {
    /// The plan is profitable enough: publish it.
    Publish,
    /// The plan is valid but its profit is below the threshold.
    Unprofitable,
    /// No plan: an order was refused or the clock failed.
    Failed,
}

/// A plan is published when it exists and its profit is at least `min_profit_percent`.
pub fn judge_plan(plan: &Result<ArbitragePlan, PlanError>, min_profit_percent: Decimal) -> (r: PlanVerdict)
    ensures
        r == (match plan {
            Ok(p) => if value_lt(p.profit_percent@, min_profit_percent@) {
                PlanVerdict::Unprofitable
            } else {
                PlanVerdict::Publish
            },
            Err(_) => PlanVerdict::Failed,
        }),
{
    match plan {
        Ok(p) => if less_than(p.profit_percent, min_profit_percent) {
            PlanVerdict::Unprofitable
        } else {
            PlanVerdict::Publish
        },
        Err(_) => PlanVerdict::Failed,
    }
}

} // verus!
