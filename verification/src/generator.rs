//! The seven-piece randomiser: each kind is dealt once per round of seven,
//! in an order drawn at random.
use vstd::prelude::*;

use rand::seq::SliceRandom;

use crate::mino::{MinoKind, spec_kind_of_index};

verus! {

/// `rand::rngs::ThreadRng`, declared so that the randomiser can hold it;
/// nothing inside it is visible to the contracts.
#[verifier::external_type_specification]
#[verifier::external_body]
pub struct ExThreadRng(rand::rngs::ThreadRng);

/// `rand::thread_rng`: a handle on this thread's random generator. Nothing is
/// stated of it; it only carries the generator's state between draws. (It
/// panics only if the operating system's random source fails when the
/// generator is first seeded.)
#[verifier::external_body]
fn new_thread_rng() -> rand::rngs::ThreadRng {
    rand::thread_rng()
}

/// `SliceRandom::choose` on a slice: `None` exactly when the slice is empty,
/// else one of its elements. Which element, and with what likelihood, is
/// left unsaid: it rests on the random generator. (Drawing panics only if
/// the operating system's random source fails when the generator reseeds.)
#[verifier::external_body]
fn choose_candidate(cands: &Vec<usize>, rng: &mut rand::rngs::ThreadRng) -> (r: Option<usize>)
    ensures
        r is None <==> cands@.len() == 0,
        r matches Some(v) ==> cands@.contains(v),
{
    cands.choose(rng).copied()
}

/// The randomiser's state: how often each kind has been dealt, and the
/// current round.
pub struct BagView {
    pub dealt: Seq<u32>,
    pub round: u32,
}

impl BagView {
    /// Seven kinds, none dealt more than the round allows, none lagging by
    /// more than one round.
    pub open spec fn wf(self) -> bool {
        &&& self.dealt.len() == 7
        &&& forall|i: int|
            0 <= i < 7 ==> #[trigger] self.dealt[i] <= self.round && self.round <= self.dealt[i] + 1
    }

    /// The round in which the next kind is dealt: a new one begins once
    /// every kind has been dealt in the current one.
    pub open spec fn next_round(self) -> int {
        if forall|i: int| 0 <= i < 7 ==> #[trigger] self.dealt[i] >= self.round {
            self.round + 1
        } else {
            self.round as int
        }
    }

    /// Kind index `i` may be dealt next: it has not been dealt in that round.
    pub open spec fn can_deal(self, i: int) -> bool {
        0 <= i < 7 && self.dealt[i] < self.next_round()
    }

    /// The state after dealing kind index `i`.
    pub open spec fn after_deal(self, i: int) -> BagView {
        BagView {
            dealt: self.dealt.update(i, (self.dealt[i] + 1) as u32),
            round: self.next_round() as u32,
        }
    }

    /// The state before anything is dealt.
    pub open spec fn fresh() -> BagView {
        BagView { dealt: seq![0u32, 0u32, 0u32, 0u32, 0u32, 0u32, 0u32], round: 0 }
    }
}

/// The index under which the randomiser deals a kind; the empty piece has
/// none among the seven (it is never dealt).
pub open spec fn spec_index_of_kind(k: MinoKind) -> int {
    match k {
        MinoKind::I => 0,
        MinoKind::O => 1,
        MinoKind::S => 2,
        MinoKind::Z => 3,
        MinoKind::J => 4,
        MinoKind::L => 5,
        MinoKind::T => 6,
        MinoKind::D => 7,
    }
}

/// The randomiser.
pub struct MinoGenerator {
    dropped: Vec<(usize, u32)>,
    count: u32,
    rng: rand::rngs::ThreadRng,
}

impl View for MinoGenerator {
    type V = BagView;

    closed spec fn view(&self) -> BagView {
        BagView { dealt: Seq::new(7, |i: int| self.dropped@[i].1), round: self.count }
    }
}

impl MinoGenerator {
    /// The state is well formed: seven counters, in kind order, within one
    /// round of each other.
    pub closed spec fn wf(&self) -> bool {
        &&& self.dropped@.len() == 7
        &&& forall|i: int| 0 <= i < 7 ==> #[trigger] self.dropped@[i].0 == i
        &&& self@.wf()
    }

    /// A well-formed randomiser's state is well formed.
    pub proof fn lemma_wf(&self)
        requires
            self.wf(),
        ensures
            self@.wf(),
    {
    }

    /// A randomiser before anything is dealt.
    pub fn new() -> (r: MinoGenerator)
        ensures
            r.wf(),
            r@ == BagView::fresh(),
    {
        let mut dropped: Vec<(usize, u32)> = Vec::new();
        let mut i: usize = 0;
        while i < 7
            invariant
                i <= 7,
                dropped@.len() == i,
                forall|a: int| 0 <= a < i ==> #[trigger] dropped@[a] == (a as usize, 0u32),
            decreases 7 - i,
        {
            dropped.push((i, 0));
            i += 1;
        }
        let r = MinoGenerator { dropped, count: 0, rng: new_thread_rng() };
        assert(r@.dealt =~= BagView::fresh().dealt);
        r
    }

    /// The current round (how many rounds of seven have begun).
    pub fn round_count(&self) -> (r: u32)
        ensures
            r == self@.round,
    {
        self.count
    }

    /// Whether the next deal's round number fits in a `u32` (it does unless
    /// a new round would begin after `u32::MAX` rounds).
    pub fn can_deal_next(&self) -> (r: bool)
        requires
            self.wf(),
        ensures
            r == (self@.next_round() <= u32::MAX),
    {
        self.count < u32::MAX || !self.round_complete()
    }

    /// Whether every kind has been dealt in the current round.
    fn round_complete(&self) -> (r: bool)
        requires
            self.wf(),
        ensures
            r == forall|i: int| 0 <= i < 7 ==> #[trigger] self@.dealt[i] >= self@.round,
    {
        let mut all_dealt = true;
        let mut k: usize = 0;
        while k < self.dropped.len()
            invariant
                self.wf(),
                k <= 7,
                all_dealt <==> forall|a: int| 0 <= a < k ==> #[trigger] self@.dealt[a] >= self@.round,
            decreases 7 - k,
        {
            assert(self@.dealt[k as int] == self.dropped@[k as int].1);
            if self.dropped[k].1 < self.count {
                all_dealt = false;
            }
            k += 1;
        }
        all_dealt
    }

    /// The kind indices that may be dealt next, in order.
    fn candidates(&self) -> (r: Vec<usize>)
        requires
            self.wf(),
            self@.next_round() <= u32::MAX,
        ensures
            r@.len() > 0,
            forall|c: int| 0 <= c < r@.len() ==> #[trigger] self@.can_deal(r@[c] as int),
            forall|a: int| 0 <= a < 7 && #[trigger] self@.can_deal(a) ==> r@.contains(a as usize),
    {
        let ghost g0 = self@;
        let next_round = if self.round_complete() {
            self.count + 1
        } else {
            self.count
        };
        let mut cands: Vec<usize> = Vec::new();
        let mut k: usize = 0;
        while k < self.dropped.len()
            invariant
                self.wf(),
                self@ == g0,
                next_round == g0.next_round(),
                k <= 7,
                forall|c: int| 0 <= c < cands@.len() ==> #[trigger] g0.can_deal(cands@[c] as int),
                forall|a: int|
                    0 <= a < k && #[trigger] g0.can_deal(a) ==> cands@.contains(a as usize),
            decreases 7 - k,
        {
            assert(g0.dealt[k as int] == self.dropped@[k as int].1);
            let ghost old_cands = cands@;
            if self.dropped[k].1 < next_round {
                let idx = self.dropped[k].0;
                cands.push(idx);
                assert(cands@[cands@.len() - 1] == k);
            }
            proof {
                assert forall|a: int|
                    0 <= a < k + 1 && #[trigger] g0.can_deal(a) implies cands@.contains(a as usize) by {
                    if a < k {
                        let c = choose|c: int| 0 <= c < old_cands.len() && old_cands[c] == a as usize;
                        assert(cands@[c] == a as usize);
                    } else {
                        assert(cands@[cands@.len() - 1] == k);
                    }
                }
            }
            k += 1;
        }
        proof {
            if forall|i: int| 0 <= i < 7 ==> #[trigger] g0.dealt[i] >= g0.round {
                assert(g0.can_deal(0));
            } else {
                let w = choose|i: int| 0 <= i < 7 && !(#[trigger] g0.dealt[i] >= g0.round);
                assert(g0.can_deal(w));
            }
        }
        cands
    }

    /// Deals kind index `i` (one that may be dealt next): a new round begins
    /// if every kind has been dealt in the current one.
    pub fn deal(&mut self, i: usize) -> (r: MinoKind)
        requires
            old(self).wf(),
            old(self)@.next_round() <= u32::MAX,
            old(self)@.can_deal(i as int),
        ensures
            final(self).wf(),
            final(self)@ == old(self)@.after_deal(i as int),
            r == spec_kind_of_index(i as int),
            r != MinoKind::D,
            spec_index_of_kind(r) == i,
    {
        let ghost g0 = self@;
        if self.round_complete() {
            self.count += 1;
        }
        let (idx, n) = self.dropped[i];
        self.dropped.set(i, (idx, n + 1));
        let r = MinoKind::of_index(i);
        proof {
            assert(self@.dealt =~= g0.after_deal(i as int).dealt);
            assert forall|a: int| 0 <= a < 7 implies #[trigger] self@.dealt[a] <= self@.round
                && self@.round <= self@.dealt[a] + 1 by {
                assert(g0.dealt[a] <= g0.round && g0.round <= g0.dealt[a] + 1);
            }
        }
        r
    }

    /// Deals the next kind: one not yet dealt in the current round (a new
    /// round beginning once all seven have been dealt), chosen at random.
    pub fn generate(&mut self) -> (r: MinoKind)
        requires
            old(self).wf(),
            old(self)@.next_round() <= u32::MAX,
        ensures
            final(self).wf(),
            r != MinoKind::D,
            old(self)@.can_deal(spec_index_of_kind(r)),
            final(self)@ == old(self)@.after_deal(spec_index_of_kind(r)),
            spec_kind_of_index(spec_index_of_kind(r)) == r,
            deals_ok(old(self)@, seq![r]),
            final(self)@ == deal_all(old(self)@, seq![r]),
    {
        let ghost g0 = self@;
        let cands = self.candidates();
        let pick = choose_candidate(&cands, &mut self.rng);
        let i = pick.unwrap();
        proof {
            let c = choose|c: int| 0 <= c < cands@.len() && cands@[c] == i;
            assert(self@.can_deal(cands@[c] as int));
        }
        let r = self.deal(i);
        proof {
            let e = Seq::<MinoKind>::empty();
            assert(seq![r].drop_last() =~= e);
            assert(seq![r].last() == r);
            assert(deal_all(g0, e) == g0);
            assert(deals_ok(g0, e));
            assert(g0.can_deal(spec_index_of_kind(r)));
        }
        r
    }
}

/// The bag's state after dealing the kinds `ks` in order.
pub open spec fn deal_all(b: BagView, ks: Seq<MinoKind>) -> BagView
    decreases ks.len(),
{
    if ks.len() == 0 {
        b
    } else {
        deal_all(b, ks.drop_last()).after_deal(spec_index_of_kind(ks.last()))
    }
}

/// Each of the kinds `ks`, in order, may be dealt after those before it.
pub open spec fn deals_ok(b: BagView, ks: Seq<MinoKind>) -> bool
    decreases ks.len(),
{
    ks.len() == 0 || (deals_ok(b, ks.drop_last()) && deal_all(b, ks.drop_last()).can_deal(
        spec_index_of_kind(ks.last()),
    ))
}


/// The number of the first `n` counters that equal `v`.
pub open spec fn count_at(dealt: Seq<u32>, v: int, n: int) -> int
    decreases n,
{
    if n <= 0 {
        0
    } else {
        count_at(dealt, v, n - 1) + if dealt[n - 1] == v {
            1int
        } else {
            0int
        }
    }
}

proof fn lemma_count_update(dealt: Seq<u32>, v: int, n: int, i: int, x: u32)
    requires
        0 <= i < dealt.len(),
        0 <= n <= dealt.len(),
    ensures
        count_at(dealt.update(i, x), v, n) == count_at(dealt, v, n) - (if i < n && dealt[i] == v {
            1int
        } else {
            0int
        }) + (if i < n && x == v {
            1int
        } else {
            0int
        }),
    decreases n,
{
    if n > 0 {
        lemma_count_update(dealt, v, n - 1, i, x);
    }
}

proof fn lemma_count_all(dealt: Seq<u32>, v: int, n: int)
    requires
        0 <= n <= dealt.len(),
        forall|j: int| 0 <= j < n ==> #[trigger] dealt[j] == v,
    ensures
        count_at(dealt, v, n) == n,
    decreases n,
{
    if n > 0 {
        lemma_count_all(dealt, v, n - 1);
    }
}

/// Within a round, the kinds dealt are all different: starting where every
/// kind has been dealt equally often, up to seven deals give seven different
/// kinds, and after seven every kind has been dealt once more.
pub proof fn lemma_round_distinct(b: BagView, ks: Seq<MinoKind>)
    requires
        b.wf(),
        forall|i: int| 0 <= i < 7 ==> #[trigger] b.dealt[i] == b.round,
        b.round < u32::MAX,
        deals_ok(b, ks),
        1 <= ks.len() <= 7,
    ensures
        deal_all(b, ks).round == b.round + 1,
        deal_all(b, ks).dealt.len() == 7,
        forall|j: int|
            0 <= j < 7 ==> (#[trigger] deal_all(b, ks).dealt[j] == b.round + 1 <==> exists|a: int|
                0 <= a < ks.len() && spec_index_of_kind(ks[a]) == j),
        forall|j: int|
            0 <= j < 7 ==> #[trigger] deal_all(b, ks).dealt[j] == b.round || deal_all(b, ks).dealt[j]
                == b.round + 1,
        count_at(deal_all(b, ks).dealt, b.round + 1, 7) == ks.len(),
        forall|a: int, c: int|
            0 <= a < c < ks.len() ==> spec_index_of_kind(#[trigger] ks[a]) != spec_index_of_kind(
                #[trigger] ks[c],
            ),
        forall|a: int, c: int| 0 <= a < c < ks.len() ==> #[trigger] ks[a] != #[trigger] ks[c],
    decreases ks.len(),
{
    let r = b.round as int;
    let n = ks.len() as int;
    let pre = ks.drop_last();
    let last = spec_index_of_kind(ks.last());
    if n == 1 {
        assert(pre =~= Seq::<MinoKind>::empty());
        assert(deal_all(b, pre) == b);
        assert(b.next_round() == r + 1);
        lemma_count_all(b.dealt, r, 7);
        let d = deal_all(b, ks);
        assert(d.dealt == b.dealt.update(last, (r + 1) as u32));
        lemma_count_update(b.dealt, r + 1, 7, last, (r + 1) as u32);
        assert(count_at(b.dealt, r + 1, 7) == 0) by {
            lemma_count_zero(b.dealt, r + 1, 7);
        }
        assert forall|j: int|
            0 <= j < 7 implies (#[trigger] d.dealt[j] == r + 1 <==> exists|a: int|
            0 <= a < ks.len() && spec_index_of_kind(ks[a]) == j) by {
            if j == last {
                assert(spec_index_of_kind(ks[0]) == j);
            }
        }
    } else {
        lemma_round_distinct(b, pre);
        let p = deal_all(b, pre);
        assert(deals_ok(b, pre) && p.can_deal(last));
        assert(count_at(p.dealt, r + 1, 7) == n - 1);
        assert(exists|j: int| 0 <= j < 7 && p.dealt[j] != r + 1) by {
            if forall|j: int| 0 <= j < 7 ==> #[trigger] p.dealt[j] == r + 1 {
                lemma_count_all(p.dealt, r + 1, 7);
            }
        }
        let w = choose|j: int| 0 <= j < 7 && p.dealt[j] != r + 1;
        assert(p.dealt[w] == r);
        assert(!(forall|i: int| 0 <= i < 7 ==> #[trigger] p.dealt[i] >= p.round));
        assert(p.next_round() == r + 1);
        assert(p.dealt[last] == r);
        let d = deal_all(b, ks);
        assert(d.dealt == p.dealt.update(last, (r + 1) as u32));
        lemma_count_update(p.dealt, r + 1, 7, last, (r + 1) as u32);
        assert forall|a: int| 0 <= a < n - 1 implies spec_index_of_kind(#[trigger] pre[a]) != last by {
            if spec_index_of_kind(pre[a]) == last {
                assert(p.dealt[last] == r + 1);
            }
        }
        assert forall|j: int|
            0 <= j < 7 implies (#[trigger] d.dealt[j] == r + 1 <==> exists|a: int|
            0 <= a < ks.len() && spec_index_of_kind(ks[a]) == j) by {
            if j == last {
                assert(spec_index_of_kind(ks[n - 1]) == j);
            } else if p.dealt[j] == r + 1 {
                let a = choose|a: int| 0 <= a < pre.len() && spec_index_of_kind(pre[a]) == j;
                assert(ks[a] == pre[a]);
            } else {
                if exists|a: int| 0 <= a < ks.len() && spec_index_of_kind(ks[a]) == j {
                    let a = choose|a: int| 0 <= a < ks.len() && spec_index_of_kind(ks[a]) == j;
                    if a < n - 1 {
                        assert(ks[a] == pre[a]);
                    }
                }
            }
        }
        assert forall|a: int, c: int|
            0 <= a < c < ks.len() implies spec_index_of_kind(#[trigger] ks[a]) != spec_index_of_kind(
            #[trigger] ks[c],
        ) by {
            assert(ks[a] == pre[a]);
            if c < n - 1 {
                assert(ks[c] == pre[c]);
            }
        }
    }
}

proof fn lemma_count_zero(dealt: Seq<u32>, v: int, n: int)
    requires
        0 <= n <= dealt.len(),
        forall|j: int| 0 <= j < n ==> #[trigger] dealt[j] != v,
    ensures
        count_at(dealt, v, n) == 0,
    decreases n,
{
    if n > 0 {
        lemma_count_zero(dealt, v, n - 1);
    }
}

proof fn lemma_count_full(dealt: Seq<u32>, v: int, n: int)
    requires
        0 <= n <= dealt.len(),
        count_at(dealt, v, n) == n,
    ensures
        forall|j: int| 0 <= j < n ==> #[trigger] dealt[j] == v,
    decreases n,
{
    if n > 0 {
        lemma_count_le(dealt, v, n - 1);
        lemma_count_full(dealt, v, n - 1);
    }
}

proof fn lemma_count_le(dealt: Seq<u32>, v: int, n: int)
    requires
        0 <= n <= dealt.len(),
    ensures
        0 <= count_at(dealt, v, n) <= n,
    decreases n,
{
    if n > 0 {
        lemma_count_le(dealt, v, n - 1);
    }
}

/// Kind index `j` is among the kinds `ks`.
pub open spec fn deals_kind(ks: Seq<MinoKind>, j: int) -> bool {
    exists|a: int| 0 <= a < ks.len() && spec_index_of_kind(ks[a]) == j
}

/// A full round of seven deals, from a point where every kind has been
/// dealt equally often, deals every kind exactly once and ends at such a
/// point again, one round further on.
pub proof fn lemma_full_round(b: BagView, ks: Seq<MinoKind>)
    requires
        b.wf(),
        forall|i: int| 0 <= i < 7 ==> #[trigger] b.dealt[i] == b.round,
        b.round < u32::MAX,
        deals_ok(b, ks),
        ks.len() == 7,
    ensures
        forall|j: int| 0 <= j < 7 ==> #[trigger] deals_kind(ks, j),
        forall|a: int, c: int| 0 <= a < c < 7 ==> #[trigger] ks[a] != #[trigger] ks[c],
        deal_all(b, ks).wf(),
        deal_all(b, ks).round == b.round + 1,
        forall|i: int| 0 <= i < 7 ==> #[trigger] deal_all(b, ks).dealt[i] == deal_all(b, ks).round,
{
    lemma_round_distinct(b, ks);
    let d = deal_all(b, ks);
    lemma_count_full(d.dealt, b.round + 1, 7);
    assert forall|j: int| 0 <= j < 7 implies #[trigger] deals_kind(ks, j) by {
        assert(d.dealt[j] == b.round + 1);
    }
}

/// The first pieces of a game, up to seven, are all different.
pub proof fn lemma_first_round(ks: Seq<MinoKind>)
    requires
        deals_ok(BagView::fresh(), ks),
        1 <= ks.len() <= 7,
    ensures
        forall|a: int, c: int| 0 <= a < c < ks.len() ==> #[trigger] ks[a] != #[trigger] ks[c],
{
    lemma_round_distinct(BagView::fresh(), ks);
}

/// Only real pieces are ever dealt: the empty piece has no index among the
/// seven, so no sequence of deals holds it.
pub proof fn lemma_deals_real(b: BagView, ks: Seq<MinoKind>)
    requires
        deals_ok(b, ks),
    ensures
        forall|a: int| 0 <= a < ks.len() ==> #[trigger] ks[a] != MinoKind::D,
    decreases ks.len(),
{
    if ks.len() > 0 {
        lemma_deals_real(b, ks.drop_last());
        assert forall|a: int| 0 <= a < ks.len() implies #[trigger] ks[a] != MinoKind::D by {
            if a < ks.len() - 1 {
                assert(ks[a] == ks.drop_last()[a]);
            }
        }
    }
}

/// Dealing `a` then `c` is dealing `a + c`.
pub proof fn lemma_deal_concat(b: BagView, a: Seq<MinoKind>, c: Seq<MinoKind>)
    ensures
        deal_all(b, a + c) == deal_all(deal_all(b, a), c),
        deals_ok(b, a + c) == (deals_ok(b, a) && deals_ok(deal_all(b, a), c)),
    decreases c.len(),
{
    if c.len() == 0 {
        assert(a + c =~= a);
    } else {
        let c1 = c.drop_last();
        lemma_deal_concat(b, a, c1);
        assert((a + c).drop_last() =~= a + c1);
        assert((a + c).last() == c.last());
    }
}

/// After `k` full rounds dealt from a fresh randomiser, every kind has been
/// dealt exactly `k` times and the round number is `k`.
proof fn lemma_rounds_balanced(ks: Seq<MinoKind>, k: int)
    requires
        deals_ok(BagView::fresh(), ks),
        0 <= k,
        7 * k <= ks.len(),
        k <= u32::MAX,
    ensures
        deal_all(BagView::fresh(), ks.subrange(0, 7 * k)).wf(),
        deal_all(BagView::fresh(), ks.subrange(0, 7 * k)).round == k,
        forall|i: int|
            0 <= i < 7 ==> #[trigger] deal_all(BagView::fresh(), ks.subrange(0, 7 * k)).dealt[i]
                == k,
    decreases k,
{
    let f = BagView::fresh();
    if k == 0 {
        assert(ks.subrange(0, 0) =~= Seq::<MinoKind>::empty());
    } else {
        lemma_rounds_balanced(ks, k - 1);
        let p = ks.subrange(0, 7 * (k - 1));
        let r = ks.subrange(7 * (k - 1), 7 * k);
        let whole = ks.subrange(0, 7 * k);
        assert(whole =~= p + r);
        assert(ks =~= whole + ks.subrange(7 * k, ks.len() as int));
        lemma_deal_concat(f, whole, ks.subrange(7 * k, ks.len() as int));
        lemma_deal_concat(f, p, r);
        lemma_full_round(deal_all(f, p), r);
    }
}

/// The seven-piece rule holds in every round: from a fresh randomiser, the
/// deals `7k + 1 ..= 7k + 7` are the seven kinds, each once.
pub proof fn lemma_every_round(ks: Seq<MinoKind>, k: int)
    requires
        deals_ok(BagView::fresh(), ks),
        0 <= k < u32::MAX,
        7 * (k + 1) <= ks.len(),
    ensures
        forall|j: int| 0 <= j < 7 ==> #[trigger] deals_kind(ks.subrange(7 * k, 7 * k + 7), j),
        forall|a: int, c: int|
            0 <= a < c < 7 ==> #[trigger] ks[7 * k + a] != #[trigger] ks[7 * k + c],
{
    let f = BagView::fresh();
    lemma_rounds_balanced(ks, k);
    let p = ks.subrange(0, 7 * k);
    let r = ks.subrange(7 * k, 7 * k + 7);
    assert(ks =~= (p + r) + ks.subrange(7 * k + 7, ks.len() as int));
    lemma_deal_concat(f, p + r, ks.subrange(7 * k + 7, ks.len() as int));
    lemma_deal_concat(f, p, r);
    lemma_full_round(deal_all(f, p), r);
    assert forall|a: int, c: int| 0 <= a < c < 7 implies #[trigger] ks[7 * k + a] != #[trigger] ks[7
        * k + c] by {
        assert(r[a] == ks[7 * k + a]);
        assert(r[c] == ks[7 * k + c]);
    }
}

} // verus!
