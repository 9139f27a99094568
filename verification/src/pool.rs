//! The shuffled pool and the draw engine: a flat sequence of slots, one per
//! unit of a prize, a shuffled assignment of slots to prizes, and an index
//! of the slots that remain drawable, shrinking by one on each draw.

use vstd::prelude::*;

use crate::error::GashaponError;
use crate::prize::GashaponItem;
use crate::prize::GashaponItemV;
use crate::prize::PrizeItem;
use crate::prize::PrizeItemV;
use crate::prize::catalog_view;
use crate::prize::prizes_view;
use crate::utils::count_of;
use crate::utils::eq_weight;
use crate::utils::fy;
use crate::utils::lcg_next;
use crate::utils::lcg_output;
use crate::utils::lemma_fy_len;
use crate::utils::lemma_fy_sum;
use crate::utils::lemma_sum_by_at_least;
use crate::utils::lemma_sum_by_pair;
use crate::utils::lemma_sum_by_zero;
use crate::utils::randomize;
use crate::utils::rng;

verus! {

/// What the pool is at the specification level.
pub struct PrizesV {
    /// The flat expansion of the catalog: one entry per unit of a prize.
    pub items: Seq<PrizeItemV>,
    /// The positions of the not-yet-drawn slots, in shuffled order.
    pub idx_box: Seq<usize>,
    /// The shuffled assignment of slots to prizes; a drawn slot is None.
    pub randomized: Seq<Option<usize>>,
    /// The configured seed, if one was supplied.
    pub seed: Option<usize>,
    /// The generator state the next draw steps from.
    pub draw_seed: usize,
}

impl PrizesV {
    /// Structural soundness of the pool: index-box entries are distinct
    /// positions of live slots, live slots point into the expansion, and a
    /// slot is live exactly when the index box still holds its position.
    pub open spec fn wf(self) -> bool {
        &&& forall|t: int|
            0 <= t < self.idx_box.len() ==> (#[trigger] self.idx_box[t] as int)
                < self.randomized.len()
        &&& forall|t1: int, t2: int|
            0 <= t1 < t2 < self.idx_box.len() ==> self.idx_box[t1] != self.idx_box[t2]
        &&& forall|t: int|
            0 <= t < self.idx_box.len() ==> (#[trigger] self.randomized[self.idx_box[t] as int])
                is Some
        &&& forall|s: int|
            0 <= s < self.randomized.len() && (#[trigger] self.randomized[s]) is Some
                ==> exists|t: int|
                0 <= t < self.idx_box.len() && (#[trigger] self.idx_box[t] as int) == s
        &&& forall|s: int|
            0 <= s < self.randomized.len() && (#[trigger] self.randomized[s]) is Some ==> (
            self.randomized[s]->0 as int) < self.items.len()
    }

    /// How many slots remain drawable.
    pub open spec fn remaining(self) -> int {
        self.idx_box.len() as int
    }

    /// The generator state after the step a draw makes.
    pub open spec fn step_seed(self) -> usize {
        lcg_next(self.draw_seed)
    }

    /// The position inside the index box the next draw picks.
    pub open spec fn draw_pos(self) -> int {
        (lcg_output(self.step_seed()) as int) % self.remaining()
    }

    /// The slot the next draw consumes.
    pub open spec fn draw_slot(self) -> int {
        self.idx_box[self.draw_pos()] as int
    }

    /// The index, into the expansion, of the prize the next draw yields.
    pub open spec fn drawn_index(self) -> int {
        self.randomized[self.draw_slot()]->0 as int
    }

    /// The prize the next draw yields.
    pub open spec fn drawn_prize(self) -> PrizeItemV {
        self.items[self.drawn_index()]
    }

    /// The pool after one draw: the picked position leaves the index box by
    /// a swap with the last entry, the slot is marked consumed, and the
    /// generator state advances.
    pub open spec fn after_draw(self) -> PrizesV {
        PrizesV {
            idx_box: self.idx_box.update(self.draw_pos(), self.idx_box.last()).drop_last(),
            randomized: self.randomized.update(self.draw_slot(), None),
            draw_seed: self.step_seed(),
            ..self
        }
    }

    /// The pool after a run of successful draws.
    pub open spec fn after_draws(self, n: nat) -> PrizesV
        decreases n,
    {
        if n == 0 {
            self
        } else {
            self.after_draws((n - 1) as nat).after_draw()
        }
    }
}

/// The slot assignment before shuffling: slot `i` holds one unit of the
/// `i`-th entry of the expansion.
pub open spec fn init_slots(n: int) -> Seq<Option<usize>> {
    Seq::new(if n < 0 { 0nat } else { n as nat }, |i: int| Some(i as usize))
}

/// The index box before shuffling: the positions 0 through `n - 1` in
/// order.
pub open spec fn init_idx(n: int) -> Seq<usize> {
    Seq::new(if n < 0 { 0nat } else { n as nat }, |i: int| i as usize)
}

/// A slot value occurs in the unshuffled assignment once if its index is in
/// range and never otherwise.
pub proof fn lemma_count_init_slots(n: int, o: Option<usize>)
    requires
        n <= usize::MAX,
    ensures
        count_of(init_slots(n), o) == (match o {
            Some(k) => if 0 <= k < n { 1int } else { 0int },
            None => 0int,
        }),
    decreases n,
{
    if n > 0 {
        assert(init_slots(n).drop_last() =~= init_slots(n - 1));
        assert(init_slots(n).last() == Some((n - 1) as usize));
        lemma_count_init_slots(n - 1, o);
    }
}

/// A position occurs in the unshuffled index box once if it is in range and
/// never otherwise.
pub proof fn lemma_count_init_idx(n: int, v: usize)
    requires
        n <= usize::MAX,
    ensures
        count_of(init_idx(n), v) == if 0 <= v < n { 1int } else { 0int },
    decreases n,
{
    if n > 0 {
        assert(init_idx(n).drop_last() =~= init_idx(n - 1));
        assert(init_idx(n).last() == (n - 1) as usize);
        lemma_count_init_idx(n - 1, v);
    }
}

/// A quantity of each prize, expanded: the prize repeated once per unit.
pub open spec fn repeat_prize(p: PrizeItemV, n: int) -> Seq<PrizeItemV> {
    Seq::new(if n < 0 { 0nat } else { n as nat }, |i: int| p)
}

/// The flat expansion of a catalog: each entry's prize, repeated once per
/// unit of its current quantity, in catalog order.
pub open spec fn expand(items: Seq<GashaponItemV>) -> Seq<PrizeItemV>
    decreases items.len(),
{
    if items.len() == 0 {
        Seq::empty()
    } else {
        expand(items.drop_last()) + repeat_prize(items.last().prize, items.last().quantity as int)
    }
}

/// The prize pool: the expansion of a catalog, its shuffled slot
/// assignment, and the index of the slots that remain drawable.
#[derive(Debug)]
pub struct Prizes {
    /// The flat expansion of the catalog, one entry per unit.
    pub items: Vec<PrizeItem>,
    /// The positions of the not-yet-drawn slots, in shuffled order.
    pub idx_box: Vec<usize>,
    /// The shuffled assignment of slots to prizes; a drawn slot is None.
    pub randomized_items: Vec<Option<usize>>,
    seed: Option<usize>,
    draw_seed: usize,
}

impl View for Prizes {
    type V = PrizesV;

    closed spec fn view(&self) -> PrizesV {
        PrizesV {
            items: prizes_view(self.items@),
            idx_box: self.idx_box@,
            randomized: self.randomized_items@,
            seed: self.seed,
            draw_seed: self.draw_seed,
        }
    }
}

impl Default for Prizes {
    /// An empty pool with no seed configured.
    fn default() -> (r: Self)
        ensures
            r@.items.len() == 0,
            r@.idx_box.len() == 0,
            r@.randomized.len() == 0,
            r@.seed is None,
            r@.draw_seed == 0,
            r@.wf(),
    {
        Prizes::new()
    }
}

impl Prizes {
    /// An empty pool with no seed configured.
    pub fn new() -> (r: Self)
        ensures
            r@.items.len() == 0,
            r@.idx_box.len() == 0,
            r@.randomized.len() == 0,
            r@.seed is None,
            r@.draw_seed == 0,
            r@.wf(),
    {
        Prizes {
            items: Vec::new(),
            idx_box: Vec::new(),
            randomized_items: Vec::new(),
            seed: None,
            draw_seed: 0,
        }
    }

    /// Fill the pool's expansion from a catalog: each entry's prize once
    /// per unit of its current quantity, in catalog order. The derived
    /// shuffle state — the slot assignment and the index box — is left as
    /// it was, and so goes stale against the new expansion; only a build
    /// replaces it, and one must follow before drawing.
    pub fn with_items(&mut self, items: &Vec<GashaponItem>)
        ensures
            final(self)@.items == expand(catalog_view(items@)),
            final(self)@.idx_box == old(self)@.idx_box,
            final(self)@.randomized == old(self)@.randomized,
            final(self)@.seed == old(self)@.seed,
            final(self)@.draw_seed == old(self)@.draw_seed,
    {
        let ghost cat = catalog_view(items@);
        let mut expanded: Vec<PrizeItem> = Vec::new();
        let mut i: usize = 0;
        proof {
            assert(prizes_view(expanded@) =~= expand(cat.take(0)));
        }
        while i < items.len()
            invariant
                i <= items@.len(),
                cat == catalog_view(items@),
                cat.len() == items@.len(),
                prizes_view(expanded@) == expand(cat.take(i as int)),
            decreases items@.len() - i,
        {
            let quantity = items[i].get_quantity();
            let mut c: u64 = 0;
            while c < quantity
                invariant
                    i < items@.len(),
                    cat == catalog_view(items@),
                    cat.len() == items@.len(),
                    cat[i as int] == items@[i as int]@,
                    quantity == cat[i as int].quantity,
                    c <= quantity,
                    prizes_view(expanded@) == expand(cat.take(i as int)) + repeat_prize(
                        cat[i as int].prize,
                        c as int,
                    ),
                decreases quantity - c,
            {
                let ghost pre = expanded@;
                expanded.push(items[i].get_prize().clone());
                c = c + 1;
                proof {
                    assert(prizes_view(expanded@) =~= prizes_view(pre).push(
                        expanded@.last()@,
                    ));
                    assert(prizes_view(expanded@) =~= expand(cat.take(i as int)) + repeat_prize(
                        cat[i as int].prize,
                        c as int,
                    ));
                }
            }
            i = i + 1;
            proof {
                assert(cat.take(i as int).drop_last() =~= cat.take(i - 1));
                assert(cat.take(i as int).last() == cat[i - 1]);
                assert(expand(cat.take(i as int)) =~= expand(cat.take(i - 1)) + repeat_prize(
                    cat[i - 1].prize,
                    cat[i - 1].quantity as int,
                ));
            }
        }
        proof {
            assert(cat.take(cat.len() as int) =~= cat);
        }
        self.items = expanded;
    }

    /// Configure the seed the next build shuffles with.
    pub fn with_seed(&mut self, seed: usize)
        ensures
            final(self)@ == (PrizesV { seed: Some(seed), ..old(self)@ }),
    {
        self.seed = Some(seed);
    }

    /// The configured seed, or a seed taken from the wall clock when none
    /// was configured; an unseeded pool is therefore not reproducible.
    pub fn get_seed(&self) -> (r: usize)
        ensures
            self@.seed is Some ==> r == self@.seed->0,
    {
        match self.seed {
            Some(s) => s,
            None => clock_seed(),
        }
    }

    /// The slot's prize for a slot-assignment entry: the prize at the given
    /// index of the expansion, or nothing for a consumed or out-of-range
    /// entry.
    pub fn get_item_by_index(&self, index: Option<usize>) -> (r: Option<&PrizeItem>)
        ensures
            match index {
                Some(idx) => {
                    &&& ((idx as int) < self@.items.len() <==> r is Some)
                    &&& (r matches Some(p) ==> p@ == self@.items[idx as int])
                },
                None => r is None,
            },
    {
        match index {
            None => None,
            Some(idx) => {
                if idx < self.items.len() {
                    Some(&self.items[idx])
                } else {
                    None
                }
            },
        }
    }

    /// The pool as a caller sees it: one entry per slot, in shuffled order,
    /// holding the slot's prize while the slot is live and nothing once it
    /// has been drawn.
    pub fn get_randomized_items(&self) -> (r: Vec<Option<PrizeItem>>)
        ensures
            r@.len() == self@.randomized.len(),
            pool_rendered(self@, r@, r@.len() as int),
    {
        let mut out: Vec<Option<PrizeItem>> = Vec::new();
        let mut p: usize = 0;
        while p < self.randomized_items.len()
            invariant
                p <= self@.randomized.len(),
                out@.len() == p,
                pool_rendered(self@, out@, p as int),
            decreases self@.randomized.len() - p,
        {
            match self.randomized_items[p] {
                Some(k) => {
                    if k < self.items.len() {
                        out.push(Some(self.items[k].clone()));
                    } else {
                        out.push(None);
                    }
                },
                None => {
                    out.push(None);
                },
            }
            p = p + 1;
        }
        out
    }

    /// How many slots remain drawable.
    pub fn remaining_count(&self) -> (r: usize)
        ensures
            r == self@.remaining(),
    {
        self.idx_box.len()
    }

    /// How many slots the pool was expanded into.
    pub fn quantity(&self) -> (r: usize)
        ensures
            r == self@.items.len(),
    {
        self.items.len()
    }
}

/// What the rendered pool view holds, entry by entry up to a bound: the
/// slot's prize while the slot is live, and nothing once it has been drawn
/// or where the entry does not name a prize of the expansion.
pub open spec fn pool_rendered(v: PrizesV, out: Seq<Option<PrizeItem>>, upto: int) -> bool {
    &&& forall|p: int|
        0 <= p < upto ==> ((#[trigger] out[p]) is Some <==> (v.randomized[p] matches Some(k) && (
        k as int) < v.items.len()))
    &&& forall|p: int|
        0 <= p < upto && (#[trigger] out[p]) is Some ==> out[p]->0@
            == v.items[v.randomized[p]->0 as int]
}

/// What it means for a pool to have been built from an expansion with a
/// seed: both shuffles walked from that seed, and draws step from it.
pub open spec fn built_from(p: PrizesV, items: Seq<PrizeItemV>, s: usize) -> bool {
    let n = items.len() as int;
    &&& p.items == items
    &&& p.randomized == fy(init_slots(n), s).0
    &&& p.idx_box == fy(init_idx(n), s).0
    &&& p.draw_seed == s
}

/// A freshly shuffled pool is well-formed: the two walks permute the
/// unshuffled assignment and index box, so every slot is live exactly once.
pub proof fn lemma_built_wf(p: PrizesV, s1: usize, s2: usize)
    requires
        p.items.len() <= usize::MAX,
        p.randomized == fy(init_slots(p.items.len() as int), s1).0,
        p.idx_box == fy(init_idx(p.items.len() as int), s2).0,
    ensures
        p.wf(),
        p.randomized.len() == p.items.len(),
        p.idx_box.len() == p.items.len(),
        forall|s: int| 0 <= s < p.randomized.len() ==> (#[trigger] p.randomized[s]) is Some,
{
    let n = p.items.len() as int;
    let rand = p.randomized;
    let idx = p.idx_box;
    lemma_fy_len(init_slots(n), s1);
    lemma_fy_len(init_idx(n), s2);
    assert forall|t: int| 0 <= t < idx.len() implies (#[trigger] idx[t] as int) < rand.len() by {
        lemma_sum_by_at_least(idx, eq_weight(idx[t]), t);
        lemma_fy_sum(init_idx(n), s2, eq_weight(idx[t]));
        lemma_count_init_idx(n, idx[t]);
    }
    assert forall|t1: int, t2: int| 0 <= t1 < t2 < idx.len() implies idx[t1] != idx[t2] by {
        if idx[t1] == idx[t2] {
            lemma_sum_by_pair(idx, eq_weight(idx[t1]), t1, t2);
            lemma_fy_sum(init_idx(n), s2, eq_weight(idx[t1]));
            lemma_count_init_idx(n, idx[t1]);
        }
    }
    assert forall|s: int| 0 <= s < rand.len() implies (#[trigger] rand[s]) is Some by {
        if rand[s] is None {
            lemma_sum_by_at_least(rand, eq_weight(None), s);
            lemma_fy_sum(init_slots(n), s1, eq_weight(None));
            lemma_count_init_slots(n, None);
        }
    }
    assert forall|s: int|
        0 <= s < rand.len() && (#[trigger] rand[s]) is Some implies exists|t: int|
        0 <= t < idx.len() && (#[trigger] idx[t] as int) == s by {
        let v = s as usize;
        if forall|t: int| 0 <= t < idx.len() ==> (#[trigger] idx[t] as int) != s {
            assert forall|t: int| 0 <= t < idx.len() implies #[trigger] eq_weight(v)(idx[t])
                == 0 by {}
            lemma_sum_by_zero(idx, eq_weight(v));
            lemma_fy_sum(init_idx(n), s2, eq_weight(v));
            lemma_count_init_idx(n, v);
        }
    }
    assert forall|s: int|
        0 <= s < rand.len() && (#[trigger] rand[s]) is Some implies (rand[s]->0 as int)
        < p.items.len() by {
        lemma_sum_by_at_least(rand, eq_weight(rand[s]), s);
        lemma_fy_sum(init_slots(n), s1, eq_weight(rand[s]));
        lemma_count_init_slots(n, rand[s]);
    }
}

/// A single draw keeps a pool well-formed: the consumed slot leaves the
/// index box, every other live slot keeps a position there, and a consumed
/// slot stays consumed.
pub proof fn lemma_after_draw_wf(p: PrizesV)
    requires
        p.wf(),
        p.remaining() > 0,
    ensures
        p.after_draw().wf(),
        p.after_draw().remaining() == p.remaining() - 1,
        p.after_draw().items == p.items,
        p.after_draw().seed == p.seed,
        p.after_draw().randomized.len() == p.randomized.len(),
        p.randomized[p.draw_slot()] is Some,
        p.after_draw().randomized[p.draw_slot()] is None,
        forall|s: int|
            0 <= s < p.randomized.len() && p.randomized[s] is None ==> (
            #[trigger] p.after_draw().randomized[s]) is None,
        0 <= p.drawn_index() < p.items.len(),
        0 <= p.draw_pos() < p.remaining(),
{
    let q = p.after_draw();
    let len = p.idx_box.len() as int;
    let pos = p.draw_pos();
    assert(0 <= pos < len);
    let slot = p.draw_slot();
    assert(p.randomized[p.idx_box[pos] as int] is Some);
    assert(q.idx_box.len() == len - 1);
    assert forall|t: int| 0 <= t < len - 1 implies #[trigger] q.idx_box[t] == (if t == pos {
        p.idx_box[len - 1]
    } else {
        p.idx_box[t]
    }) by {}
    assert forall|t: int| 0 <= t < q.idx_box.len() implies (#[trigger] q.idx_box[t] as int)
        < q.randomized.len() by {}
    assert forall|t1: int, t2: int| 0 <= t1 < t2 < q.idx_box.len() implies q.idx_box[t1]
        != q.idx_box[t2] by {
        let u1: int = if t1 == pos { len - 1 } else { t1 };
        let u2: int = if t2 == pos { len - 1 } else { t2 };
        assert(u1 != u2);
        assert(q.idx_box[t1] == p.idx_box[u1]);
        assert(q.idx_box[t2] == p.idx_box[u2]);
    }
    assert forall|t: int| 0 <= t < q.idx_box.len() implies (
    #[trigger] q.randomized[q.idx_box[t] as int]) is Some by {
        let u: int = if t == pos { len - 1 } else { t };
        assert(q.idx_box[t] == p.idx_box[u]);
        assert(u != pos);
        assert(p.idx_box[u] != p.idx_box[pos]);
        assert(p.randomized[p.idx_box[u] as int] is Some);
    }
    assert forall|s: int|
        0 <= s < q.randomized.len() && (#[trigger] q.randomized[s]) is Some implies exists|t: int|
        0 <= t < q.idx_box.len() && (#[trigger] q.idx_box[t] as int) == s by {
        assert(s != slot);
        assert(p.randomized[s] is Some);
        let t0 = choose|t: int| 0 <= t < p.idx_box.len() && (#[trigger] p.idx_box[t] as int) == s;
        assert(t0 != pos);
        let t1: int = if t0 == len - 1 { pos } else { t0 };
        assert(0 <= t1 < len - 1);
        assert(q.idx_box[t1] as int == s);
    }
    assert forall|s: int|
        0 <= s < q.randomized.len() && (#[trigger] q.randomized[s]) is Some implies (
    q.randomized[s]->0 as int) < q.items.len() by {
        assert(p.randomized[s] is Some);
    }
}

/// Several draws in a row keep a pool well-formed, shrink the index box by
/// one position each, and never bring a consumed slot back.
pub proof fn lemma_after_draws(p: PrizesV, n: nat)
    requires
        p.wf(),
        n <= p.remaining(),
    ensures
        p.after_draws(n).wf(),
        p.after_draws(n).remaining() == p.remaining() - n,
        p.after_draws(n).items == p.items,
        p.after_draws(n).randomized.len() == p.randomized.len(),
        forall|s: int|
            0 <= s < p.randomized.len() && p.randomized[s] is None ==> (
            #[trigger] p.after_draws(n).randomized[s]) is None,
    decreases n,
{
    if n > 0 {
        lemma_after_draws(p, (n - 1) as nat);
        lemma_after_draw_wf(p.after_draws((n - 1) as nat));
    }
}

/// Runs of draws compose.
pub proof fn lemma_after_draws_add(p: PrizesV, m: nat, k: nat)
    ensures
        p.after_draws(m + k) == p.after_draws(m).after_draws(k),
    decreases k,
{
    if k > 0 {
        lemma_after_draws_add(p, m, (k - 1) as nat);
    }
}

/// No replacement: two draws of one run never consume the same slot. Once
/// a slot has been drawn it stays consumed until the pool is rebuilt, so a
/// later draw always picks some other slot.
pub proof fn lemma_draw_no_replacement(p: PrizesV, a: nat, b: nat)
    requires
        p.wf(),
        a < b,
        b < p.remaining(),
    ensures
        p.after_draws(a).draw_slot() != p.after_draws(b).draw_slot(),
{
    let pa = p.after_draws(a);
    let pb = p.after_draws(b);
    lemma_after_draws(p, a);
    lemma_after_draw_wf(pa);
    lemma_after_draws_add(p, a + 1, (b - a - 1) as nat);
    assert(pb == pa.after_draw().after_draws((b - a - 1) as nat));
    lemma_after_draws(p, b);
    lemma_after_draws(pa.after_draw(), (b - a - 1) as nat);
    assert(pb.randomized[pa.draw_slot()] is None);
    lemma_after_draw_wf(pb);
    assert(pb.randomized[pb.draw_slot()] is Some);
}

/// Exhaustion: a run of as many draws as there are remaining slots leaves
/// nothing drawable, and every slot consumed.
pub proof fn lemma_exhaustion(p: PrizesV)
    requires
        p.wf(),
        forall|s: int|
            0 <= s < p.randomized.len() ==> (#[trigger] p.randomized[s]) is Some,
    ensures
        p.after_draws(p.remaining() as nat).remaining() == 0,
        forall|s: int|
            0 <= s < p.randomized.len() ==> (
            #[trigger] p.after_draws(p.remaining() as nat).randomized[s]) is None,
{
    let n = p.remaining() as nat;
    let q = p.after_draws(n);
    lemma_after_draws(p, n);
    assert forall|s: int| 0 <= s < p.randomized.len() implies (#[trigger] q.randomized[s])
        is None by {
        if q.randomized[s] is Some {
            assert(exists|t: int|
                0 <= t < q.idx_box.len() && (#[trigger] q.idx_box[t] as int) == s);
        }
    }
}

impl Prizes {
    /// Shuffle the slot-to-prize assignment from the given seed.
    fn randomnize_items(&mut self, s: usize)
        ensures
            final(self)@ == (PrizesV {
                randomized: fy(init_slots(old(self)@.items.len() as int), s).0,
                ..old(self)@
            }),
    {
        let n = self.items.len();
        let mut slots: Vec<Option<usize>> = Vec::new();
        let mut i: usize = 0;
        proof {
            assert(slots@ =~= init_slots(0));
        }
        while i < n
            invariant
                i <= n,
                slots@ == init_slots(i as int),
            decreases n - i,
        {
            slots.push(Some(i));
            i = i + 1;
            proof {
                assert(slots@ =~= init_slots(i as int));
            }
        }
        let mut seed = s;
        let shuffled = randomize(slots, &mut seed);
        self.randomized_items = shuffled;
    }

    /// Shuffle a fresh index box of every slot position from the given
    /// seed.
    fn update_idx_box(&mut self, s: usize)
        ensures
            final(self)@ == (PrizesV {
                idx_box: fy(init_idx(old(self)@.items.len() as int), s).0,
                ..old(self)@
            }),
    {
        let n = self.items.len();
        let mut positions: Vec<usize> = Vec::new();
        let mut i: usize = 0;
        proof {
            assert(positions@ =~= init_idx(0));
        }
        while i < n
            invariant
                i <= n,
                positions@ == init_idx(i as int),
            decreases n - i,
        {
            positions.push(i);
            i = i + 1;
            proof {
                assert(positions@ =~= init_idx(i as int));
            }
        }
        let mut seed = s;
        let shuffled = randomize(positions, &mut seed);
        self.idx_box = shuffled;
    }

    /// Build the pool: shuffle the slot-to-prize assignment and a fresh
    /// index box of all slot positions, both from the configured seed (or
    /// one wall-clock seed when none is configured), and set that seed as
    /// the state the draws step from. Both walks and the draw stream start
    /// from that one value, so the two permutations coincide.
    pub fn build(&mut self)
        ensures
            final(self)@.items == old(self)@.items,
            final(self)@.seed == old(self)@.seed,
            final(self)@.wf(),
            final(self)@.randomized.len() == old(self)@.items.len(),
            final(self)@.idx_box.len() == old(self)@.items.len(),
            forall|s: int|
                0 <= s < final(self)@.randomized.len()
                    ==> (#[trigger] final(self)@.randomized[s]) is Some,
            exists|s: usize| #[trigger] built_from(final(self)@, old(self)@.items, s),
            old(self)@.seed is Some
                ==> built_from(final(self)@, old(self)@.items, old(self)@.seed->0),
    {
        let n = self.items.len();
        let s = self.get_seed();
        self.randomnize_items(s);
        self.update_idx_box(s);
        self.draw_seed = s;
        proof {
            assert(self@.items.len() == n);
            lemma_built_wf(self@, s, s);
            assert(built_from(self@, old(self)@.items, s));
        }
    }

    /// Draw one prize: step the generator, pick a position in the index
    /// box, consume the slot it names, and hand back the prize assigned to
    /// that slot. With no slot remaining the draw fails as exhausted and
    /// the pool is untouched.
    pub fn draw(&mut self) -> (r: Result<PrizeItem, GashaponError>)
        requires
            old(self)@.wf(),
        ensures
            final(self)@.wf(),
            old(self)@.remaining() == 0 ==> r == Result::<PrizeItem, GashaponError>::Err(
                GashaponError::Exhausted,
            ) && final(self)@ == old(self)@,
            old(self)@.remaining() > 0 ==> r is Ok && r->Ok_0@ == old(self)@.drawn_prize()
                && final(self)@ == old(self)@.after_draw(),
            old(self)@.remaining() > 0 ==> final(self)@.remaining() == old(self)@.remaining() - 1,
    {
        proof {
            if self@.remaining() > 0 {
                lemma_after_draw_wf(self@);
            }
        }
        if self.idx_box.len() == 0 {
            return Err(GashaponError::Exhausted);
        }
        let mut sd = self.draw_seed;
        let out = rng(&mut sd);
        self.draw_seed = sd;
        let pos = out % self.idx_box.len();
        let slot = self.idx_box[pos];
        self.idx_box.swap_remove(pos);
        match self.randomized_items[slot] {
            Some(k) => {
                self.randomized_items[slot] = None;
                let item = self.items[k].clone();
                proof {
                    assert(self@ == old(self)@.after_draw());
                }
                Ok(item)
            },
            None => {
                // unreachable: a well-formed index box only names live slots
                proof {
                    assert(false);
                }
                Err(GashaponError::Exhausted)
            },
        }
    }
}

/// One draw step on a raw pool, as a free-standing helper: step the seed,
/// pick a position in the index box, swap-remove it, and hand back the
/// prize whose slot it named.
pub fn draw_prize_item(
    items: &Vec<PrizeItem>,
    idx_box: &mut Vec<usize>,
    seed: &mut usize,
) -> (r: Result<PrizeItem, GashaponError>)
    requires
        forall|t: int|
            0 <= t < old(idx_box)@.len() ==> (#[trigger] old(idx_box)@[t] as int) < items@.len(),
    ensures
        old(idx_box)@.len() == 0 ==> r == Result::<PrizeItem, GashaponError>::Err(
            GashaponError::Exhausted,
        ) && final(idx_box)@ == old(idx_box)@ && *final(seed) == *old(seed),
        old(idx_box)@.len() > 0 ==> ({
            let s2 = lcg_next(*old(seed));
            let pos = (lcg_output(s2) as int) % (old(idx_box)@.len() as int);
            &&& r is Ok
            &&& r->Ok_0@ == prizes_view(items@)[old(idx_box)@[pos] as int]
            &&& final(idx_box)@ == old(idx_box)@.update(pos, old(idx_box)@.last()).drop_last()
            &&& *final(seed) == s2
        }),
{
    if idx_box.len() == 0 {
        return Err(GashaponError::Exhausted);
    }
    let out = rng(seed);
    let pos = out % idx_box.len();
    let slot = idx_box[pos];
    idx_box.swap_remove(pos);
    let item = items[slot].clone();
    Ok(item)
}

/// Relies on std::time::SystemTime::now, SystemTime::duration_since and
/// Duration::as_secs for the wall-clock fallback seed: the current time in
/// whole seconds since the Unix epoch, or 0 for a clock before the epoch.
/// Nothing is promised of the value.
#[verifier::external_body]
fn clock_seed() -> usize {
    match std::time::SystemTime::now().duration_since(std::time::UNIX_EPOCH) {
        Ok(d) => d.as_secs() as usize,
        Err(_) => 0,
    }
}

} // verus!
