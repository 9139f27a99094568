//! The catalog of prizes and the machine around it: entries are upserted by
//! the stable identifier of their prize, expanded and shuffled into a pool
//! by a build, drawn from without replacement, and restorable to their
//! original quantities. Draw rates are computed from current quantities.

use vstd::prelude::*;

use crate::error::GashaponError;
use crate::pool::Prizes;
use crate::pool::PrizesV;
use crate::pool::built_from;
use crate::pool::expand;
use crate::pool::init_slots;
use crate::pool::lemma_after_draw_wf;
use crate::pool::repeat_prize;
use crate::prize::GashaponItem;
use crate::prize::GashaponItemV;
use crate::prize::GetPrizeItemId;
use crate::prize::PrizeId;
use crate::prize::PrizeItem;
use crate::prize::PrizeItemV;
use crate::prize::catalog_view;
use crate::prize::lemma_prize_id_eq;
use crate::utils::lemma_fy_sum;
use crate::utils::lemma_sum_by_at_least;
use crate::utils::lemma_sum_by_concat;
use crate::utils::lemma_sum_by_nonneg;
use crate::utils::lemma_sum_by_update;
use crate::utils::lemma_sum_by_zero;
use crate::utils::sum_by;

verus! {

/// The weight that reads off an entry's quantity when the entry belongs to
/// one identifier.
pub open spec fn qty_weight(id: u64) -> spec_fn(GashaponItemV) -> int {
    |it: GashaponItemV| if it.prize.id == id { it.quantity as int } else { 0int }
}

/// The units a catalog holds of one identifier.
pub open spec fn qty_of(cat: Seq<GashaponItemV>, id: u64) -> int {
    sum_by(cat, qty_weight(id))
}

/// The weight that counts an expansion entry belonging to one identifier.
pub open spec fn one_weight(id: u64) -> spec_fn(PrizeItemV) -> int {
    |p: PrizeItemV| if p.id == id { 1int } else { 0int }
}

/// The weight that counts a live slot whose prize has one identifier.
pub open spec fn slot_weight(items: Seq<PrizeItemV>, id: u64) -> spec_fn(Option<usize>) -> int {
    |o: Option<usize>|
        match o {
            Some(k) => if 0 <= (k as int) < items.len() && items[k as int].id == id {
                1int
            } else {
                0int
            },
            None => 0int,
        }
}

/// The live slots a pool still holds of one identifier.
pub open spec fn live_count(p: PrizesV, id: u64) -> int {
    sum_by(p.randomized, slot_weight(p.items, id))
}

/// The weight that reads off an entry's quantity.
pub open spec fn quantity_weight() -> spec_fn(GashaponItemV) -> int {
    |it: GashaponItemV| it.quantity as int
}

/// The units a catalog holds over all its entries.
pub open spec fn total_quantity(cat: Seq<GashaponItemV>) -> int {
    sum_by(cat, quantity_weight())
}

/// The first catalog position holding one identifier, or the catalog's
/// length when none does.
pub open spec fn index_of_id(cat: Seq<GashaponItemV>, id: u64) -> int
    decreases cat.len(),
{
    if cat.len() == 0 {
        0
    } else if cat.first().prize.id == id {
        0
    } else {
        1 + index_of_id(cat.drop_first(), id)
    }
}

/// What the first position holding an identifier satisfies: it is in
/// bounds exactly when the identifier occurs, it holds the identifier, and
/// nothing before it does.
pub proof fn lemma_index_of_id(cat: Seq<GashaponItemV>, id: u64)
    ensures
        0 <= index_of_id(cat, id) <= cat.len(),
        index_of_id(cat, id) < cat.len() ==> cat[index_of_id(cat, id)].prize.id == id,
        forall|j: int| 0 <= j < index_of_id(cat, id) ==> (#[trigger] cat[j].prize.id) != id,
    decreases cat.len(),
{
    if cat.len() > 0 && cat.first().prize.id != id {
        lemma_index_of_id(cat.drop_first(), id);
        assert forall|j: int| 0 <= j < index_of_id(cat, id) implies (#[trigger] cat[j].prize.id)
            != id by {
            if j > 0 {
                assert(cat.drop_first()[j - 1] == cat[j]);
                assert(cat.drop_first()[j - 1].prize.id != id);
            } else {
                assert(cat.first() == cat[0]);
            }
        }
    }
}

/// A catalog with the same entry upserted: replaced in place when its
/// prize's identifier is already present, appended otherwise.
pub open spec fn upsert(cat: Seq<GashaponItemV>, it: GashaponItemV) -> Seq<GashaponItemV> {
    let j = index_of_id(cat, it.prize.id);
    if j < cat.len() {
        cat.update(j, it)
    } else {
        cat.push(it)
    }
}

/// A catalog with a run of entries upserted in order.
pub open spec fn upsert_all(cat: Seq<GashaponItemV>, items: Seq<GashaponItemV>) -> Seq<
    GashaponItemV,
>
    decreases items.len(),
{
    if items.len() == 0 {
        cat
    } else {
        upsert(upsert_all(cat, items.drop_last()), items.last())
    }
}

/// The sum over a repeated prize is the repetition count times the weight.
pub proof fn lemma_sum_by_repeat(p: PrizeItemV, q: int, f: spec_fn(PrizeItemV) -> int)
    requires
        q >= 0,
    ensures
        sum_by(repeat_prize(p, q), f) == q * f(p),
    decreases q,
{
    if q == 0 {
        assert(repeat_prize(p, 0).len() == 0);
    } else {
        assert(repeat_prize(p, q).drop_last() =~= repeat_prize(p, q - 1));
        assert(repeat_prize(p, q).last() == p);
        lemma_sum_by_repeat(p, q - 1, f);
        assert((q - 1) * f(p) + f(p) == q * f(p)) by (nonlinear_arith);
    }
}

/// The expansion holds one slot per unit: its length is the catalog's total
/// quantity.
pub proof fn lemma_expand_len(cat: Seq<GashaponItemV>)
    ensures
        expand(cat).len() == total_quantity(cat),
        total_quantity(cat) >= 0,
    decreases cat.len(),
{
    if cat.len() > 0 {
        lemma_expand_len(cat.drop_last());
    }
}

/// The expansion holds, for each identifier, exactly as many slots as the
/// catalog holds units of it.
pub proof fn lemma_expand_count(cat: Seq<GashaponItemV>, id: u64)
    ensures
        sum_by(expand(cat), one_weight(id)) == qty_of(cat, id),
    decreases cat.len(),
{
    if cat.len() > 0 {
        let dl = cat.drop_last();
        let lastv = cat.last();
        let q = lastv.quantity as int;
        lemma_expand_count(dl, id);
        lemma_sum_by_concat(expand(dl), repeat_prize(lastv.prize, q), one_weight(id));
        lemma_sum_by_repeat(lastv.prize, q, one_weight(id));
        if lastv.prize.id == id {
            assert(one_weight(id)(lastv.prize) == 1);
        } else {
            assert(one_weight(id)(lastv.prize) == 0);
        }
    }
}

/// Counting live slots of an identifier over the unshuffled assignment is
/// counting the expansion entries that carry it.
pub proof fn lemma_init_slots_weight(items: Seq<PrizeItemV>, id: u64, n: int)
    requires
        0 <= n <= items.len(),
        items.len() <= usize::MAX,
    ensures
        sum_by(init_slots(n), slot_weight(items, id)) == sum_by(items.take(n), one_weight(id)),
    decreases n,
{
    if n > 0 {
        assert(init_slots(n).drop_last() =~= init_slots(n - 1));
        assert(init_slots(n).last() == Some((n - 1) as usize));
        assert(items.take(n).drop_last() =~= items.take(n - 1));
        assert(items.take(n).last() == items[n - 1]);
        lemma_init_slots_weight(items, id, n - 1);
    }
}

/// What the whole machine is at the specification level.
pub struct GashaponV {
    /// The catalog: one entry per distinct prize.
    pub items: Seq<GashaponItemV>,
    /// The pool built from the catalog.
    pub prizes: PrizesV,
}

impl GashaponV {
    /// The catalog holds each identifier at most once, and the pool is
    /// structurally sound.
    pub open spec fn wf(self) -> bool {
        &&& forall|j1: int, j2: int|
            #![trigger self.items[j1], self.items[j2]]
            0 <= j1 < j2 < self.items.len() ==> self.items[j1].prize.id != self.items[j2].prize.id
        &&& self.prizes.wf()
    }

    /// The pool mirrors the catalog: for every identifier, the catalog's
    /// current quantity equals the number of live slots carrying it. A
    /// build establishes this and every successful draw preserves it; a
    /// structural edit of the catalog breaks it until the next build.
    pub open spec fn synced(self) -> bool {
        forall|id: u64|
            #![trigger qty_of(self.items, id)]
            #![trigger live_count(self.prizes, id)]
            qty_of(self.items, id) == live_count(self.prizes, id)
    }

    /// How many slots remain drawable.
    pub open spec fn remaining(self) -> int {
        self.prizes.remaining()
    }

    /// The machine after one successful draw: the pool consumes its picked
    /// slot, and the drawn prize's catalog entry — when one with units
    /// remains — loses one unit.
    pub open spec fn after_draw(self) -> GashaponV {
        let d = self.prizes.drawn_prize().id;
        let j = index_of_id(self.items, d);
        GashaponV {
            items: if j < self.items.len() && self.items[j].quantity > 0 {
                self.items.update(
                    j,
                    (GashaponItemV { quantity: (self.items[j].quantity - 1) as u64, ..self.items[j] }),
                )
            } else {
                self.items
            },
            prizes: self.prizes.after_draw(),
        }
    }

    /// The machine after a run of successful draws.
    pub open spec fn after_draws(self, n: nat) -> GashaponV
        decreases n,
    {
        if n == 0 {
            self
        } else {
            self.after_draws((n - 1) as nat).after_draw()
        }
    }
}

/// The gashapon machine: a catalog of prizes with quantities and the
/// shuffled pool the draws come from.
#[derive(Debug)]
pub struct Gashapon {
    /// The catalog entries, in insertion order, one per distinct prize.
    pub items: Vec<GashaponItem>,
    /// The pool built from the catalog.
    pub prizes: Prizes,
}

impl View for Gashapon {
    type V = GashaponV;

    closed spec fn view(&self) -> GashaponV {
        GashaponV { items: catalog_view(self.items@), prizes: self.prizes@ }
    }
}

impl Default for Gashapon {
    /// An empty machine: no catalog entries and an empty, unseeded pool.
    fn default() -> (r: Self)
        ensures
            r@.items.len() == 0,
            r@.prizes.seed is None,
            r@.remaining() == 0,
            r@.wf(),
            r@.synced(),
    {
        let r = Gashapon { items: Vec::new(), prizes: Prizes::new() };
        proof {
            assert forall|id: u64| qty_of(r@.items, id) == live_count(r@.prizes, id) by {
                assert(r@.items =~= Seq::<GashaponItemV>::empty());
                assert(r@.prizes.randomized =~= Seq::<Option<usize>>::empty());
            }
        }
        r
    }
}

impl Gashapon {
    /// Upsert one entry: an entry whose prize has the same identifier is
    /// replaced in place, anything else is appended. The pool is left
    /// alone; a build must follow before the change can be drawn from.
    pub fn add_item(&mut self, item: GashaponItem)
        requires
            old(self)@.wf(),
        ensures
            final(self)@.wf(),
            final(self)@.items == upsert(old(self)@.items, item@),
            final(self)@.prizes == old(self)@.prizes,
    {
        let ghost cat = self@.items;
        let ghost pool = self@.prizes;
        let id = item.get_prize_id();
        let n = self.items.len();
        let mut j: usize = 0;
        while j < n
            invariant
                old(self)@.wf(),
                n == self.items@.len(),
                cat == catalog_view(self.items@),
                cat == old(self)@.items,
                pool == self@.prizes,
                pool == old(self)@.prizes,
                item@.prize.id == id@,
                j <= n,
                forall|jj: int| 0 <= jj < j ==> (#[trigger] cat[jj].prize.id) != id@,
            decreases n - j,
        {
            let pid = self.items[j].get_prize_id();
            proof {
                lemma_prize_id_eq(pid, id);
            }
            if pid == id {
                proof {
                    lemma_index_of_id(cat, item@.prize.id);
                    assert(cat[j as int].prize.id == id@);
                    assert(index_of_id(cat, item@.prize.id) == j);
                }
                let _replaced = self.items.remove(j);
                self.items.insert(j, item);
                proof {
                    assert(catalog_view(self.items@) =~= cat.update(j as int, item@));
                }
                return ;
            }
            j = j + 1;
        }
        proof {
            lemma_index_of_id(cat, item@.prize.id);
            assert(index_of_id(cat, item@.prize.id) == cat.len());
        }
        self.items.push(item);
        proof {
            assert(catalog_view(self.items@) =~= cat.push(item@));
        }
    }

    /// Upsert a run of entries, in order.
    pub fn add_items(&mut self, items: Vec<GashaponItem>)
        requires
            old(self)@.wf(),
        ensures
            final(self)@.wf(),
            final(self)@.items == upsert_all(old(self)@.items, catalog_view(items@)),
            final(self)@.prizes == old(self)@.prizes,
    {
        let ghost incoming = catalog_view(items@);
        let mut i: usize = 0;
        proof {
            assert(upsert_all(old(self)@.items, incoming.take(0)) == old(self)@.items);
        }
        while i < items.len()
            invariant
                old(self)@.wf(),
                self@.wf(),
                i <= items@.len(),
                incoming == catalog_view(items@),
                incoming.len() == items@.len(),
                self@.items == upsert_all(old(self)@.items, incoming.take(i as int)),
                self@.prizes == old(self)@.prizes,
            decreases items@.len() - i,
        {
            self.add_item(items[i].clone());
            i = i + 1;
            proof {
                assert(incoming.take(i as int).drop_last() =~= incoming.take(i - 1));
                assert(incoming.take(i as int).last() == incoming[i - 1]);
            }
        }
        proof {
            assert(incoming.take(incoming.len() as int) =~= incoming);
        }
    }

    /// Configure the seed the next build shuffles with.
    pub fn with_seed(&mut self, seed: usize)
        requires
            old(self)@.wf(),
        ensures
            final(self)@.wf(),
            final(self)@.items == old(self)@.items,
            final(self)@.prizes == (PrizesV { seed: Some(seed), ..old(self)@.prizes }),
    {
        self.prizes.with_seed(seed);
        proof {
            // the seed is the one field that changed; well-formedness only
            // reads the others
            assert(self@.items == old(self)@.items);
            assert(self@.prizes.idx_box == old(self)@.prizes.idx_box);
            assert(self@.prizes.randomized == old(self)@.prizes.randomized);
            assert(self@.prizes.items == old(self)@.prizes.items);
            assert(self@.prizes.wf());
        }
    }

    /// How many slots remain drawable.
    pub fn remaining_count(&self) -> (r: usize)
        ensures
            r == self@.remaining(),
    {
        self.prizes.remaining_count()
    }

    /// Delete the entry whose prize has the given identifier; an identifier
    /// the catalog does not hold is a failure, so a caller can tell a
    /// removal from a no-op. The pool is left alone; a build must follow.
    pub fn remove_item(&mut self, id: PrizeId) -> (r: Result<(), GashaponError>)
        requires
            old(self)@.wf(),
        ensures
            final(self)@.wf(),
            final(self)@.prizes == old(self)@.prizes,
            ({
                let cat = old(self)@.items;
                let j = index_of_id(cat, id@);
                if j < cat.len() {
                    r is Ok && final(self)@.items == cat.remove(j)
                } else {
                    r == Result::<(), GashaponError>::Err(GashaponError::UnknownPrizeId)
                        && final(self)@.items == cat
                }
            }),
    {
        let ghost cat = self@.items;
        let ghost pool = self@.prizes;
        let n = self.items.len();
        let mut j: usize = 0;
        while j < n
            invariant
                old(self)@.wf(),
                n == self.items@.len(),
                cat == catalog_view(self.items@),
                cat == old(self)@.items,
                pool == self@.prizes,
                pool == old(self)@.prizes,
                j <= n,
                forall|jj: int| 0 <= jj < j ==> (#[trigger] cat[jj].prize.id) != id@,
            decreases n - j,
        {
            let pid = self.items[j].get_prize_id();
            proof {
                lemma_prize_id_eq(pid, id);
            }
            if pid == id {
                proof {
                    lemma_index_of_id(cat, id@);
                    assert(cat[j as int].prize.id == id@);
                    assert(index_of_id(cat, id@) == j);
                }
                let _removed = self.items.remove(j);
                proof {
                    assert(catalog_view(self.items@) =~= cat.remove(j as int));
                    let newcat = cat.remove(j as int);
                    assert forall|a: int, b: int|
                        0 <= a < b < newcat.len() implies newcat[a].prize.id
                        != newcat[b].prize.id by {
                        let a0: int = if a < j { a } else { a + 1 };
                        let b0: int = if b < j { b } else { b + 1 };
                        assert(newcat[a] == cat[a0]);
                        assert(newcat[b] == cat[b0]);
                    }
                }
                return Ok(());
            }
            j = j + 1;
        }
        proof {
            lemma_index_of_id(cat, id@);
        }
        Err(GashaponError::UnknownPrizeId)
    }

    /// Change the current quantity of the entry whose prize has the given
    /// identifier; its original quantity keeps its value, so a later
    /// restore is unaffected. An identifier the catalog does not hold is a
    /// failure. The pool is left alone; a build must follow.
    pub fn update_item_quantity(&mut self, id: PrizeId, quantity: u64) -> (r: Result<
        (),
        GashaponError,
    >)
        requires
            old(self)@.wf(),
        ensures
            final(self)@.wf(),
            final(self)@.prizes == old(self)@.prizes,
            ({
                let cat = old(self)@.items;
                let j = index_of_id(cat, id@);
                if j < cat.len() {
                    r is Ok && final(self)@.items == cat.update(
                        j,
                        (GashaponItemV { quantity: quantity, ..cat[j] }),
                    )
                } else {
                    r == Result::<(), GashaponError>::Err(GashaponError::UnknownPrizeId)
                        && final(self)@.items == cat
                }
            }),
    {
        let ghost cat = self@.items;
        let ghost pool = self@.prizes;
        let n = self.items.len();
        let mut j: usize = 0;
        while j < n
            invariant
                old(self)@.wf(),
                n == self.items@.len(),
                cat == catalog_view(self.items@),
                cat == old(self)@.items,
                pool == self@.prizes,
                pool == old(self)@.prizes,
                j <= n,
                forall|jj: int| 0 <= jj < j ==> (#[trigger] cat[jj].prize.id) != id@,
            decreases n - j,
        {
            let pid = self.items[j].get_prize_id();
            proof {
                lemma_prize_id_eq(pid, id);
            }
            if pid == id {
                proof {
                    lemma_index_of_id(cat, id@);
                    assert(cat[j as int].prize.id == id@);
                    assert(index_of_id(cat, id@) == j);
                }
                let mut entry = self.items.remove(j);
                entry.set_quantity(quantity);
                self.items.insert(j, entry);
                proof {
                    assert(catalog_view(self.items@) =~= cat.update(
                        j as int,
                        (GashaponItemV { quantity: quantity, ..cat[j as int] }),
                    ));
                }
                return Ok(());
            }
            j = j + 1;
        }
        proof {
            lemma_index_of_id(cat, id@);
        }
        Err(GashaponError::UnknownPrizeId)
    }

    /// Build the pool from the catalog: expand every entry into one slot
    /// per unit of its current quantity, shuffle the slot-to-prize
    /// assignment, and shuffle a fresh index box of every slot position.
    /// Afterwards the pool mirrors the catalog, with every slot live.
    pub fn build(&mut self)
        requires
            old(self)@.wf(),
        ensures
            final(self)@.wf(),
            final(self)@.synced(),
            final(self)@.items == old(self)@.items,
            final(self)@.prizes.seed == old(self)@.prizes.seed,
            final(self)@.prizes.items == expand(old(self)@.items),
            final(self)@.remaining() == total_quantity(old(self)@.items),
            forall|s: int|
                0 <= s < final(self)@.prizes.randomized.len()
                    ==> (#[trigger] final(self)@.prizes.randomized[s]) is Some,
            old(self)@.prizes.seed is Some ==> built_from(
                final(self)@.prizes,
                expand(old(self)@.items),
                old(self)@.prizes.seed->0,
            ),
    {
        self.prizes.with_items(&self.items);
        let _slot_total = self.prizes.quantity();
        self.prizes.build();
        proof {
            let cat = old(self)@.items;
            let ex = expand(cat);
            lemma_expand_len(cat);
            let s = choose|s: usize| built_from(self@.prizes, ex, s);
            assert forall|id: u64| qty_of(cat, id) == live_count(self@.prizes, id) by {
                let n = ex.len() as int;
                lemma_fy_sum(init_slots(n), s, slot_weight(ex, id));
                lemma_init_slots_weight(ex, id, n);
                assert(ex.take(n) =~= ex);
                lemma_expand_count(cat, id);
            }
        }
    }

    /// Draw one prize: the pool picks and consumes a slot, and the prize's
    /// catalog entry loses one unit. With no slot remaining the draw fails
    /// as exhausted and nothing changes. A slot that resolves to no catalog
    /// entry holding at least one unit — possible only when the catalog was
    /// edited after the last build — fails as an unknown identifier, with
    /// the slot consumed but the catalog untouched.
    pub fn draw(&mut self) -> (r: Result<PrizeItem, GashaponError>)
        requires
            old(self)@.wf(),
        ensures
            final(self)@.wf(),
            old(self)@.remaining() == 0 ==> r == Result::<PrizeItem, GashaponError>::Err(
                GashaponError::Exhausted,
            ) && final(self)@ == old(self)@,
            old(self)@.remaining() > 0 ==> ({
                let g = old(self)@;
                let d = g.prizes.drawn_prize().id;
                let j = index_of_id(g.items, d);
                &&& final(self)@.prizes == g.prizes.after_draw()
                &&& (j < g.items.len() && g.items[j].quantity > 0) ==> (r is Ok && r->Ok_0@
                    == g.prizes.drawn_prize() && final(self)@.items == g.items.update(
                    j,
                    (GashaponItemV { quantity: (g.items[j].quantity - 1) as u64, ..g.items[j] }),
                ))
                &&& !(j < g.items.len() && g.items[j].quantity > 0) ==> (r == Result::<
                    PrizeItem,
                    GashaponError,
                >::Err(GashaponError::UnknownPrizeId) && final(self)@.items == g.items)
            }),
            old(self)@.synced() && old(self)@.remaining() > 0 ==> r is Ok && final(self)@.synced()
                && final(self)@.remaining() == old(self)@.remaining() - 1,
            old(self)@.synced() && old(self)@.remaining() == 0 ==> final(self)@.synced(),
    {
        let ghost g = old(self)@;
        proof {
            if g.remaining() > 0 {
                lemma_after_draw_wf(g.prizes);
            }
        }
        let drawn = match self.prizes.draw() {
            Ok(p) => p,
            Err(e) => {
                return Err(e);
            },
        };
        let ghost d = g.prizes.drawn_prize().id;
        let ghost slot = g.prizes.draw_slot();
        proof {
            // the consumed slot was live, so under sync its prize has units
            if g.synced() {
                assert(slot_weight(g.prizes.items, d)(g.prizes.randomized[slot]) == 1);
                lemma_sum_by_at_least(g.prizes.randomized, slot_weight(g.prizes.items, d), slot);
                assert(live_count(g.prizes, d) >= 1);
                assert(qty_of(g.items, d) >= 1);
            }
        }
        let id = drawn.get_id();
        let ghost cat = g.items;
        let n = self.items.len();
        let mut j: usize = 0;
        while j < n
            invariant
                old(self)@ == g,
                g.wf(),
                g.remaining() > 0,
                d == g.prizes.drawn_prize().id,
                n == self.items@.len(),
                cat == catalog_view(self.items@),
                cat == g.items,
                self@.prizes == g.prizes.after_draw(),
                self@.prizes.wf(),
                g.synced() ==> qty_of(g.items, d) >= 1,
                drawn@ == g.prizes.drawn_prize(),
                id@ == d,
                j <= n,
                forall|jj: int| 0 <= jj < j ==> (#[trigger] cat[jj].prize.id) != d,
            decreases n - j,
        {
            let pid = self.items[j].get_prize_id();
            proof {
                lemma_prize_id_eq(pid, id);
            }
            if pid == id {
                proof {
                    lemma_index_of_id(cat, d);
                    assert(cat[j as int].prize.id == d);
                    assert(index_of_id(cat, d) == j);
                }
                let quantity = self.items[j].get_quantity();
                if quantity > 0 {
                    let mut entry = self.items.remove(j);
                    entry.decrement();
                    self.items.insert(j, entry);
                    proof {
                        let newcat = cat.update(
                            j as int,
                            (GashaponItemV {
                                quantity: (cat[j as int].quantity - 1) as u64,
                                ..cat[j as int]
                            }),
                        );
                        assert(catalog_view(self.items@) =~= newcat);
                        lemma_after_draw_wf(g.prizes);
                        if g.synced() {
                            lemma_sync_after_draw(g, j as int);
                        }
                    }
                    return Ok(drawn);
                } else {
                    proof {
                        if g.synced() {
                            lemma_qty_at_unique(cat, j as int, d);
                        }
                    }
                    return Err(GashaponError::UnknownPrizeId);
                }
            }
            j = j + 1;
        }
        proof {
            lemma_index_of_id(cat, d);
            if g.synced() {
                assert forall|jj: int| 0 <= jj < cat.len() implies #[trigger] qty_weight(d)(
                    cat[jj],
                ) == 0 by {}
                lemma_sum_by_zero(cat, qty_weight(d));
            }
        }
        Err(GashaponError::UnknownPrizeId)
    }
}

/// A catalog with every entry's current quantity set back to its original
/// quantity.
pub open spec fn restored(cat: Seq<GashaponItemV>) -> Seq<GashaponItemV> {
    cat.map_values(|it: GashaponItemV| GashaponItemV { quantity: it.original, ..it })
}

/// One prize's draw rate: the chance, as the exact fraction numerator over
/// denominator, that a single random draw at current quantities yields this
/// entry's prize. A denominator of zero stands for a rate of zero: it
/// occurs exactly when the whole catalog is empty of units.
#[derive(Debug)]
pub struct DrawRate {
    /// The catalog entry the rate belongs to.
    pub item: GashaponItem,
    /// The entry's current quantity.
    pub numerator: u64,
    /// The catalog's total current quantity, shared by every entry.
    pub denominator: u128,
}

impl Gashapon {
    /// Set every entry's current quantity back to its original quantity,
    /// then rebuild the pool.
    pub fn restore_items(&mut self)
        requires
            old(self)@.wf(),
        ensures
            final(self)@.wf(),
            final(self)@.synced(),
            final(self)@.items == restored(old(self)@.items),
            final(self)@.prizes.seed == old(self)@.prizes.seed,
            final(self)@.prizes.items == expand(restored(old(self)@.items)),
            final(self)@.remaining() == total_quantity(restored(old(self)@.items)),
            old(self)@.prizes.seed is Some ==> built_from(
                final(self)@.prizes,
                expand(restored(old(self)@.items)),
                old(self)@.prizes.seed->0,
            ),
    {
        let ghost cat = self@.items;
        let n = self.items.len();
        let mut j: usize = 0;
        proof {
            assert(catalog_view(self.items@) =~= restored(cat).take(0) + cat.skip(0));
        }
        while j < n
            invariant
                old(self)@.wf(),
                n == self.items@.len(),
                cat.len() == n,
                j <= n,
                cat == old(self)@.items,
                self@.prizes == old(self)@.prizes,
                catalog_view(self.items@) == restored(cat).take(j as int) + cat.skip(j as int),
            decreases n - j,
        {
            let ghost pre = catalog_view(self.items@);
            let mut entry = self.items.remove(j);
            entry.restore();
            self.items.insert(j, entry);
            j = j + 1;
            proof {
                assert(restored(cat).take(j - 1).len() == j - 1);
                assert(pre[j - 1] == cat.skip(j - 1)[0]);
                assert(pre[j - 1] == cat[j - 1]);
                assert(catalog_view(self.items@) =~= pre.update(j - 1, entry@));
                assert(restored(cat)[j - 1] == (GashaponItemV {
                    quantity: cat[j - 1].original,
                    ..cat[j - 1]
                }));
                assert(catalog_view(self.items@) =~= restored(cat).take(j as int) + cat.skip(
                    j as int,
                ));
            }
        }
        proof {
            assert(catalog_view(self.items@) =~= restored(cat));
            assert forall|j1: int, j2: int|
                #![trigger restored(cat)[j1], restored(cat)[j2]]
                0 <= j1 < j2 < restored(cat).len() implies restored(cat)[j1].prize.id != restored(
                cat,
            )[j2].prize.id by {
                assert(restored(cat)[j1].prize == cat[j1].prize);
                assert(restored(cat)[j2].prize == cat[j2].prize);
            }
        }
        self.build();
    }

    /// The draw rate of every catalog entry, in catalog order: each entry's
    /// current quantity over the total current quantity, the exact chance
    /// that one random draw yields that entry's prize. With a total of
    /// zero every fraction reads zero over zero, reported as a rate of
    /// zero rather than a failure.
    pub fn calculate_draw_rate(&self) -> (r: Vec<DrawRate>)
        ensures
            r@.len() == self@.items.len(),
            forall|j: int|
                0 <= j < r@.len() ==> ((#[trigger] r@[j]).item@ == self@.items[j]
                    && r@[j].numerator == self@.items[j].quantity && r@[j].denominator as int
                    == total_quantity(self@.items)),
    {
        let ghost cat = self@.items;
        let n = self.items.len();
        let mut total: u128 = 0;
        let mut i: usize = 0;
        proof {
            assert(cat.take(0) =~= Seq::<GashaponItemV>::empty());
        }
        while i < n
            invariant
                n == self.items@.len(),
                cat == catalog_view(self.items@),
                i <= n,
                total as int == total_quantity(cat.take(i as int)),
                total as int <= (i as int) * 0xffff_ffff_ffff_ffff,
            decreases n - i,
        {
            let q = self.items[i].get_quantity();
            proof {
                assert(cat.take(i + 1).drop_last() =~= cat.take(i as int));
                assert(cat.take(i + 1).last() == cat[i as int]);
                assert((i as int) * 0xffff_ffff_ffff_ffff + 0xffff_ffff_ffff_ffff == (i + 1)
                    * 0xffff_ffff_ffff_ffff) by (nonlinear_arith);
                assert((i + 1) * 0xffff_ffff_ffff_ffff <= 0x1_0000_0000_0000_0000
                    * 0xffff_ffff_ffff_ffff) by (nonlinear_arith)
                    requires
                        i + 1 <= 0x1_0000_0000_0000_0000,
                ;
            }
            total = total + (q as u128);
            i = i + 1;
        }
        proof {
            assert(cat.take(n as int) =~= cat);
        }
        let mut out: Vec<DrawRate> = Vec::new();
        let mut j: usize = 0;
        while j < n
            invariant
                n == self.items@.len(),
                cat == catalog_view(self.items@),
                j <= n,
                total as int == total_quantity(cat),
                out@.len() == j,
                forall|t: int|
                    0 <= t < j ==> ((#[trigger] out@[t]).item@ == cat[t] && out@[t].numerator
                        == cat[t].quantity && out@[t].denominator == total),
            decreases n - j,
        {
            let num = self.items[j].get_quantity();
            out.push(DrawRate { item: self.items[j].clone(), numerator: num, denominator: total });
            j = j + 1;
        }
        out
    }
}

/// Draw-rate normalization: every rate lies between zero and one — each
/// numerator is at most the shared denominator — the numerators add up to
/// exactly that denominator, so with a positive total the rates sum to
/// one; and with a total of zero every numerator is zero, so every rate
/// reads zero.
pub proof fn lemma_draw_rate_normalized(cat: Seq<GashaponItemV>)
    ensures
        total_quantity(cat) >= 0,
        sum_by(cat, quantity_weight()) == total_quantity(cat),
        forall|j: int|
            0 <= j < cat.len() ==> 0 <= (#[trigger] cat[j].quantity as int) <= total_quantity(cat),
        total_quantity(cat) == 0 ==> forall|j: int|
            0 <= j < cat.len() ==> (#[trigger] cat[j].quantity) == 0,
{
    lemma_sum_by_nonneg(cat, quantity_weight());
    assert forall|j: int|
        0 <= j < cat.len() implies 0 <= (#[trigger] cat[j].quantity as int) <= total_quantity(
        cat,
    ) by {
        lemma_sum_by_at_least(cat, quantity_weight(), j);
    }
}

/// Restore reproduces the draw-rate distribution of the original build:
/// a catalog that has since lost units to draws or had quantities edited,
/// restored, is entry for entry the catalog the first build saw — same
/// prizes, same quantities — so the draw rates computed after the restore
/// equal those computed right after that build.
pub proof fn lemma_restore_rates(cat0: Seq<GashaponItemV>, cat1: Seq<GashaponItemV>)
    requires
        cat1.len() == cat0.len(),
        forall|j: int|
            0 <= j < cat0.len() ==> (#[trigger] cat1[j].prize) == cat0[j].prize && cat1[j].original
                == cat0[j].original,
        forall|j: int| 0 <= j < cat0.len() ==> (#[trigger] cat0[j].quantity) == cat0[j].original,
    ensures
        restored(cat1) == cat0,
{
    assert forall|j: int| 0 <= j < cat0.len() implies restored(cat1)[j] == cat0[j] by {
        assert(cat1[j].prize == cat0[j].prize);
        assert(cat1[j].original == cat0[j].original);
        assert(cat0[j].quantity == cat0[j].original);
        assert(restored(cat1)[j] == (GashaponItemV { quantity: cat1[j].original, ..cat1[j] }));
        assert(restored(cat1)[j] =~= cat0[j]);
    }
    assert(restored(cat1) =~= cat0);
}

/// In a machine whose pool mirrors its catalog, the prize the next draw
/// yields has a catalog entry with at least one unit left, and it is the
/// one the entry search finds.
pub proof fn lemma_drawn_entry_live(g: GashaponV)
    requires
        g.wf(),
        g.synced(),
        g.remaining() > 0,
    ensures
        ({
            let j = index_of_id(g.items, g.prizes.drawn_prize().id);
            &&& 0 <= j < g.items.len()
            &&& g.items[j].prize.id == g.prizes.drawn_prize().id
            &&& g.items[j].quantity > 0
        }),
{
    let d = g.prizes.drawn_prize().id;
    let slot = g.prizes.draw_slot();
    lemma_after_draw_wf(g.prizes);
    assert(g.prizes.randomized[slot] is Some);
    assert(slot_weight(g.prizes.items, d)(g.prizes.randomized[slot]) == 1);
    lemma_sum_by_at_least(g.prizes.randomized, slot_weight(g.prizes.items, d), slot);
    assert(qty_of(g.items, d) == live_count(g.prizes, d));
    assert(qty_of(g.items, d) >= 1);
    lemma_index_of_id(g.items, d);
    let j = index_of_id(g.items, d);
    if j == g.items.len() {
        assert forall|jj: int| 0 <= jj < g.items.len() implies #[trigger] qty_weight(d)(
            g.items[jj],
        ) == 0 by {}
        lemma_sum_by_zero(g.items, qty_weight(d));
    } else {
        lemma_qty_at_unique(g.items, j, d);
    }
}

/// Exhaustion and no replacement at the machine level: from a machine
/// whose pool mirrors its catalog, every one of the remaining draws
/// succeeds — the machine stays well-formed and mirrored, step by step,
/// and the pool walks the same path it would walk alone — and each draw
/// leaves one slot fewer. A run of exactly as many draws as the pool
/// holds slots therefore leaves nothing drawable, and the next draw fails
/// as exhausted.
pub proof fn lemma_machine_draws(g: GashaponV, n: nat)
    requires
        g.wf(),
        g.synced(),
        n <= g.remaining(),
    ensures
        g.after_draws(n).wf(),
        g.after_draws(n).synced(),
        g.after_draws(n).remaining() == g.remaining() - n,
        g.after_draws(n).prizes == g.prizes.after_draws(n),
    decreases n,
{
    if n > 0 {
        lemma_machine_draws(g, (n - 1) as nat);
        let h = g.after_draws((n - 1) as nat);
        let d = h.prizes.drawn_prize().id;
        lemma_drawn_entry_live(h);
        let j = index_of_id(h.items, d);
        lemma_index_of_id(h.items, d);
        lemma_sync_after_draw(h, j);
        lemma_after_draw_wf(h.prizes);
        let newcat = h.after_draw().items;
        assert forall|j1: int, j2: int|
            #![trigger newcat[j1], newcat[j2]]
            0 <= j1 < j2 < newcat.len() implies newcat[j1].prize.id != newcat[j2].prize.id by {
            assert(newcat[j1].prize == h.items[j1].prize);
            assert(newcat[j2].prize == h.items[j2].prize);
        }
    }
}

/// With identifiers unique, a catalog's units of one identifier are the
/// quantity of the single entry that carries it.
pub proof fn lemma_qty_at_unique(cat: Seq<GashaponItemV>, j: int, id: u64)
    requires
        0 <= j < cat.len(),
        cat[j].prize.id == id,
        forall|j1: int, j2: int|
            #![trigger cat[j1], cat[j2]]
            0 <= j1 < j2 < cat.len() ==> cat[j1].prize.id != cat[j2].prize.id,
    ensures
        qty_of(cat, id) == cat[j].quantity,
{
    let other: u64 = if id == u64::MAX {
        0
    } else {
        (id + 1) as u64
    };
    let dummy = GashaponItemV {
        prize: PrizeItemV { id: other, name: Seq::empty() },
        quantity: 0,
        original: 0,
    };
    lemma_sum_by_update(cat, j, dummy, qty_weight(id));
    let blanked = cat.update(j, dummy);
    assert forall|t: int| 0 <= t < blanked.len() implies #[trigger] qty_weight(id)(blanked[t])
        == 0 by {
        if t != j {
            assert(blanked[t] == cat[t]);
            assert(cat[t].prize.id != id);
        }
    }
    lemma_sum_by_zero(blanked, qty_weight(id));
}

/// A successful draw keeps the catalog and the pool in step: the drawn
/// identifier loses one unit on both sides and every other identifier is
/// untouched.
pub proof fn lemma_sync_after_draw(g: GashaponV, j: int)
    requires
        g.wf(),
        g.synced(),
        g.remaining() > 0,
        0 <= j < g.items.len(),
        g.items[j].prize.id == g.prizes.drawn_prize().id,
        g.items[j].quantity > 0,
    ensures
        (GashaponV {
            items: g.items.update(
                j,
                (GashaponItemV { quantity: (g.items[j].quantity - 1) as u64, ..g.items[j] }),
            ),
            prizes: g.prizes.after_draw(),
        }).synced(),
{
    let d = g.prizes.drawn_prize().id;
    let slot = g.prizes.draw_slot();
    lemma_after_draw_wf(g.prizes);
    assert(0 <= g.prizes.draw_pos() < g.prizes.idx_box.len());
    assert(0 <= slot < g.prizes.randomized.len());
    assert(g.prizes.randomized[slot] is Some);
    let k = g.prizes.drawn_index();
    assert(0 <= k < g.prizes.items.len());
    assert(g.prizes.items[k].id == d);
    let newcat = g.items.update(
        j,
        (GashaponItemV { quantity: (g.items[j].quantity - 1) as u64, ..g.items[j] }),
    );
    let newpool = g.prizes.after_draw();
    let dec = GashaponItemV { quantity: (g.items[j].quantity - 1) as u64, ..g.items[j] };
    assert forall|id: u64| qty_of(newcat, id) == live_count(newpool, id) by {
        assert(qty_of(g.items, id) == live_count(g.prizes, id));
        lemma_sum_by_update(g.items, j, dec, qty_weight(id));
        assert(newpool.items == g.prizes.items);
        assert(newpool.randomized == g.prizes.randomized.update(slot, None));
        lemma_sum_by_update(g.prizes.randomized, slot, None, slot_weight(g.prizes.items, id));
        assert(slot_weight(g.prizes.items, id)(None) == 0);
        if id == d {
            assert(qty_weight(id)(g.items[j]) == g.items[j].quantity as int);
            assert(qty_weight(id)(dec) == g.items[j].quantity - 1);
            assert(slot_weight(g.prizes.items, id)(g.prizes.randomized[slot]) == 1);
        } else {
            assert(qty_weight(id)(g.items[j]) == 0);
            assert(qty_weight(id)(dec) == 0);
            assert(slot_weight(g.prizes.items, id)(g.prizes.randomized[slot]) == 0);
        }
    }
}

} // verus!
