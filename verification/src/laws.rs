//! What holds of the counter over several calls, proved over the model.

use vstd::prelude::*;
use crate::model::{State, joined, larger};
use crate::total::{total, lemma_total_insert, lemma_total_mono, lemma_total_empty};

verus! {

/// The join of two finite vectors is finite.
pub proof fn lemma_joined_finite<Id>(a: Map<Id, u64>, b: Map<Id, u64>)
    requires
        a.dom().finite(),
        b.dom().finite(),
    ensures
        joined(a, b).dom().finite(),
{
    assert(joined(a, b).dom() =~= a.dom().union(b.dom()));
}

/// The join of two vectors sums to at least the sum of either.
pub proof fn lemma_joined_dominates<Id>(a: Map<Id, u64>, b: Map<Id, u64>)
    requires
        a.dom().finite(),
        b.dom().finite(),
    ensures
        total(joined(a, b)) >= total(a),
        total(joined(a, b)) >= total(b),
{
    lemma_joined_finite(a, b);
    lemma_total_mono(a, joined(a, b));
    lemma_total_mono(b, joined(a, b));
}

/// The join does not depend on the order of the two vectors, and joining
/// the same vector once more changes nothing.
pub proof fn lemma_joined_commutes_and_absorbs<Id>(a: Map<Id, u64>, b: Map<Id, u64>)
    ensures
        joined(a, b) == joined(b, a),
        joined(joined(a, b), b) == joined(a, b),
        joined(a, a) == a,
{
    assert(joined(a, b) =~= joined(b, a));
    assert(joined(joined(a, b), b) =~= joined(a, b));
    assert(joined(a, a) =~= a);
}

/// Between two top replicas, the vector after `merge_vectors` sums to at
/// least what either vector summed to before.
pub proof fn lemma_merge_vectors_dominates<Id>(a: State<Id>, o: State<Id>)
    requires
        a.wf(),
        o.wf(),
        a.tier == 0,
        o.tier == 0,
    ensures
        total(a.merge_vectors(o).vals) >= total(a.vals),
        total(a.merge_vectors(o).vals) >= total(o.vals),
        a.merge_vectors(o).vals == o.merge_vectors(a).vals,
{
    lemma_joined_dominates(a.vals, o.vals);
    lemma_joined_commutes_and_absorbs(a.vals, o.vals);
}

/// The amounts taken in are finitely many.
pub proof fn lemma_absorbed_is_finite<Id>(a: State<Id>, o: State<Id>)
    requires
        a.wf(),
    ensures
        a.absorbed(o).dom().finite(),
{
    assert(a.absorbed(o).dom().subset_of(a.slots.dom()));
    vstd::set_lib::lemma_set_subset_finite(a.slots.dom(), a.absorbed(o).dom());
}

/// What the first four steps of a merge do: the state stays well formed,
/// value, watermark, handoff generation and tokens are as before, the sum of
/// the vector grows by what was taken in, and the join between top replicas
/// does not make it smaller.
pub proof fn lemma_before_aggregate<Id>(a: State<Id>, o: State<Id>)
    requires
        a.wf(),
        o.wf(),
        a.fill_fits(o),
    ensures
        a.before_aggregate(o).wf(),
        a.before_aggregate(o).id == a.id,
        a.before_aggregate(o).tier == a.tier,
        a.before_aggregate(o).val == a.val,
        a.before_aggregate(o).below == a.below,
        a.before_aggregate(o).sck == a.sck,
        a.before_aggregate(o).tokens == a.tokens,
        total(a.fill_slots(o).vals) == total(a.vals) + total(a.absorbed(o)),
        total(a.before_aggregate(o).vals) >= total(a.vals),
        a.before_aggregate(o).vals == if a.tier == 0 && o.tier == 0 {
            joined(a.fill_slots(o).vals, o.vals)
        } else {
            a.fill_slots(o).vals
        },
{
    lemma_absorbed_is_finite(a, o);
    let filled = a.fill_slots(o);
    lemma_total_insert(a.vals, a.id, (a.pending() + total(a.absorbed(o))) as u64);
    assert(filled.slots.dom().subset_of(a.slots.dom()));
    vstd::set_lib::lemma_set_subset_finite(a.slots.dom(), filled.slots.dom());
    let slotted = filled.discard_slot(o).create_slot(o);
    assert(slotted.vals == filled.vals);
    assert(slotted.wf());
    if a.tier == 0 && o.tier == 0 {
        lemma_joined_finite(slotted.vals, o.vals);
        lemma_joined_dominates(slotted.vals, o.vals);
    }
}

/// A local increment raises the value by one, and keeps the value of a top
/// replica equal to the sum of its vector.
pub proof fn lemma_incr_raises_value<Id>(a: State<Id>)
    requires
        a.wf(),
        a.incr_fits(),
    ensures
        a.incr().val == a.val + 1,
        a.incr().wf(),
        a.top_exact() ==> a.incr().top_exact(),
{
    lemma_total_insert(a.vals, a.id, (a.pending() + 1) as u64);
}

/// A merge never lowers the value of a replica whose value is, at the top
/// tier, no more than the sum of its vector.
pub proof fn lemma_merge_never_lowers_value<Id>(a: State<Id>, o: State<Id>)
    requires
        a.wf(),
        o.wf(),
        a.merge_fits(o),
        a.tier == 0 ==> a.val <= total(a.vals),
    ensures
        a.merge(o).val >= a.val,
{
    lemma_before_aggregate(a, o);
}

/// After a merge the value of a top replica is the sum of its vector,
/// unless the merge made it hand its own count off.
pub proof fn lemma_merge_keeps_top_exact<Id>(a: State<Id>, o: State<Id>)
    requires
        a.wf(),
        o.wf(),
        a.merge_fits(o),
        !(a.tier == 0 && a.hands_off(o)),
    ensures
        a.merge(o).wf(),
        a.merge(o).top_exact(),
{
    lemma_before_aggregate(a, o);
}

/// Merging the same unchanged state a second time leaves the value as the
/// first merge left it, where the second merge takes no token in and the
/// first did not make a top replica hand its count off.
pub proof fn lemma_second_merge_keeps_value<Id>(a: State<Id>, o: State<Id>)
    requires
        a.wf(),
        o.wf(),
        a.merge_fits(o),
        a.merge(o).merge_fits(o),
        forall|src: Id| !a.merge(o).fills(o, src),
        !(a.tier == 0 && a.hands_off(o)),
    ensures
        a.merge(o).merge(o).val == a.merge(o).val,
{
    lemma_before_aggregate(a, o);
    let m = a.merge(o);
    assert(m.wf());
    lemma_before_aggregate(m, o);
    assert(m.absorbed(o) =~= Map::empty());
    lemma_total_empty::<Id>();
    assert(m.fill_slots(o).vals =~= m.vals);
    if a.tier == 0 {
        lemma_joined_commutes_and_absorbs(a.fill_slots(o).vals, o.vals);
    }
}

/// A replica that merges a copy of itself, as `view_for` makes one for any
/// replica, keeps its value at the top tier; below the top tier its pending
/// count is taken twice, so the value stays only where the watermark and
/// twice the pending count do not exceed it. This holds where the copy
/// carries no token that fits one of the replica's slots.
pub proof fn lemma_merge_with_own_view<Id>(a: State<Id>, id: Id, tier: usize)
    requires
        a.wf(),
        a.top_exact(),
        a.merge_fits(a.view_for(id, tier)),
        forall|src: Id| !a.fills(a.view_for(id, tier), src),
    ensures
        a.tier == 0 ==> a.merge(a.view_for(id, tier)).val == a.val,
        a.tier > 0 ==> a.merge(a.view_for(id, tier)).val == larger(
            a.val as int,
            a.below + 2 * a.pending(),
        ),
{
    let o = a.view_for(id, tier);
    lemma_before_aggregate(a, o);
    assert(a.absorbed(o) =~= Map::empty());
    lemma_total_empty::<Id>();
    assert(a.fill_slots(o).vals =~= a.vals);
    lemma_joined_commutes_and_absorbs(a.vals, a.vals);
}

/// Two replicas of one tier that merge each other's latest state, one after
/// the other, end with the same value, where neither merge takes a token in
/// and the first does not make its replica hand its count off.
pub proof fn lemma_equal_tiers_agree_after_exchange<Id>(a: State<Id>, b: State<Id>)
    requires
        a.wf(),
        b.wf(),
        a.tier == b.tier,
        a.merge_fits(b),
        b.merge_fits(a.merge(b)),
        forall|src: Id| !a.fills(b, src),
        forall|src: Id| !b.fills(a.merge(b), src),
        !a.hands_off(b),
    ensures
        b.merge(a.merge(b)).val == a.merge(b).val,
{
    lemma_before_aggregate(a, b);
    let m = a.merge(b);
    assert(m.wf());
    lemma_before_aggregate(b, m);
    lemma_total_empty::<Id>();
    assert(a.absorbed(b) =~= Map::empty());
    assert(a.fill_slots(b).vals =~= a.vals);
    assert(b.absorbed(m) =~= Map::empty());
    assert(b.fill_slots(m).vals =~= b.vals);
    assert(joined(b.vals, joined(a.vals, b.vals)) =~= joined(a.vals, b.vals));
}

/// After a merge with `o`, the replica holds no slot for `o` that is older
/// than `o`'s handoff generation, and no token that `o` can no longer take
/// in, but for one that `o` itself carried from itself to itself.
pub proof fn lemma_merge_leaves_nothing_outdated<Id>(a: State<Id>, o: State<Id>)
    ensures
        !a.merge(o).slot_outdated(o),
        forall|p: (Id, Id)| #[trigger]
            a.merge(o).tokens.contains_key(p) && p != (o.id, o.id) ==> !State::outdated_for(
                o,
                p.0,
                p.1,
                a.merge(o).tokens[p],
            ),
{
    let summed = a.before_aggregate(o).aggregate(o);
    let pruned = summed.discard_tokens(o);
    let sent = pruned.create_token(o);
    assert forall|p: (Id, Id)| #[trigger]
        a.merge(o).tokens.contains_key(p) && p != (o.id, o.id) implies !State::outdated_for(
        o,
        p.0,
        p.1,
        a.merge(o).tokens[p],
    ) by {
        if sent.takes_over(o, p) {
        } else {
            assert(sent.tokens.contains_key(p));
            if pruned.hands_off(o) && p == (pruned.id, o.id) {
            } else {
                assert(pruned.tokens.contains_key(p));
            }
        }
    }
}

/// A merge closes a slot only where it was filled by a token of `o`, or
/// where it was held for `o` and `o` has moved past it.
pub proof fn lemma_slot_closed_only_when_filled_or_outdated<Id>(
    a: State<Id>,
    o: State<Id>,
    c: Id,
)
    requires
        a.slots.contains_key(c),
        !a.merge(o).slots.contains_key(c),
    ensures
        a.fills(o, c) || (c == o.id && o.sck > a.slots[c].0),
{
}

/// A slot that a merge leaves open is as it was, or is the one opened for `o`.
pub proof fn lemma_slot_kept_or_opened<Id>(a: State<Id>, o: State<Id>, c: Id)
    requires
        a.merge(o).slots.contains_key(c),
    ensures
        (a.slots.contains_key(c) && a.merge(o).slots[c] == a.slots[c]) || (c == o.id
            && a.tier < o.tier && a.merge(o).slots[c].0 == o.sck),
{
}

/// A new replica is well formed, and its value is the sum of its vector.
pub proof fn lemma_fresh_is_exact<Id>(id: Id, tier: usize)
    ensures
        State::fresh(id, tier).wf(),
        State::fresh(id, tier).val == total(State::fresh(id, tier).vals),
{
    lemma_total_empty::<Id>();
    lemma_total_insert(Map::<Id, u64>::empty(), id, 0u64);
}

/// A handoff moves the pending count of a lower replica `c` to a higher
/// replica `p`, once and whole: `p` merges `c` and opens a slot, `c` merges
/// `p` and packs its count, `p` merges `c` again and takes it in. After that
/// `c` has nothing pending, `p` has its own pending count and that of `c`,
/// and the slot is closed. This holds where `p` held no slot for `c`, `c`
/// holds none for `p`, and no other token is taken in on the way.
pub proof fn lemma_handoff_moves_pending<Id>(p: State<Id>, c: State<Id>)
    requires
        p.wf(),
        c.wf(),
        p.id != c.id,
        p.tier < c.tier,
        c.pending() > 0,
        !p.slots.contains_key(c.id),
        !c.slots.contains_key(p.id),
        p.merge_fits(c),
        c.merge_fits(p.merge(c)),
        p.merge(c).merge_fits(c.merge(p.merge(c))),
        forall|src: Id| !p.fills(c, src),
        forall|src: Id| !c.fills(p.merge(c), src),
        forall|src: Id| src != c.id ==> !p.merge(c).fills(c.merge(p.merge(c)), src),
    ensures
        c.merge(p.merge(c)).pending() == 0,
        p.merge(c).merge(c.merge(p.merge(c))).pending() == p.pending() + c.pending(),
        p.merge(c).merge(c.merge(p.merge(c))).slots == p.slots,
{
    lemma_total_empty::<Id>();
    let opened = p.merge(c);
    lemma_before_aggregate(p, c);
    assert(p.absorbed(c) =~= Map::empty());
    assert(p.fill_slots(c).vals =~= p.vals);
    assert(p.fill_slots(c).slots =~= p.slots);
    assert(opened.vals == p.vals);
    assert(opened.slots == p.slots.insert(c.id, (c.sck, p.dck)));
    assert(opened.wf());

    let packed = c.merge(opened);
    lemma_before_aggregate(c, opened);
    assert(c.absorbed(opened) =~= Map::empty());
    assert(c.fill_slots(opened).vals =~= c.vals);
    let pruned = c.before_aggregate(opened).aggregate(opened).discard_tokens(opened);
    assert(pruned.hands_off(opened));
    let sent = pruned.create_token(opened);
    assert(packed.tokens =~= sent.tokens);
    assert(packed.vals == c.vals.insert(c.id, 0));
    assert(packed.tokens[(c.id, p.id)] == (c.sck, p.dck, c.pending()));
    assert(packed.wf()) by {
        assert(c.fill_slots(opened).slots.dom().subset_of(c.slots.dom()));
    }
    assert(!packed.slots.contains_key(p.id));

    let taken = opened.merge(packed);
    lemma_before_aggregate(opened, packed);
    assert(opened.fills(packed, c.id));
    assert(opened.absorbed(packed) =~= Map::<Id, u64>::empty().insert(c.id, c.pending()));
    lemma_total_insert(Map::<Id, u64>::empty(), c.id, c.pending());
    assert(opened.fill_slots(packed).slots =~= p.slots);
    assert(taken.slots == p.slots);
}

} // verus!
