//! The mathematical model of a replica: its state as plain values and maps,
//! and each step of a merge as a function from two states to the next one.

use vstd::prelude::*;
use crate::total::total;

verus! {

/// A slot: the handoff generation of the child it waits for, and the slot
/// generation of the replica that holds it.
pub type Slot = (u64, u64);

/// A token: the two generations of the slot it was made for, and the amount.
pub type Token = (u64, u64, u64);

/// The state of one replica.
#[verifier::reject_recursive_types(Id)]
pub struct State<Id> {
    pub id: Id,
    pub tier: usize,
    pub val: u64,
    pub below: u64,
    pub vals: Map<Id, u64>,
    pub sck: u64,
    pub dck: u64,
    pub slots: Map<Id, Slot>,
    /// Keyed by source and destination, in this order.
    pub tokens: Map<(Id, Id), Token>,
}

/// The larger of two counts.
pub open spec fn larger(a: int, b: int) -> int {
    if a >= b {
        a
    } else {
        b
    }
}

/// The count that `m` holds for `k`, zero where it holds none.
pub open spec fn count_at<Id>(m: Map<Id, u64>, k: Id) -> u64 {
    if m.contains_key(k) {
        m[k]
    } else {
        0
    }
}

/// The pointwise maximum of two vectors of counts.
pub open spec fn joined<Id>(a: Map<Id, u64>, b: Map<Id, u64>) -> Map<Id, u64> {
    Map::new(
        |k: Id| a.contains_key(k) || b.contains_key(k),
        |k: Id| if count_at(a, k) >= count_at(b, k) { count_at(a, k) } else { count_at(b, k) },
    )
}

impl<Id> State<Id> {
    /// A replica always holds a count for itself, and its maps are finite.
    pub open spec fn wf(self) -> bool {
        &&& self.vals.dom().finite()
        &&& self.slots.dom().finite()
        &&& self.vals.contains_key(self.id)
    }

    /// The state of a new replica.
    pub open spec fn fresh(id: Id, tier: usize) -> Self {
        State {
            id,
            tier,
            val: 0,
            below: 0,
            vals: Map::empty().insert(id, 0u64),
            sck: 0,
            dck: 0,
            slots: Map::empty(),
            tokens: Map::empty(),
        }
    }

    /// The replica's own count that it has not handed off yet.
    pub open spec fn pending(self) -> u64 {
        self.vals[self.id]
    }

    /// At the top tier the value is the sum of the vector.
    pub open spec fn top_exact(self) -> bool {
        self.tier == 0 ==> self.val == total(self.vals)
    }

    /// Whether one more local increment fits in the machine's integers.
    pub open spec fn incr_fits(self) -> bool {
        self.val < u64::MAX && self.pending() < u64::MAX
    }

    /// The state after one local increment.
    pub open spec fn incr(self) -> Self {
        State {
            val: (self.val + 1) as u64,
            vals: self.vals.insert(self.id, (self.pending() + 1) as u64),
            ..self
        }
    }

    /// The copy that is shown to the replica `id` of tier `tier`: all its
    /// slots between equals, the one slot of `id` towards a lower replica,
    /// none towards a higher one.
    pub open spec fn view_for(self, id: Id, tier: usize) -> Self {
        State {
            slots: if self.tier < tier {
                if self.slots.contains_key(id) {
                    Map::empty().insert(id, self.slots[id])
                } else {
                    Map::empty()
                }
            } else if self.tier == tier {
                self.slots
            } else {
                Map::empty()
            },
            ..self
        }
    }

    /// Whether `o` carries a token from `src` that fits the slot held for `src`.
    pub open spec fn fills(self, o: Self, src: Id) -> bool {
        &&& self.slots.contains_key(src)
        &&& o.tokens.contains_key((src, self.id))
        &&& self.slots[src].0 == o.tokens[(src, self.id)].0
        &&& self.slots[src].1 == o.tokens[(src, self.id)].1
    }

    /// The amounts taken in from `o`, by source, among the sources in `among`.
    pub open spec fn absorbed_among(self, o: Self, among: Set<Id>) -> Map<Id, u64> {
        Map::new(
            |src: Id| among.contains(src) && self.fills(o, src),
            |src: Id| o.tokens[(src, self.id)].2,
        )
    }

    /// The amounts taken in from `o`, by source.
    pub open spec fn absorbed(self, o: Self) -> Map<Id, u64> {
        self.absorbed_among(o, Set::full())
    }

    /// Whether the pending count and what is taken in from `o` fit together.
    pub open spec fn fill_fits(self, o: Self) -> bool {
        self.pending() + total(self.absorbed(o)) <= u64::MAX
    }

    /// Every token of `o` addressed to this replica whose generations equal
    /// those of the slot held for its source is added to the pending count,
    /// and its slot is closed.
    pub open spec fn fill_slots(self, o: Self) -> Self {
        State {
            vals: self.vals.insert(
                self.id,
                (self.pending() + total(self.absorbed(o))) as u64,
            ),
            slots: Map::new(
                |c: Id| self.slots.contains_key(c) && !self.fills(o, c),
                |c: Id| self.slots[c],
            ),
            ..self
        }
    }

    /// Whether the slot held for `o` is older than `o`'s handoff generation.
    pub open spec fn slot_outdated(self, o: Self) -> bool {
        self.slots.contains_key(o.id) && o.sck > self.slots[o.id].0
    }

    /// A slot for `o` that `o` has moved past is closed.
    pub open spec fn discard_slot(self, o: Self) -> Self {
        if self.slot_outdated(o) {
            State { slots: self.slots.remove(o.id), ..self }
        } else {
            self
        }
    }

    /// Whether a slot is opened for `o`: it is a lower replica with a
    /// pending count and no slot yet.
    pub open spec fn opens_slot(self, o: Self) -> bool {
        self.tier < o.tier && o.pending() > 0 && !self.slots.contains_key(o.id)
    }

    /// Whether the slot generation can advance where a slot is opened.
    pub open spec fn slot_fits(self, o: Self) -> bool {
        self.opens_slot(o) ==> self.dck < u64::MAX
    }

    /// The slot for `o` is opened with `o`'s handoff generation and the
    /// replica's slot generation, which then advances.
    pub open spec fn create_slot(self, o: Self) -> Self {
        if self.opens_slot(o) {
            State {
                slots: self.slots.insert(o.id, (o.sck, self.dck)),
                dck: (self.dck + 1) as u64,
                ..self
            }
        } else {
            self
        }
    }

    /// Between two top replicas the vectors are joined.
    pub open spec fn merge_vectors(self, o: Self) -> Self {
        if self.tier == 0 && o.tier == 0 {
            State { vals: joined(self.vals, o.vals), ..self }
        } else {
            self
        }
    }

    /// The watermark after a merge with `o`.
    pub open spec fn below_after(self, o: Self) -> u64 {
        if self.tier == o.tier {
            if self.below >= o.below { self.below } else { o.below }
        } else if self.tier > o.tier {
            if self.below >= o.val { self.below } else { o.val }
        } else {
            self.below
        }
    }

    /// The sum that is held against the present value below the top tier.
    pub open spec fn estimate(self, o: Self) -> int {
        if self.tier == o.tier {
            self.below_after(o) + self.pending() + o.pending()
        } else {
            self.below_after(o) + self.pending()
        }
    }

    /// The value after a merge with `o`, as a number without bound.
    pub open spec fn value_after(self, o: Self) -> int {
        if self.tier == 0 {
            total(self.vals) as int
        } else if self.tier == o.tier {
            larger(larger(self.val as int, o.val as int), self.estimate(o))
        } else {
            larger(self.val as int, self.estimate(o))
        }
    }

    /// Whether the sums of the aggregation fit in the machine's integers.
    pub open spec fn aggregate_fits(self, o: Self) -> bool {
        if self.tier == 0 {
            total(self.vals) <= u64::MAX
        } else {
            self.estimate(o) <= u64::MAX
        }
    }

    /// The watermark and the value are set anew.
    pub open spec fn aggregate(self, o: Self) -> Self {
        State { below: self.below_after(o), val: self.value_after(o) as u64, ..self }
    }

    /// Whether a token from `src` to `dst` can no longer be taken in by `o`.
    pub open spec fn outdated_for(o: Self, src: Id, dst: Id, t: Token) -> bool {
        dst == o.id && if o.slots.contains_key(src) {
            o.slots[src].1 > t.1
        } else {
            o.dck > t.1
        }
    }

    /// The tokens that `o` can no longer take in are dropped.
    pub open spec fn discard_tokens(self, o: Self) -> Self {
        State {
            tokens: Map::new(
                |p: (Id, Id)|
                    self.tokens.contains_key(p) && !Self::outdated_for(
                        o,
                        p.0,
                        p.1,
                        self.tokens[p],
                    ),
                |p: (Id, Id)| self.tokens[p],
            ),
            ..self
        }
    }

    /// Whether `o` holds a slot for this replica's present handoff generation.
    pub open spec fn hands_off(self, o: Self) -> bool {
        o.slots.contains_key(self.id) && o.slots[self.id].0 == self.sck
    }

    /// Whether the handoff generation can advance where a token is made.
    pub open spec fn token_fits(self, o: Self) -> bool {
        self.hands_off(o) ==> self.sck < u64::MAX
    }

    /// The pending count is packed into a token for `o`, and starts again at zero.
    pub open spec fn create_token(self, o: Self) -> Self {
        if self.hands_off(o) {
            State {
                vals: self.vals.insert(self.id, 0),
                tokens: self.tokens.insert(
                    (self.id, o.id),
                    (o.slots[self.id].0, o.slots[self.id].1, self.pending()),
                ),
                sck: (self.sck + 1) as u64,
                ..self
            }
        } else {
            self
        }
    }

    /// Whether the token of `o` under `p` is one to keep for others: `o` is a
    /// lower replica, the token is its own, and it is addressed elsewhere.
    pub open spec fn relays(self, o: Self, p: (Id, Id)) -> bool {
        self.tier < o.tier && o.tokens.contains_key(p) && p.0 == o.id && p.1 != self.id
    }

    /// Whether the token of `o` under `p` takes the place under `p`.
    pub open spec fn takes_over(self, o: Self, p: (Id, Id)) -> bool {
        self.relays(o, p) && (!self.tokens.contains_key(p) || self.tokens[p].0 < o.tokens[p].0)
    }

    /// The tokens of a lower replica for others are kept, the one of the
    /// later handoff generation where both hold one.
    pub open spec fn cache_tokens(self, o: Self) -> Self {
        State {
            tokens: Map::new(
                |p: (Id, Id)| self.tokens.contains_key(p) || self.relays(o, p),
                |p: (Id, Id)| if self.takes_over(o, p) { o.tokens[p] } else { self.tokens[p] },
            ),
            ..self
        }
    }

    /// The state before the aggregation of a merge with `o`.
    pub open spec fn before_aggregate(self, o: Self) -> Self {
        self.fill_slots(o).discard_slot(o).create_slot(o).merge_vectors(o)
    }

    /// The state after a merge with `o`: the eight steps in their order.
    pub open spec fn merge(self, o: Self) -> Self {
        self.before_aggregate(o).aggregate(o).discard_tokens(o).create_token(o).cache_tokens(o)
    }

    /// Whether every sum of a merge with `o` fits in the machine's integers.
    pub open spec fn merge_fits(self, o: Self) -> bool {
        &&& self.fill_fits(o)
        &&& self.fill_slots(o).discard_slot(o).slot_fits(o)
        &&& self.before_aggregate(o).aggregate_fits(o)
        &&& self.before_aggregate(o).aggregate(o).discard_tokens(o).token_fits(o)
    }
}

} // verus!
