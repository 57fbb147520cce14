//! The counter of one replica: local increments, and the merge with the
//! state of another replica in eight steps.

use vstd::prelude::*;
use std::collections::HashMap;
use std::hash::Hash;
use vstd::std_specs::hash::*;
use vstd::set_lib::lemma_set_subset_finite;
use crate::keys::{keys_of, lawful};
use crate::model::{State, Slot, joined, count_at};
use crate::tokens::Tokens;
use crate::total::{total, lemma_total_insert, lemma_total_mono, lemma_total_empty};

verus! {

/// The counter of the replica `id`.
#[derive(Clone, Debug)]
pub struct Counter<Id: Hash + Eq + Copy> {
    id: Id,
    tier: usize,
    val: u64,
    below: u64,
    vals: HashMap<Id, u64>,
    sck: u64,
    dck: u64,
    slots: HashMap<Id, Slot>,
    tokens: Tokens<Id>,
}

/// Whether `c` is among the first `i` items of `s`.
spec fn among<T>(s: Seq<T>, i: int, c: T) -> bool {
    exists|j: int| 0 <= j < i && j < s.len() && s[j] == c
}

/// The entries of `m` under the first `i` keys of `s`.
spec fn part<Id>(m: Map<Id, u64>, s: Seq<Id>, i: int) -> Map<Id, u64> {
    Map::new(|k: Id| m.contains_key(k) && among(s, i, k), |k: Id| m[k])
}

/// What one more item adds to the first `i` items of `s`.
proof fn lemma_among_step<T>(s: Seq<T>, i: int)
    requires
        0 <= i < s.len(),
    ensures
        forall|c: T| among(s, i + 1, c) <==> (among(s, i, c) || c == s[i]),
        s.no_duplicates() ==> !among(s, i, s[i]),
        forall|c: T| !among(s, 0, c),
{
    assert forall|c: T| among(s, i + 1, c) <==> (among(s, i, c) || c == s[i]) by {
        if among(s, i, c) {
            let j = choose|j: int| 0 <= j < i && j < s.len() && s[j] == c;
            assert(0 <= j < i + 1 && j < s.len() && s[j] == c);
        }
        if c == s[i] {
            assert(0 <= i < i + 1 && i < s.len() && s[i] == c);
        }
    }
}

/// The first `s.len()` items of `s` are all of `s`.
proof fn lemma_among_all<T>(s: Seq<T>, c: T)
    ensures
        among(s, s.len() as int, c) <==> s.contains(c),
{
    if s.contains(c) {
        let j = choose|j: int| 0 <= j < s.len() && s[j] == c;
        assert(0 <= j < s.len() && j < s.len() && s[j] == c);
    }
}

impl<Id: Hash + Eq + Copy> Counter<Id> {
    /// The replica's state as plain values and maps.
    pub closed spec fn state(&self) -> State<Id> {
        State {
            id: self.id,
            tier: self.tier,
            val: self.val,
            below: self.below,
            vals: self.vals@,
            sck: self.sck,
            dck: self.dck,
            slots: self.slots@,
            tokens: self.tokens@,
        }
    }

    /// The identity type is lawful and the replica holds a count for itself.
    pub open spec fn wf(&self) -> bool {
        lawful::<Id>() && self.state().wf()
    }

    /// A new replica of the given tier, with nothing counted.
    pub fn new(id: Id, tier: usize) -> (c: Counter<Id>)
        requires
            lawful::<Id>(),
        ensures
            c.wf(),
            c.state() == State::fresh(id, tier),
    {
        broadcast use group_hash_axioms;
        let mut c = Counter {
            id: id,
            tier: tier,
            val: 0,
            below: 0,
            vals: if tier == 0 {
                HashMap::with_capacity(8)
            } else {
                HashMap::with_capacity(1)
            },
            sck: 0,
            dck: 0,
            slots: HashMap::new(),
            tokens: Tokens::new(),
        };
        c.vals.insert(id, 0);
        assert(c.state() =~= State::fresh(id, tier));
        c
    }

    /// The replica's identity.
    pub fn id(&self) -> (r: Id)
        ensures
            r == self.state().id,
    {
        self.id
    }

    /// The replica's tier: zero at the top, larger further down.
    pub fn tier(&self) -> (r: usize)
        ensures
            r == self.state().tier,
    {
        self.tier
    }

    /// The replica's present estimate of the total count.
    pub fn value(&self) -> (r: u64)
        ensures
            r == self.state().val,
    {
        self.val
    }

    /// The slots that the replica holds open, by child.
    pub fn slots(&self) -> (r: &HashMap<Id, Slot>)
        ensures
            r@ == self.state().slots,
    {
        &self.slots
    }

    /// The replica's own count, which `wf` says is there.
    fn pending(&self) -> (r: u64)
        requires
            self.wf(),
        ensures
            r == self.state().pending(),
    {
        broadcast use group_hash_axioms;
        match self.vals.get(&self.id) {
            Some(v) => *v,
            None => 0,
        }
    }

    /// Counts one local increment.
    pub fn incr(&mut self)
        requires
            old(self).wf(),
            old(self).state().incr_fits(),
        ensures
            final(self).wf(),
            final(self).state() == old(self).state().incr(),
    {
        broadcast use group_hash_axioms;
        let v = self.pending();
        self.val += 1;
        self.vals.insert(self.id, v + 1);
        assert(self.state() =~= old(self).state().incr());
    }

    /// The copy of this replica that is shown to the replica `id` of tier `tier`.
    pub fn view(&self, id: Id, tier: usize) -> (c: Self)
        requires
            self.wf(),
        ensures
            c.wf(),
            c.state() == self.state().view_for(id, tier),
    {
        broadcast use group_hash_axioms;
        let mut slots: HashMap<Id, Slot> = HashMap::with_capacity(1);
        if self.tier < tier {
            match self.slots.get(&id) {
                Some(v) => {
                    slots.insert(id, *v);
                },
                None => {},
            }
        } else if self.tier == tier {
            slots = self.slots.clone();
        }
        let c = Counter {
            id: self.id,
            tier: self.tier,
            val: self.val,
            below: self.below,
            vals: self.vals.clone(),
            sck: self.sck,
            dck: self.dck,
            slots: slots,
            tokens: self.tokens.copy(),
        };
        assert(c.state() =~= self.state().view_for(id, tier));
        c
    }

    /// Whether one more local increment fits in the machine's integers.
    pub fn incr_fits(&self) -> (r: bool)
        requires
            self.wf(),
        ensures
            r == self.state().incr_fits(),
    {
        self.val < u64::MAX && self.pending() < u64::MAX
    }

    /// Whether every sum of a merge with `other` fits in the machine's integers.
    pub fn merge_fits(&self, other: &Self) -> (r: bool)
        requires
            self.wf(),
            other.wf(),
        ensures
            r == self.state().merge_fits(other.state()),
    {
        broadcast use group_hash_axioms;
        let mut c = self.view(self.id, self.tier);
        assert(c.state() =~= self.state());
        match c.absorbed_total(other) {
            Some(t) => {
                if t > u64::MAX - c.pending() {
                    return false;
                }
            },
            None => {
                return false;
            },
        }
        c.fill_slots(other);
        c.discard_slot(other);
        if c.tier < other.tier && other.pending() > 0 && !c.slots.contains_key(&other.id) && c.dck
            == u64::MAX {
            return false;
        }
        c.create_slot(other);
        c.merge_vectors(other);
        if c.tier == 0 {
            if c.checked_sum().is_none() {
                return false;
            }
        } else {
            let b = c.below_after(other);
            let p = c.pending();
            if p > u64::MAX - b {
                return false;
            }
            if c.tier == other.tier && other.pending() > u64::MAX - (b + p) {
                return false;
            }
        }
        c.aggregate(other);
        c.discard_tokens(other);
        match other.slots.get(&c.id) {
            Some(s) => !(s.0 == c.sck && c.sck == u64::MAX),
            None => true,
        }
    }

    /// The watermark after a merge with `other`.
    fn below_after(&self, other: &Self) -> (r: u64)
        ensures
            r == self.state().below_after(other.state()),
    {
        if self.tier == other.tier {
            if self.below >= other.below { self.below } else { other.below }
        } else if self.tier > other.tier {
            if self.below >= other.val { self.below } else { other.val }
        } else {
            self.below
        }
    }

    /// Runs the eight steps of a merge with `other`, in their order.
    pub fn merge(&mut self, other: &Self)
        requires
            old(self).wf(),
            other.wf(),
            old(self).state().merge_fits(other.state()),
        ensures
            final(self).wf(),
            final(self).state() == old(self).state().merge(other.state()),
    {
        self.fill_slots(other);
        self.discard_slot(other);
        self.create_slot(other);
        self.merge_vectors(other);
        self.aggregate(other);
        self.discard_tokens(other);
        self.create_token(other);
        self.cache_tokens(other);
    }

    /// The sum of the amounts that a merge with `other` takes in, where it
    /// fits in the machine's integers.
    fn absorbed_total(&self, other: &Self) -> (r: Option<u64>)
        requires
            self.wf(),
            other.wf(),
        ensures
            r == if total(self.state().absorbed(other.state())) <= u64::MAX {
                Some(total(self.state().absorbed(other.state())) as u64)
            } else {
                None
            },
    {
        broadcast use group_hash_axioms;
        let ghost a = self.state();
        let ghost o = other.state();
        let srcs = other.tokens.sources_to(self.id);
        let mut acc: u64 = 0;
        let mut i: usize = 0;
        proof {
            assert(a.absorbed_among(o, Set::new(|c: Id| among(srcs@, 0, c))) =~= Map::empty());
            lemma_total_empty::<Id>();
        }
        while i < srcs.len()
            invariant
                i <= srcs.len(),
                lawful::<Id>(),
                a.wf(),
                a == self.state(),
                o == other.state(),
                srcs@.no_duplicates(),
                forall|src: Id| srcs@.contains(src) <==> o.tokens.contains_key((src, a.id)),
                acc == total(a.absorbed_among(o, Set::new(|c: Id| among(srcs@, i as int, c)))),
            decreases srcs.len() - i,
        {
            let src = srcs[i];
            let ghost before = Set::new(|c: Id| among(srcs@, i as int, c));
            let ghost after = Set::new(|c: Id| among(srcs@, i as int + 1, c));
            proof {
                lemma_among_step(srcs@, i as int);
                lemma_absorbed_finite(a, o, before);
                lemma_absorbed_finite(a, o, after);
                lemma_absorbed_finite(a, o, Set::full());
                lemma_total_mono(a.absorbed_among(o, after), a.absorbed(o));
                assert(srcs@.contains(src));
            }
            let t = other.tokens.get(src, self.id);
            let n = match (t, self.slots.get(&src)) {
                (Some(t), Some(s)) => if s.0 == t.0 && s.1 == t.1 {
                    Some(t.2)
                } else {
                    None
                },
                _ => None,
            };
            assert(n.is_some() == a.fills(o, src));
            match n {
                Some(n) => {
                    proof {
                        assert(a.absorbed_among(o, after) =~= a.absorbed_among(o, before).insert(
                            src,
                            n,
                        ));
                        lemma_total_insert(a.absorbed_among(o, before), src, n);
                    }
                    if n > u64::MAX - acc {
                        return None;
                    }
                    acc = acc + n;
                },
                None => {
                    assert(a.absorbed_among(o, after) =~= a.absorbed_among(o, before));
                },
            }
            i += 1;
        }
        proof {
            assert forall|c: Id| a.fills(o, c) implies among(srcs@, srcs.len() as int, c) by {
                lemma_among_all(srcs@, c);
            }
            assert(a.absorbed_among(o, Set::new(|c: Id| among(srcs@, srcs.len() as int, c)))
                =~= a.absorbed(o));
        }
        Some(acc)
    }

    /// Takes in the tokens of `other` that fit an open slot, and closes those slots.
    fn fill_slots(&mut self, other: &Self)
        requires
            old(self).wf(),
            other.wf(),
            old(self).state().fill_fits(other.state()),
        ensures
            final(self).wf(),
            final(self).state() == old(self).state().fill_slots(other.state()),
    {
        broadcast use group_hash_axioms;
        let ghost a = self.state();
        let ghost o = other.state();
        let taken = match self.absorbed_total(other) {
            Some(t) => t,
            None => 0,
        };
        let v = self.pending() + taken;
        let srcs = other.tokens.sources_to(self.id);
        let mut i: usize = 0;
        while i < srcs.len()
            invariant
                i <= srcs.len(),
                lawful::<Id>(),
                a.wf(),
                o == other.state(),
                srcs@.no_duplicates(),
                forall|src: Id| srcs@.contains(src) <==> o.tokens.contains_key((src, a.id)),
                self.state() == (State { slots: self.slots@, ..a }),
                self.slots@ =~= Map::new(
                    |c: Id| a.slots.contains_key(c) && !(among(srcs@, i as int, c) && a.fills(o, c)),
                    |c: Id| a.slots[c],
                ),
            decreases srcs.len() - i,
        {
            let src = srcs[i];
            proof {
                lemma_among_step(srcs@, i as int);
                assert(srcs@.contains(src));
            }
            let hit = match (other.tokens.get(src, self.id), self.slots.get(&src)) {
                (Some(t), Some(s)) => s.0 == t.0 && s.1 == t.1,
                _ => false,
            };
            assert(hit == a.fills(o, src));
            if hit {
                self.slots.remove(&src);
            }
            i += 1;
        }
        proof {
            assert forall|c: Id| a.fills(o, c) implies among(srcs@, srcs.len() as int, c) by {
                lemma_among_all(srcs@, c);
            }
        }
        self.vals.insert(self.id, v);
        assert(self.slots@ =~= a.fill_slots(o).slots);
        assert(self.vals@ =~= a.fill_slots(o).vals);
        assert(self.state() =~= a.fill_slots(o));
    }

    /// Closes the slot held for `other` where `other` has moved past it.
    fn discard_slot(&mut self, other: &Self)
        requires
            old(self).wf(),
            other.wf(),
        ensures
            final(self).wf(),
            final(self).state() == old(self).state().discard_slot(other.state()),
    {
        broadcast use group_hash_axioms;
        let outdated = match self.slots.get(&other.id) {
            Some(s) => other.sck > s.0,
            None => false,
        };
        if outdated {
            self.slots.remove(&other.id);
        }
        assert(self.state() =~= old(self).state().discard_slot(other.state()));
    }

    /// Opens a slot for a lower replica that has a pending count and no slot yet.
    fn create_slot(&mut self, other: &Self)
        requires
            old(self).wf(),
            other.wf(),
            old(self).state().slot_fits(other.state()),
        ensures
            final(self).wf(),
            final(self).state() == old(self).state().create_slot(other.state()),
    {
        broadcast use group_hash_axioms;
        if self.tier < other.tier && other.pending() > 0 && !self.slots.contains_key(&other.id) {
            self.slots.insert(other.id, (other.sck, self.dck));
            self.dck += 1;
        }
        assert(self.state() =~= old(self).state().create_slot(other.state()));
    }
}

impl<Id: Hash + Eq + Copy> Counter<Id> {
    /// Joins the vectors of two top replicas.
    fn merge_vectors(&mut self, other: &Self)
        requires
            old(self).wf(),
            other.wf(),
        ensures
            final(self).wf(),
            final(self).state() == old(self).state().merge_vectors(other.state()),
    {
        broadcast use group_hash_axioms;
        let ghost a = self.state();
        let ghost o = other.state();
        if self.tier == 0 && other.tier == 0 {
            let ks = keys_of(&other.vals);
            let mut i: usize = 0;
            while i < ks.len()
                invariant
                    i <= ks.len(),
                    lawful::<Id>(),
                    a.wf(),
                    o == other.state(),
                    ks@.no_duplicates(),
                    forall|k: Id| ks@.contains(k) <==> o.vals.contains_key(k),
                    self.state() == (State { vals: self.vals@, ..a }),
                    self.vals@ =~= Map::new(
                        |k: Id| a.vals.contains_key(k) || among(ks@, i as int, k),
                        |k: Id|
                            if among(ks@, i as int, k) {
                                joined(a.vals, o.vals)[k]
                            } else {
                                a.vals[k]
                            },
                    ),
                decreases ks.len() - i,
            {
                let k = ks[i];
                proof {
                    lemma_among_step(ks@, i as int);
                    assert(ks@.contains(k));
                }
                let v2 = match other.vals.get(&k) {
                    Some(v) => *v,
                    None => 0,
                };
                let v1 = match self.vals.get(&k) {
                    Some(v) => *v,
                    None => 0,
                };
                assert(v1 == count_at(a.vals, k));
                self.vals.insert(k, if v1 >= v2 { v1 } else { v2 });
                i += 1;
            }
            proof {
                assert forall|k: Id| among(ks@, ks.len() as int, k) <==> o.vals.contains_key(k) by {
                    lemma_among_all(ks@, k);
                }
                assert(self.vals@ =~= joined(a.vals, o.vals));
            }
        }
        assert(self.state() =~= a.merge_vectors(o));
    }

    /// The sum of the vector, where it fits in the machine's integers.
    fn checked_sum(&self) -> (r: Option<u64>)
        requires
            self.wf(),
        ensures
            r == if total(self.state().vals) <= u64::MAX {
                Some(total(self.state().vals) as u64)
            } else {
                None
            },
    {
        broadcast use group_hash_axioms;
        let ghost m = self.vals@;
        let ks = keys_of(&self.vals);
        let mut acc: u64 = 0;
        let mut i: usize = 0;
        proof {
            assert(part(m, ks@, 0) =~= Map::empty());
            lemma_total_empty::<Id>();
        }
        while i < ks.len()
            invariant
                i <= ks.len(),
                lawful::<Id>(),
                m == self.vals@,
                m.dom().finite(),
                ks@.no_duplicates(),
                forall|k: Id| ks@.contains(k) <==> m.contains_key(k),
                acc == total(part(m, ks@, i as int)),
            decreases ks.len() - i,
        {
            let k = ks[i];
            proof {
                lemma_among_step(ks@, i as int);
                assert(ks@.contains(k));
                assert(m.contains_key(k));
                assert(!among(ks@, i as int, k));
                assert(!part(m, ks@, i as int).contains_key(k));
                lemma_part_finite(m, ks@, i as int);
                lemma_part_finite(m, ks@, i as int + 1);
                assert(part(m, ks@, i as int + 1) =~= part(m, ks@, i as int).insert(k, m[k]));
                lemma_total_insert(part(m, ks@, i as int), k, m[k]);
                lemma_total_mono(part(m, ks@, i as int + 1), m);
            }
            let v = match self.vals.get(&k) {
                Some(v) => *v,
                None => 0,
            };
            if v > u64::MAX - acc {
                return None;
            }
            acc = acc + v;
            i += 1;
        }
        proof {
            assert forall|k: Id| among(ks@, ks.len() as int, k) <==> m.contains_key(k) by {
                lemma_among_all(ks@, k);
            }
            assert(part(m, ks@, ks.len() as int) =~= m);
        }
        Some(acc)
    }

    /// Sets the watermark and the value anew.
    fn aggregate(&mut self, other: &Self)
        requires
            old(self).wf(),
            other.wf(),
            old(self).state().aggregate_fits(other.state()),
        ensures
            final(self).wf(),
            final(self).state() == old(self).state().aggregate(other.state()),
    {
        let b = self.below_after(other);
        let v = if self.tier == 0 {
            match self.checked_sum() {
                Some(v) => v,
                None => 0,
            }
        } else if self.tier == other.tier {
            let m = if self.val >= other.val { self.val } else { other.val };
            let e = b + self.pending() + other.pending();
            if m >= e { m } else { e }
        } else {
            let e = b + self.pending();
            if self.val >= e { self.val } else { e }
        };
        self.below = b;
        self.val = v;
        assert(self.state() =~= old(self).state().aggregate(other.state()));
    }

    /// Drops the tokens that `other` can no longer take in.
    fn discard_tokens(&mut self, other: &Self)
        requires
            old(self).wf(),
            other.wf(),
        ensures
            final(self).wf(),
            final(self).state() == old(self).state().discard_tokens(other.state()),
    {
        broadcast use group_hash_axioms;
        let ghost a = self.state();
        let ghost o = other.state();
        let srcs = self.tokens.sources_to(other.id);
        let mut i: usize = 0;
        while i < srcs.len()
            invariant
                i <= srcs.len(),
                lawful::<Id>(),
                a.wf(),
                o == other.state(),
                srcs@.no_duplicates(),
                forall|src: Id| srcs@.contains(src) <==> a.tokens.contains_key((src, o.id)),
                self.state() == (State { tokens: self.tokens@, ..a }),
                self.tokens@ =~= Map::new(
                    |p: (Id, Id)|
                        a.tokens.contains_key(p) && !(among(srcs@, i as int, p.0)
                            && State::outdated_for(o, p.0, p.1, a.tokens[p])),
                    |p: (Id, Id)| a.tokens[p],
                ),
            decreases srcs.len() - i,
        {
            let src = srcs[i];
            proof {
                lemma_among_step(srcs@, i as int);
                assert(srcs@.contains(src));
            }
            let gone = match self.tokens.get(src, other.id) {
                Some(t) => match other.slots.get(&src) {
                    Some(s) => s.1 > t.1,
                    None => other.dck > t.1,
                },
                None => false,
            };
            if gone {
                self.tokens.take_out(src, other.id);
            }
            i += 1;
        }
        proof {
            assert forall|p: (Id, Id)| a.tokens.contains_key(p) && p.1 == o.id implies among(
                srcs@,
                srcs.len() as int,
                p.0,
            ) by {
                assert(p == (p.0, o.id));
                assert(srcs@.contains(p.0));
                lemma_among_all(srcs@, p.0);
            }
            assert(self.tokens@ =~= a.discard_tokens(o).tokens);
        }
        assert(self.state() =~= a.discard_tokens(o));
    }

    /// Packs the pending count into a token where `other` holds a slot for it.
    fn create_token(&mut self, other: &Self)
        requires
            old(self).wf(),
            other.wf(),
            old(self).state().token_fits(other.state()),
        ensures
            final(self).wf(),
            final(self).state() == old(self).state().create_token(other.state()),
    {
        broadcast use group_hash_axioms;
        let slot = match other.slots.get(&self.id) {
            Some(s) => Some(*s),
            None => None,
        };
        match slot {
            Some(s) => {
                if s.0 == self.sck {
                    let v = self.pending();
                    self.vals.insert(self.id, 0);
                    self.tokens.put(self.id, other.id, (s.0, s.1, v));
                    self.sck += 1;
                }
            },
            None => {},
        }
        assert(self.state() =~= old(self).state().create_token(other.state()));
    }

    /// Keeps the tokens of a lower replica that are addressed to others.
    fn cache_tokens(&mut self, other: &Self)
        requires
            old(self).wf(),
            other.wf(),
        ensures
            final(self).wf(),
            final(self).state() == old(self).state().cache_tokens(other.state()),
    {
        broadcast use group_hash_axioms;
        let ghost a = self.state();
        let ghost o = other.state();
        if self.tier < other.tier {
            let ds = other.tokens.destinations();
            let mut i: usize = 0;
            while i < ds.len()
                invariant
                    i <= ds.len(),
                    lawful::<Id>(),
                    a.wf(),
                    a.tier < o.tier,
                    o == other.state(),
                    ds@.no_duplicates(),
                    forall|p: (Id, Id)| o.tokens.contains_key(p) ==> ds@.contains(p.1),
                    self.state() == (State { tokens: self.tokens@, ..a }),
                    self.tokens@ =~= Map::new(
                        |p: (Id, Id)|
                            a.tokens.contains_key(p) || (among(ds@, i as int, p.1) && a.relays(
                                o,
                                p,
                            )),
                        |p: (Id, Id)|
                            if among(ds@, i as int, p.1) && a.takes_over(o, p) {
                                o.tokens[p]
                            } else {
                                a.tokens[p]
                            },
                    ),
                decreases ds.len() - i,
            {
                let d = ds[i];
                proof {
                    lemma_among_step(ds@, i as int);
                }
                if !(d == self.id) {
                    match other.tokens.get(other.id, d) {
                        Some(t) => {
                            let newer = match self.tokens.get(other.id, d) {
                                Some(e) => e.0 < t.0,
                                None => true,
                            };
                            if newer {
                                self.tokens.put(other.id, d, t);
                            }
                        },
                        None => {},
                    }
                }
                i += 1;
            }
            proof {
                assert forall|p: (Id, Id)| a.relays(o, p) implies among(
                    ds@,
                    ds.len() as int,
                    p.1,
                ) by {
                    lemma_among_all(ds@, p.1);
                }
            }
        }
        assert(self.state().tokens =~= a.cache_tokens(o).tokens);
        assert(self.state() =~= a.cache_tokens(o));
    }
}

/// A part of a finite map is finite.
proof fn lemma_part_finite<Id>(m: Map<Id, u64>, s: Seq<Id>, i: int)
    requires
        m.dom().finite(),
    ensures
        part(m, s, i).dom().finite(),
{
    assert(part(m, s, i).dom().subset_of(m.dom()));
    lemma_set_subset_finite(m.dom(), part(m, s, i).dom());
}

/// The amounts taken in, among any sources, are finitely many.
proof fn lemma_absorbed_finite<Id>(a: State<Id>, o: State<Id>, s: Set<Id>)
    requires
        a.slots.dom().finite(),
    ensures
        a.absorbed_among(o, s).dom().finite(),
{
    assert(a.absorbed_among(o, s).dom().subset_of(a.slots.dom()));
    lemma_set_subset_finite(a.slots.dom(), a.absorbed_among(o, s).dom());
}

} // verus!
