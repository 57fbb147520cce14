//! The table of tokens that a replica holds, keyed by source and destination.

use vstd::prelude::*;
use std::collections::HashMap;
use std::hash::Hash;
use vstd::std_specs::hash::*;
use crate::keys::{keys_of, lawful};
use crate::model::Token;

verus! {

/// Tokens by destination, then by source.
#[derive(Clone, Debug)]
pub struct Tokens<Id: Hash + Eq + Copy> {
    by_dst: HashMap<Id, HashMap<Id, Token>>,
}

impl<Id: Hash + Eq + Copy> View for Tokens<Id> {
    type V = Map<(Id, Id), Token>;

    closed spec fn view(&self) -> Map<(Id, Id), Token> {
        Map::new(
            |p: (Id, Id)| self.by_dst@.contains_key(p.1) && self.by_dst@[p.1]@.contains_key(p.0),
            |p: (Id, Id)| self.by_dst@[p.1]@[p.0],
        )
    }
}

impl<Id: Hash + Eq + Copy> Tokens<Id> {
    /// The empty table.
    pub fn new() -> (r: Self)
        ensures
            r@ == Map::<(Id, Id), Token>::empty(),
    {
        let r = Tokens { by_dst: HashMap::with_capacity(1) };
        assert(r@ =~= Map::<(Id, Id), Token>::empty());
        r
    }

    /// A copy of the table.
    pub fn copy(&self) -> (r: Self)
        ensures
            r@ == self@,
    {
        let r = Tokens { by_dst: self.by_dst.clone() };
        assert(r@ =~= self@);
        r
    }

    /// The token from `src` to `dst`, if the table holds one.
    pub fn get(&self, src: Id, dst: Id) -> (r: Option<Token>)
        requires
            lawful::<Id>(),
        ensures
            r == if self@.contains_key((src, dst)) {
                Some(self@[(src, dst)])
            } else {
                None
            },
    {
        broadcast use group_hash_axioms;
        match self.by_dst.get(&dst) {
            Some(inner) => match inner.get(&src) {
                Some(t) => Some(*t),
                None => None,
            },
            None => None,
        }
    }

    /// Writes the token from `src` to `dst`, in place of one that was there.
    pub fn put(&mut self, src: Id, dst: Id, t: Token)
        requires
            lawful::<Id>(),
        ensures
            final(self)@ == old(self)@.insert((src, dst), t),
    {
        broadcast use group_hash_axioms;
        let mut inner = match self.by_dst.remove(&dst) {
            Some(m) => m,
            None => HashMap::new(),
        };
        inner.insert(src, t);
        self.by_dst.insert(dst, inner);
        assert(self@ =~= old(self)@.insert((src, dst), t));
    }

    /// Takes out the token from `src` to `dst`, if there is one.
    pub fn take_out(&mut self, src: Id, dst: Id)
        requires
            lawful::<Id>(),
        ensures
            final(self)@ == old(self)@.remove((src, dst)),
    {
        broadcast use group_hash_axioms;
        match self.by_dst.remove(&dst) {
            Some(m) => {
                let mut inner = m;
                inner.remove(&src);
                self.by_dst.insert(dst, inner);
            },
            None => {},
        }
        assert(self@ =~= old(self)@.remove((src, dst)));
    }

    /// The sources that have a token for `dst`, each once.
    pub fn sources_to(&self, dst: Id) -> (r: Vec<Id>)
        requires
            lawful::<Id>(),
        ensures
            r@.no_duplicates(),
            forall|src: Id| r@.contains(src) <==> self@.contains_key((src, dst)),
    {
        broadcast use group_hash_axioms;
        match self.by_dst.get(&dst) {
            Some(inner) => keys_of(inner),
            None => Vec::new(),
        }
    }

    /// Destinations, each once, among them every one that a token is for.
    pub(crate) fn destinations(&self) -> (r: Vec<Id>)
        requires
            lawful::<Id>(),
        ensures
            r@.no_duplicates(),
            forall|p: (Id, Id)| self@.contains_key(p) ==> r@.contains(p.1),
    {
        keys_of(&self.by_dst)
    }
}

} // verus!
