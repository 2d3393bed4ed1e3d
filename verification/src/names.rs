//! A set of names.

use crate::text::{same_str, views};
use vstd::hash_set::StringHashSet;
use vstd::prelude::*;

verus! {

/// A set of names.
pub struct NameSet {
    index: StringHashSet,
    names: Vec<String>,
}

impl View for NameSet {
    type V = Set<Seq<char>>;

    closed spec fn view(&self) -> Set<Seq<char>> {
        self.index@
    }
}

impl NameSet {
    #[verifier::type_invariant]
    closed spec fn inv(&self) -> bool {
        self.index@ == views(self.names@).to_set()
    }

    /// The empty set.
    pub fn new() -> (r: NameSet)
        ensures
            r@ == Set::<Seq<char>>::empty(),
    {
        let names: Vec<String> = Vec::new();
        let index = StringHashSet::new();
        assert(views(names@) =~= Seq::<Seq<char>>::empty());
        assert(views(names@).to_set() =~= Set::<Seq<char>>::empty());
        NameSet { index, names }
    }

    /// Adds `name`; tells whether it was new.
    pub fn insert(&mut self, name: &str) -> (added: bool)
        ensures
            final(self)@ == old(self)@.insert(name@),
            added == !old(self)@.contains(name@),
    {
        proof {
            use_type_invariant(&*self);
        }
        if self.index.contains(name) {
            assert(self.index@.insert(name@) =~= self.index@);
            return false;
        }
        let mut taken = NameSet::new();
        std::mem::swap(self, &mut taken);
        let NameSet { mut index, mut names } = taken;
        let ghost before = views(names@);
        names.push(name.to_owned());
        let _ = index.insert(name.to_owned());
        assert(views(names@) =~= before.push(name@));
        proof {
            before.lemma_push_to_set_commute(name@);
        }
        *self = NameSet { index, names };
        true
    }

    /// Removes `name`; tells whether it was there.
    pub fn remove(&mut self, name: &str) -> (removed: bool)
        ensures
            final(self)@ == old(self)@.remove(name@),
            removed == old(self)@.contains(name@),
    {
        proof {
            use_type_invariant(&*self);
        }
        let removed = self.index.contains(name);
        let mut kept = NameSet::new();
        let mut i: usize = 0;
        while i < self.names.len()
            invariant
                i <= self.names@.len(),
                kept@ =~= views(self.names@.take(i as int)).to_set().remove(name@),
            decreases self.names@.len() - i,
        {
            let ghost head = views(self.names@.take(i as int));
            let ghost next = self.names@[i as int]@;
            if !same_str(&self.names[i], name) {
                let _ = kept.insert(&self.names[i]);
            }
            i += 1;
            proof {
                assert(views(self.names@.take(i as int)) =~= head.push(next));
                head.lemma_push_to_set_commute(next);
            }
        }
        assert(self.names@.take(i as int) =~= self.names@);
        *self = kept;
        removed
    }

    /// Does the set hold `name`?
    pub fn contains(&self, name: &str) -> (r: bool)
        ensures
            r == self@.contains(name@),
    {
        self.index.contains(name)
    }

    /// The number of names.
    pub fn len(&self) -> (r: usize)
        ensures
            r == self@.len(),
            self@.finite(),
    {
        proof {
            use_type_invariant(self);
            vstd::seq_lib::seq_to_set_is_finite(views(self.names@));
        }
        self.index.len()
    }

    /// Is the set empty?
    pub fn is_empty(&self) -> (r: bool)
        ensures
            r == (self@ == Set::<Seq<char>>::empty()),
    {
        proof {
            if self.index@.is_empty() {
                assert(self.index@ =~= Set::empty());
            }
        }
        self.index.is_empty()
    }

    /// Adds every name of `other`.
    pub fn add_all(&mut self, other: &NameSet)
        ensures
            final(self)@ == old(self)@.union(other@),
    {
        proof {
            use_type_invariant(other);
        }
        let mut i: usize = 0;
        assert(views(other.names@.take(0)).to_set() =~= Set::empty());
        while i < other.names.len()
            invariant
                i <= other.names@.len(),
                self@ =~= old(self)@.union(views(other.names@.take(i as int)).to_set()),
            decreases other.names@.len() - i,
        {
            let ghost head = views(other.names@.take(i as int));
            let ghost next = other.names@[i as int]@;
            let _ = self.insert(&other.names[i]);
            i += 1;
            proof {
                assert(views(other.names@.take(i as int)) =~= head.push(next));
                head.lemma_push_to_set_commute(next);
            }
        }
        assert(other.names@.take(i as int) =~= other.names@);
    }

    /// The set of the given names.
    pub fn from_names(names: &[String]) -> (r: NameSet)
        ensures
            r@ == views(names@).to_set(),
    {
        let mut r = NameSet::new();
        let mut i: usize = 0;
        assert(views(names@.take(0)).to_set() =~= Set::empty());
        while i < names.len()
            invariant
                i <= names@.len(),
                r@ =~= views(names@.take(i as int)).to_set(),
            decreases names@.len() - i,
        {
            let ghost head = views(names@.take(i as int));
            let ghost next = names@[i as int]@;
            let _ = r.insert(&names[i]);
            i += 1;
            proof {
                assert(views(names@.take(i as int)) =~= head.push(next));
                head.lemma_push_to_set_commute(next);
            }
        }
        assert(names@.take(i as int) =~= names@);
        r
    }
}

impl Clone for NameSet {
    fn clone(&self) -> (r: NameSet)
        ensures
            r@ == self@,
    {
        let mut r = NameSet::new();
        r.add_all(self);
        assert(r@ =~= self@);
        r
    }
}

} // verus!
