//! Sets of flag names.
//!
//! A `FlagSet` is viewed as a mathematical set of names. It also remembers
//! the order in which its names were first added, so that everything computed
//! from it comes out in an order that can be stated.

use crate::text::str_eq;
use vstd::prelude::*;
use vstd::std_specs::cmp::PartialEqSpecImpl;

verus! {

/// `base` followed by the names of `more` that are not yet in it, each once
/// and in the order of its first occurrence.
pub open spec fn add_all(base: Seq<Seq<char>>, more: Seq<Seq<char>>) -> Seq<Seq<char>>
    decreases more.len(),
{
    if more.len() == 0 {
        base
    } else {
        let sofar = add_all(base, more.drop_last());
        if sofar.contains(more.last()) {
            sofar
        } else {
            sofar.push(more.last())
        }
    }
}

/// `add_all` adds exactly the names of `more`, keeps `base` as a prefix, and
/// repeats nothing if `base` repeats nothing.
pub proof fn lemma_add_all(base: Seq<Seq<char>>, more: Seq<Seq<char>>)
    ensures
        add_all(base, more).to_set() == base.to_set().union(more.to_set()),
        base.len() <= add_all(base, more).len(),
        add_all(base, more).take(base.len() as int) == base,
        base.no_duplicates() ==> add_all(base, more).no_duplicates(),
    decreases more.len(),
{
    if more.len() > 0 {
        let init = more.drop_last();
        let last = more.last();
        let sofar = add_all(base, init);
        lemma_add_all(base, init);
        assert(more =~= init.push(last));
        if !sofar.contains(last) {
            sofar.lemma_push_to_set_commute(last);
        }
    }
}

/// Adding in two steps is adding in one: what `more` adds to `base` and
/// `next` together is what the union of `next` and `more` adds to `base`.
pub proof fn lemma_add_all_twice(base: Seq<Seq<char>>, next: Seq<Seq<char>>, more: Seq<Seq<char>>)
    ensures
        add_all(add_all(base, next), more) == add_all(base, add_all(next, more)),
    decreases more.len(),
{
    if more.len() > 0 {
        let init = more.drop_last();
        let sofar = add_all(next, init);
        lemma_add_all_twice(base, next, init);
        lemma_add_all(base, sofar);
        if sofar.contains(more.last()) {
            assert(add_all(base, sofar).to_set().contains(more.last()));
        } else {
            assert(sofar.push(more.last()).drop_last() =~= sofar);
        }
    }
}

/// A set of flag names.
#[derive(Debug)]
pub struct FlagSet {
    items: Vec<String>,
}

impl View for FlagSet {
    type V = Set<Seq<char>>;

    open spec fn view(&self) -> Set<Seq<char>> {
        self.entries().to_set()
    }
}

impl FlagSet {
    /// The names of the set, each once, in the order in which they were added.
    pub closed spec fn entries(&self) -> Seq<Seq<char>> {
        self.items.deep_view()
    }

    #[verifier::type_invariant]
    spec fn distinct(&self) -> bool {
        self.entries().no_duplicates()
    }

    /// The empty set.
    pub fn new() -> (s: FlagSet)
        ensures
            s.entries() == Seq::<Seq<char>>::empty(),
    {
        FlagSet { items: Vec::new() }
    }

    /// The number of names in the set.
    pub fn len(&self) -> (n: usize)
        ensures
            n == self@.len(),
            n == self.entries().len(),
            self.entries().no_duplicates(),
    {
        proof {
            use_type_invariant(self);
            self.entries().unique_seq_to_set();
        }
        self.items.len()
    }

    /// Whether the set holds no name.
    pub fn is_empty(&self) -> (r: bool)
        ensures
            r == (self@.len() == 0),
            r == (self.entries().len() == 0),
    {
        self.len() == 0
    }

    /// The `i`-th name in order of addition, counted from 0.
    pub(crate) fn at(&self, i: usize) -> (name: &String)
        requires
            i < self.entries().len(),
        ensures
            name@ == self.entries()[i as int],
    {
        &self.items[i]
    }

    /// The `i`-th name in order of addition, counted from 0, if there are
    /// that many.
    pub fn get(&self, i: usize) -> (flag: Option<&String>)
        ensures
            match flag {
                Some(name) => i < self.entries().len() && name@ == self.entries()[i as int],
                None => i >= self.entries().len(),
            },
    {
        if i < self.items.len() {
            Some(&self.items[i])
        } else {
            None
        }
    }

    /// Whether `flag` is in the set.
    pub fn contains(&self, flag: &str) -> (r: bool)
        ensures
            r == self@.contains(flag@),
    {
        let mut i: usize = 0;
        while i < self.items.len()
            invariant
                i <= self.items.len(),
                forall|j: int| 0 <= j < i ==> self.entries()[j] != flag@,
            decreases self.items.len() - i,
        {
            if str_eq(self.items[i].as_str(), flag) {
                assert(self.entries()[i as int] == flag@);
                return true;
            }
            i += 1;
        }
        false
    }

    /// Adds `flag`; says whether it was new to the set.
    pub fn insert(&mut self, flag: String) -> (fresh: bool)
        ensures
            fresh == !old(self)@.contains(flag@),
            final(self)@ == old(self)@.insert(flag@),
            final(self).entries() == add_all(old(self).entries(), seq![flag@]),
    {
        proof {
            use_type_invariant(&*self);
            assert(add_all(self.entries(), seq![flag@].drop_last()) == self.entries());
            lemma_add_all(self.entries(), seq![flag@]);
        }
        if self.contains(flag.as_str()) {
            false
        } else {
            let ghost before = self.entries();
            let mut items: Vec<String> = Vec::new();
            std::mem::swap(&mut items, &mut self.items);
            items.push(flag);
            assert(items.deep_view() =~= before.push(flag@));
            self.items = items;
            true
        }
    }

    /// Takes every name out of the set.
    pub fn clear(&mut self)
        ensures
            final(self).entries() == Seq::<Seq<char>>::empty(),
    {
        self.items = Vec::new();
    }

    /// Adds every name of `flags`.
    pub fn extend(&mut self, flags: &Vec<String>)
        ensures
            final(self)@ == old(self)@.union(flags.deep_view().to_set()),
            final(self).entries() == add_all(old(self).entries(), flags.deep_view()),
    {
        let ghost more = flags.deep_view();
        let mut i: usize = 0;
        while i < flags.len()
            invariant
                i <= flags.len(),
                more == flags.deep_view(),
                self.entries() == add_all(old(self).entries(), more.take(i as int)),
            decreases flags.len() - i,
        {
            let ghost sofar = self.entries();
            let flag = flags[i].clone();
            self.insert(flag);
            proof {
                // One more name of `flags` is one more step of `add_all`.
                assert(more.take(i + 1).drop_last() =~= more.take(i as int));
                assert(add_all(sofar, seq![flags[i as int]@].drop_last()) == sofar);
            }
            i += 1;
        }
        proof {
            assert(more.take(i as int) =~= more);
            lemma_add_all(old(self).entries(), more);
        }
    }

    /// Adds every name of `other`.
    pub fn merge(&mut self, other: &FlagSet)
        ensures
            final(self)@ == old(self)@.union(other@),
            final(self).entries() == add_all(old(self).entries(), other.entries()),
    {
        self.extend(&other.items);
    }

    /// The set of the names in `flags`.
    pub fn from_vec(flags: Vec<String>) -> (s: FlagSet)
        ensures
            s@ == flags.deep_view().to_set(),
            s.entries() == add_all(Seq::empty(), flags.deep_view()),
    {
        let mut s = FlagSet::new();
        s.extend(&flags);
        s
    }

    /// The names of the set, in order of addition.
    pub fn to_vec(&self) -> (v: Vec<String>)
        ensures
            v.deep_view() == self.entries(),
    {
        let mut v: Vec<String> = Vec::new();
        let mut i: usize = 0;
        while i < self.items.len()
            invariant
                i <= self.items.len(),
                v.deep_view() == self.entries().take(i as int),
            decreases self.items.len() - i,
        {
            let flag = self.items[i].clone();
            v.push(flag);
            assert(self.entries().take(i + 1) =~= self.entries().take(i as int).push(flag@));
            i += 1;
        }
        v
    }

    /// Whether every name of the set is in `other`.
    pub fn is_subset_of(&self, other: &FlagSet) -> (r: bool)
        ensures
            r == self@.subset_of(other@),
    {
        let mut i: usize = 0;
        while i < self.items.len()
            invariant
                i <= self.items.len(),
                forall|j: int| 0 <= j < i ==> other@.contains(self.entries()[j]),
            decreases self.items.len() - i,
        {
            if !other.contains(self.items[i].as_str()) {
                assert(self@.contains(self.entries()[i as int]));
                return false;
            }
            i += 1;
        }
        true
    }
}

impl Clone for FlagSet {
    /// A copy with the same names in the same order.
    fn clone(&self) -> (s: FlagSet)
        ensures
            s.entries() == self.entries(),
    {
        proof {
            use_type_invariant(self);
        }
        FlagSet { items: self.to_vec() }
    }
}

impl PartialEq for FlagSet {
    /// Two sets are equal when they hold the same names, in whatever order.
    fn eq(&self, other: &FlagSet) -> (r: bool) {
        let r = self.is_subset_of(other) && other.is_subset_of(self);
        assert(r == (self@ =~= other@));
        r
    }
}

impl PartialEqSpecImpl for FlagSet {
    open spec fn obeys_eq_spec() -> bool {
        true
    }

    open spec fn eq_spec(&self, other: &FlagSet) -> bool {
        self@ == other@
    }
}

} // verus!
