//! Conditions over flags: a single flag, or a conjunction or disjunction of
//! flags, and what it means for one to hold under a set of flags.

use crate::flags::{add_all, FlagSet};
use crate::text::is_flag_char;
use vstd::prelude::*;

verus! {

/// A condition as a directive states it.
#[derive(Debug, PartialEq, Clone)]
pub enum Condition {
    /// Holds when the flag is set.
    Single(String),
    /// Holds when every listed flag is set.
    And(Vec<String>),
    /// Holds when at least one listed flag is set.
    Or(Vec<String>),
}

/// What a `Condition` stands for: the same three forms over sequences of
/// characters.
pub enum ConditionView {
    Single(Seq<char>),
    And(Seq<Seq<char>>),
    Or(Seq<Seq<char>>),
}

/// Whether `name` can be a flag name: it is not empty and holds neither white
/// space nor a parenthesis.
pub open spec fn is_flag(name: Seq<char>) -> bool {
    name.len() > 0 && forall|i: int| 0 <= i < name.len() ==> is_flag_char(#[trigger] name[i])
}

/// Whether every name of `terms` is in `flags`.
pub open spec fn all_set(terms: Seq<Seq<char>>, flags: Set<Seq<char>>) -> bool {
    forall|i: int| 0 <= i < terms.len() ==> flags.contains(#[trigger] terms[i])
}

/// Whether at least one name of `terms` is in `flags`.
pub open spec fn any_set(terms: Seq<Seq<char>>, flags: Set<Seq<char>>) -> bool {
    exists|i: int| 0 <= i < terms.len() && flags.contains(#[trigger] terms[i])
}

impl ConditionView {
    /// Whether the condition holds when exactly the flags of `flags` are set.
    pub open spec fn holds(self, flags: Set<Seq<char>>) -> bool {
        match self {
            ConditionView::Single(flag) => flags.contains(flag),
            ConditionView::And(terms) => all_set(terms, flags),
            ConditionView::Or(terms) => any_set(terms, flags),
        }
    }

    /// The flag names that the condition mentions, in the order in which it
    /// lists them.
    pub open spec fn mentioned(self) -> Seq<Seq<char>> {
        match self {
            ConditionView::Single(flag) => seq![flag],
            ConditionView::And(terms) => terms,
            ConditionView::Or(terms) => terms,
        }
    }

    /// Whether the condition is one that the grammar can produce: it mentions
    /// at least one flag, and each name it mentions can be a flag name.
    pub open spec fn well_formed(self) -> bool {
        &&& self.mentioned().len() >= 1
        &&& forall|i: int| 0 <= i < self.mentioned().len() ==> is_flag(#[trigger] self.mentioned()[i])
    }
}

impl View for Condition {
    type V = ConditionView;

    open spec fn view(&self) -> ConditionView {
        match self {
            Condition::Single(flag) => ConditionView::Single(flag@),
            Condition::And(terms) => ConditionView::And(terms.deep_view()),
            Condition::Or(terms) => ConditionView::Or(terms.deep_view()),
        }
    }
}

/// Tests whether every name of `terms` is in `flags`.
fn check_all(terms: &Vec<String>, flags: &FlagSet) -> (r: bool)
    ensures
        r == all_set(terms.deep_view(), flags@),
{
    let mut i: usize = 0;
    while i < terms.len()
        invariant
            i <= terms.len(),
            forall|j: int| 0 <= j < i ==> flags@.contains(#[trigger] terms.deep_view()[j]),
        decreases terms.len() - i,
    {
        if !flags.contains(terms[i].as_str()) {
            assert(!flags@.contains(terms.deep_view()[i as int]));
            return false;
        }
        i += 1;
    }
    true
}

/// Tests whether some name of `terms` is in `flags`.
fn check_any(terms: &Vec<String>, flags: &FlagSet) -> (r: bool)
    ensures
        r == any_set(terms.deep_view(), flags@),
{
    let mut i: usize = 0;
    while i < terms.len()
        invariant
            i <= terms.len(),
            forall|j: int| 0 <= j < i ==> !flags@.contains(#[trigger] terms.deep_view()[j]),
        decreases terms.len() - i,
    {
        if flags.contains(terms[i].as_str()) {
            assert(flags@.contains(terms.deep_view()[i as int]));
            return true;
        }
        i += 1;
    }
    false
}

impl Condition {
    /// Evaluates the condition under `flags`, and records in `used_flags`
    /// every flag name that the condition mentions, whether it is set or not.
    pub fn evaluate(&self, flags: &FlagSet, used_flags: &mut FlagSet) -> (met: bool)
        ensures
            met == self@.holds(flags@),
            final(used_flags)@ == old(used_flags)@.union(self@.mentioned().to_set()),
            final(used_flags).entries() == add_all(old(used_flags).entries(), self@.mentioned()),
    {
        match self {
            Condition::Single(flag) => {
                used_flags.insert(flag.clone());
                flags.contains(flag.as_str())
            },
            Condition::And(terms) => {
                used_flags.extend(terms);
                check_all(terms, flags)
            },
            Condition::Or(terms) => {
                used_flags.extend(terms);
                check_any(terms, flags)
            },
        }
    }

    /// The flag names that the condition mentions.
    pub fn mentioned_flags(&self) -> (names: Vec<String>)
        ensures
            names.deep_view() == self@.mentioned(),
    {
        match self {
            Condition::Single(flag) => {
                let mut names: Vec<String> = Vec::new();
                names.push(flag.clone());
                names
            },
            Condition::And(terms) => copy_names(terms),
            Condition::Or(terms) => copy_names(terms),
        }
    }
}

/// A copy of `names`.
fn copy_names(names: &Vec<String>) -> (copy: Vec<String>)
    ensures
        copy.deep_view() == names.deep_view(),
{
    let mut copy: Vec<String> = Vec::new();
    let mut i: usize = 0;
    while i < names.len()
        invariant
            i <= names.len(),
            copy.deep_view() == names.deep_view().take(i as int),
        decreases names.len() - i,
    {
        let name = names[i].clone();
        copy.push(name);
        assert(names.deep_view().take(i + 1) =~= names.deep_view().take(i as int).push(name@));
        i += 1;
    }
    copy
}

/// The truth tables of the two-flag forms: a conjunction of `a` and `b` holds
/// exactly when both are set, a disjunction exactly when at least one is.
pub proof fn lemma_truth_tables(a: Seq<char>, b: Seq<char>, flags: Set<Seq<char>>)
    ensures
        ConditionView::And(seq![a, b]).holds(flags) <==> flags.contains(a) && flags.contains(b),
        ConditionView::Or(seq![a, b]).holds(flags) <==> flags.contains(a) || flags.contains(b),
        ConditionView::Single(a).holds(flags) <==> flags.contains(a),
{
}

/// A conjunction holds exactly when each of its flags is set, a disjunction
/// exactly when one of them is: stated over membership in the list.
pub proof fn lemma_holds_by_membership(terms: Seq<Seq<char>>, flags: Set<Seq<char>>)
    ensures
        ConditionView::And(terms).holds(flags) <==> terms.to_set().subset_of(flags),
        ConditionView::Or(terms).holds(flags) <==> !terms.to_set().disjoint(flags),
{
}

} // verus!
