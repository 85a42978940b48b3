//! Plurals: a locale entry that offers several texts, one of which is chosen by a count.
//!
//! Each text is a branch, and each branch has a selector: the counts it is for, or the
//! fallback, which is for every other count. The fallback may only be the last branch, and a
//! plural whose count can have a fraction must have one.

use super::interpolate::held_keys;
use super::interpolate::KeySet;
use super::interpolate::KeyView;
use super::interpolate::lemma_union_empty;
use super::parsed_value::ParsedValue;
use super::parsed_value::ValueView;
use super::text::str_eq;
use vstd::prelude::*;

verus! {

/// The kind of number that a plural is chosen by: a whole number with a sign (`I`) or
/// without (`U`), or a number with a fraction (`F`), and the bits it takes.
#[derive(Debug, Clone, Copy, PartialEq, Eq, Hash, Structural)]
pub enum PluralType {
    I8,
    I16,
    I32,
    I64,
    U8,
    U16,
    U32,
    U64,
    F32,
    F64,
}

/// What selects a branch of a plural.
#[derive(Debug, PartialEq, Eq)]
pub enum PluralForm {
    /// The counts that the branch is for, as the locale file writes them. Nothing here
    /// reads the text.
    Category(String),
    /// The branch for every count that no other branch is for.
    Fallback,
}

/// One branch of a plural.
#[derive(Debug, PartialEq)]
pub struct PluralBranch {
    pub form: PluralForm,
    pub value: ParsedValue,
}

/// The branches of a plural, in the order of the locale file, and the kind of its count.
#[derive(Debug, PartialEq)]
pub struct Plurals {
    pub plural_type: PluralType,
    pub branches: Vec<PluralBranch>,
}

/// A [`PluralForm`] as a mathematical value.
pub enum FormView {
    Category(Seq<char>),
    Fallback,
}

/// A [`PluralBranch`] as a mathematical value.
pub struct BranchView {
    pub form: FormView,
    pub value: ValueView,
}

/// A [`Plurals`] as a mathematical value.
pub struct PluralsView {
    pub plural_type: PluralType,
    pub branches: Seq<BranchView>,
}

impl View for PluralForm {
    type V = FormView;

    open spec fn view(&self) -> FormView {
        match self {
            PluralForm::Category(text) => FormView::Category(text@),
            PluralForm::Fallback => FormView::Fallback,
        }
    }
}

/// What a selector means as the locale file writes it: `_` is the fallback, and any other
/// text stands for counts.
pub open spec fn form_of(selector: Seq<char>) -> FormView {
    if selector == "_"@ {
        FormView::Fallback
    } else {
        FormView::Category(selector)
    }
}

/// How many of the branches are fallbacks.
pub open spec fn count_fallbacks(branches: Seq<BranchView>) -> nat
    decreases branches.len(),
{
    if branches.len() == 0 {
        0
    } else if branches.last().form is Fallback {
        count_fallbacks(branches.drop_last()) + 1
    } else {
        count_fallbacks(branches.drop_last())
    }
}

/// What is wrong with the fallbacks of a plural.
#[derive(Debug, Clone, Copy, PartialEq, Eq, Structural)]
pub enum FallbackFault {
    /// A fallback stands before the last branch.
    Misplaced,
    /// There is more than one fallback.
    Multiple,
    /// There is no fallback, and the kind of count asks for one.
    Missing,
}

/// The fault that three findings about a plural amount to: whether a fallback stands before
/// the last branch, how many fallbacks there are, and whether the kind of count asks for
/// one. The first that applies is the fault.
pub open spec fn fault_of(
    invalid_fallback: bool,
    fallback_count: nat,
    should_have_fallback: bool,
) -> Option<FallbackFault> {
    if invalid_fallback {
        Some(FallbackFault::Misplaced)
    } else if fallback_count > 1 {
        Some(FallbackFault::Multiple)
    } else if fallback_count == 0 && should_have_fallback {
        Some(FallbackFault::Missing)
    } else {
        None
    }
}

/// The name of a kind of count, as messages write it.
pub open spec fn kind_name(plural_type: PluralType) -> Seq<char> {
    match plural_type {
        PluralType::I8 => "I8"@,
        PluralType::I16 => "I16"@,
        PluralType::I32 => "I32"@,
        PluralType::I64 => "I64"@,
        PluralType::U8 => "U8"@,
        PluralType::U16 => "U16"@,
        PluralType::U32 => "U32"@,
        PluralType::U64 => "U64"@,
        PluralType::F32 => "F32"@,
        PluralType::F64 => "F64"@,
    }
}

impl PluralType {
    /// The name of the kind, as messages write it.
    pub fn name(self) -> (res: &'static str)
        ensures
            res@ == kind_name(self),
    {
        match self {
            PluralType::I8 => "I8",
            PluralType::I16 => "I16",
            PluralType::I32 => "I32",
            PluralType::I64 => "I64",
            PluralType::U8 => "U8",
            PluralType::U16 => "U16",
            PluralType::U32 => "U32",
            PluralType::U64 => "U64",
            PluralType::F32 => "F32",
            PluralType::F64 => "F64",
        }
    }

    /// Whether a plural of this kind must end with a fallback. The branches of a count with
    /// a fraction can never name every count. Those of a whole number can, and whether they
    /// do is left to whoever matches the count against them.
    pub open spec fn requires_fallback(self) -> bool {
        self is F32 || self is F64
    }

    /// Whether a plural of this kind must end with a fallback.
    pub fn should_have_fallback(self) -> (res: bool)
        ensures
            res == self.requires_fallback(),
    {
        match self {
            PluralType::F32 | PluralType::F64 => true,
            _ => false,
        }
    }
}

impl PluralsView {
    /// The keys that the branches need.
    pub open spec fn branch_keys(self) -> Set<KeyView>
        decreases self, 1int,
    {
        branch_keys_among(self.branches, self.branches.len() as int)
    }

    /// Whether a fallback stands before the last branch.
    pub open spec fn invalid_fallback(self) -> bool {
        exists|i: int| 0 <= i < self.branches.len() - 1 && (#[trigger] self.branches[i]).form is Fallback
    }

    /// How many fallbacks there are.
    pub open spec fn fallback_count(self) -> nat {
        count_fallbacks(self.branches)
    }

    /// What is wrong with the fallbacks, if anything is.
    pub open spec fn fault(self) -> Option<FallbackFault> {
        fault_of(
            self.invalid_fallback(),
            self.fallback_count(),
            self.plural_type.requires_fallback(),
        )
    }

    /// The keys that the plural needs: those of its branches, and the count.
    pub open spec fn keys(self) -> Set<KeyView>
        decreases self, 2int,
    {
        self.branch_keys().insert(KeyView::Count(self.plural_type))
    }
}

/// The keys that the first `n` of `branches` need: a key is needed where one of them needs
/// it.
pub open spec fn branch_keys_among(branches: Seq<BranchView>, n: int) -> Set<KeyView>
    decreases branches, 0int,
{
    Set::new(
        |k: KeyView|
            exists|i: int|
                0 <= i < n && i < branches.len() && (#[trigger] branches[i]).value.keys().contains(k),
    )
}

/// None of the branches need no keys, and one branch more needs its own keys more.
pub proof fn lemma_branch_keys_among(branches: Seq<BranchView>, n: int)
    requires
        0 <= n < branches.len(),
    ensures
        branch_keys_among(branches, 0) == Set::<KeyView>::empty(),
        branch_keys_among(branches, n + 1) == branch_keys_among(branches, n).union(
            branches[n].value.keys(),
        ),
{
    assert(branch_keys_among(branches, 0) =~= Set::<KeyView>::empty());
    assert(branch_keys_among(branches, n + 1) =~= branch_keys_among(branches, n).union(
        branches[n].value.keys(),
    ));
}

impl Plurals {
    /// The plural without its representation.
    pub open spec fn view(&self) -> PluralsView
        decreases self,
    {
        PluralsView {
            plural_type: self.plural_type,
            branches: Seq::new(
                self.branches.len() as nat,
                |i: int|
                    if 0 <= i < self.branches.len() {
                        BranchView {
                            form: self.branches[i].form@,
                            value: self.branches[i].value.view(),
                        }
                    } else {
                        arbitrary()
                    },
            ),
        }
    }

    /// The kind of number that the plural is chosen by.
    pub fn get_type(&self) -> (res: PluralType)
        ensures
            res == self@.plural_type,
    {
        self.plural_type
    }

    /// Three findings about the fallbacks: whether one stands before the last branch, how
    /// many there are, and whether the kind of count asks for one.
    pub fn check_deserialization(&self) -> (res: (bool, usize, bool))
        ensures
            res.0 == self@.invalid_fallback(),
            res.1 == self@.fallback_count(),
            res.2 == self@.plural_type.requires_fallback(),
    {
        let ghost branches = self@.branches;
        let mut invalid_fallback = false;
        let mut fallback_count: usize = 0;
        let mut i: usize = 0;
        while i < self.branches.len()
            invariant
                i <= self.branches.len(),
                branches == self@.branches,
                fallback_count == count_fallbacks(branches.take(i as int)),
                fallback_count <= i,
                invalid_fallback <==> exists|j: int|
                    0 <= j < i && j < branches.len() - 1 && (#[trigger] branches[j]).form is Fallback,
            decreases self.branches.len() - i,
        {
            proof {
                assert(branches.take(i + 1).drop_last() =~= branches.take(i as int));
                assert(branches[i as int].form == self.branches[i as int].form@);
            }
            if self.branches[i].form.is_fallback() {
                fallback_count += 1;
                if i + 1 < self.branches.len() {
                    invalid_fallback = true;
                }
            }
            i += 1;
        }
        proof {
            assert(branches.take(i as int) =~= branches);
        }
        (invalid_fallback, fallback_count, self.plural_type.should_have_fallback())
    }

    /// Adds to `keys` the keys that the branches need.
    pub fn get_keys_inner<'a>(&'a self, keys: &mut Option<KeySet<'a>>)
        ensures
            held_keys(*final(keys)) == held_keys(*old(keys)).union(self@.branch_keys()),
            (*final(keys)) is None <==> (*old(keys)) is None && self@.branch_keys() == Set::<
                KeyView,
            >::empty(),
        decreases self,
    {
        let ghost branches = self@.branches;
        let mut i: usize = 0;
        proof {
            assert(branch_keys_among(branches, 0) =~= Set::<KeyView>::empty());
            assert(held_keys(*keys).union(branch_keys_among(branches, 0)) =~= held_keys(*keys));
        }
        while i < self.branches.len()
            invariant
                i <= self.branches.len(),
                branches == self@.branches,
                held_keys(*keys) == held_keys(*old(keys)).union(
                    branch_keys_among(branches, i as int),
                ),
                (*keys) is None <==> (*old(keys)) is None && branch_keys_among(branches, i as int)
                    == Set::<KeyView>::empty(),
            decreases self.branches.len() - i,
        {
            self.branches[i].value.get_keys_inner(keys);
            proof {
                assert(branches[i as int].value == self.branches[i as int].value.view());
                lemma_branch_keys_among(branches, i as int);
                lemma_union_empty(
                    branch_keys_among(branches, i as int),
                    branches[i as int].value.keys(),
                );
                assert(held_keys(*keys) =~= held_keys(*old(keys)).union(
                    branch_keys_among(branches, i + 1),
                ));
            }
            i += 1;
        }
    }
}

impl PluralForm {
    /// Reads a selector as the locale file writes it.
    pub fn new(selector: &str) -> (res: Self)
        ensures
            res@ == form_of(selector@),
    {
        if str_eq(selector, "_") {
            PluralForm::Fallback
        } else {
            PluralForm::Category(selector.to_owned())
        }
    }

    /// Whether this selects the fallback.
    pub fn is_fallback(&self) -> (res: bool)
        ensures
            res == (self@ is Fallback),
    {
        match self {
            PluralForm::Fallback => true,
            PluralForm::Category(_) => false,
        }
    }
}

/// Decides on the findings of [`Plurals::check_deserialization`].
pub fn judge_fallbacks(
    invalid_fallback: bool,
    fallback_count: usize,
    should_have_fallback: bool,
) -> (res: Option<FallbackFault>)
    ensures
        res == fault_of(invalid_fallback, fallback_count as nat, should_have_fallback),
{
    if invalid_fallback {
        Some(FallbackFault::Misplaced)
    } else if fallback_count > 1 {
        Some(FallbackFault::Multiple)
    } else if fallback_count == 0 && should_have_fallback {
        Some(FallbackFault::Missing)
    } else {
        None
    }
}

impl Clone for PluralForm {
    fn clone(&self) -> (res: Self)
        ensures
            res@ == self@,
    {
        match self {
            PluralForm::Category(text) => PluralForm::Category(text.clone()),
            PluralForm::Fallback => PluralForm::Fallback,
        }
    }
}

impl Clone for Plurals {
    fn clone(&self) -> (res: Self)
        ensures
            res@ == self@,
        decreases self,
    {
        let mut branches: Vec<PluralBranch> = Vec::new();
        let mut i: usize = 0;
        while i < self.branches.len()
            invariant
                i <= self.branches.len(),
                branches.len() == i,
                forall|j: int|
                    0 <= j < i ==> (#[trigger] branches[j]).form@ == self.branches[j].form@
                        && branches[j].value.view() == self.branches[j].value.view(),
            decreases self.branches.len() - i,
        {
            let branch = &self.branches[i];
            branches.push(PluralBranch { form: branch.form.clone(), value: branch.value.clone() });
            i += 1;
        }
        let res = Plurals { plural_type: self.plural_type, branches };
        assert(res@.branches =~= self@.branches);
        res
    }
}

/// Branches without a fallback count none.
pub proof fn lemma_count_none(branches: Seq<BranchView>)
    requires
        forall|i: int| 0 <= i < branches.len() ==> !((#[trigger] branches[i]).form is Fallback),
    ensures
        count_fallbacks(branches) == 0,
    decreases branches.len(),
{
    if branches.len() > 0 {
        let rest = branches.drop_last();
        assert forall|i: int| 0 <= i < rest.len() implies !((#[trigger] rest[i]).form is Fallback) by {
            assert(rest[i] == branches[i]);
        }
        lemma_count_none(rest);
    }
}

/// Branches with a fallback count at least one.
pub proof fn lemma_count_some(branches: Seq<BranchView>, i: int)
    requires
        0 <= i < branches.len(),
        branches[i].form is Fallback,
    ensures
        count_fallbacks(branches) >= 1,
    decreases branches.len(),
{
    if i < branches.len() - 1 {
        let rest = branches.drop_last();
        assert(rest[i] == branches[i]);
        lemma_count_some(rest, i);
    }
}

/// The rules on fallbacks. A plural is refused where a fallback stands before the last
/// branch, which is so wherever there are two fallbacks, and where it has no fallback though
/// the kind of its count asks for one. Every other plural is accepted: one without a
/// fallback whose kind asks for none, and one whose only fallback is its last branch.
pub proof fn lemma_fallback_rules(plurals: PluralsView)
    ensures
        plurals.invalid_fallback() ==> plurals.fault() == Some(FallbackFault::Misplaced),
        plurals.fallback_count() >= 2 ==> plurals.fault() == Some(FallbackFault::Misplaced),
        plurals.fallback_count() == 0 <==> forall|i: int|
            0 <= i < plurals.branches.len() ==> !((#[trigger] plurals.branches[i]).form is Fallback),
        plurals.fallback_count() == 0 && plurals.plural_type.requires_fallback()
            ==> plurals.fault() == Some(FallbackFault::Missing),
        plurals.fallback_count() == 0 && !plurals.plural_type.requires_fallback()
            ==> plurals.fault() is None,
        plurals.fallback_count() == 1 && !plurals.invalid_fallback() ==> plurals.fault() is None
            && plurals.branches.last().form is Fallback,
        plurals.fault() != Some(FallbackFault::Multiple),
{
    let branches = plurals.branches;
    if forall|i: int| 0 <= i < branches.len() ==> !((#[trigger] branches[i]).form is Fallback) {
        lemma_count_none(branches);
    } else {
        let i = choose|i: int| 0 <= i < branches.len() && (#[trigger] branches[i]).form is Fallback;
        lemma_count_some(branches, i);
    }
    if branches.len() > 0 && !plurals.invalid_fallback() {
        let rest = branches.drop_last();
        assert forall|i: int| 0 <= i < rest.len() implies !((#[trigger] rest[i]).form is Fallback) by {
            assert(rest[i] == branches[i]);
        }
        lemma_count_none(rest);
    }
}

} // verus!
