//! What a value needs from its caller: the keys of its variables and components, and a
//! count for each kind of plural.

use super::grammar::component_key;
use super::grammar::component_prefix;
use super::grammar::variable_key;
use super::grammar::variable_prefix;
use super::key::is_identifier;
use super::key::Key;
use super::parsed_value::ValueView;
use super::plural::PluralType;
use vstd::prelude::*;
use vstd::string::StrSliceExecFns;

verus! {

/// One thing that a value needs from its caller.
#[derive(Debug, Hash, PartialEq, Eq, Clone, Copy)]
pub enum InterpolateKey<'a> {
    /// The count that a plural of this kind is chosen by.
    Count(PluralType),
    /// The value of a variable.
    Variable(&'a Key),
    /// A component.
    Component(&'a Key),
}

/// An [`InterpolateKey`] as a mathematical value. Two keys are the same where these are
/// equal: the same kind of count, or the same kind of key with the same name.
pub enum KeyView {
    Count(PluralType),
    Variable(Seq<char>),
    Component(Seq<char>),
}

impl<'a> View for InterpolateKey<'a> {
    type V = KeyView;

    open spec fn view(&self) -> KeyView {
        match self {
            InterpolateKey::Count(plural_type) => KeyView::Count(*plural_type),
            InterpolateKey::Variable(key) => KeyView::Variable(key@),
            InterpolateKey::Component(key) => KeyView::Component(key@),
        }
    }
}

impl<'a> InterpolateKey<'a> {
    /// The key of a variable or of a component.
    pub fn as_key(self) -> (res: Option<&'a Key>)
        ensures
            res == match self {
                InterpolateKey::Variable(key) => Some(key),
                InterpolateKey::Component(key) => Some(key),
                InterpolateKey::Count(_) => None,
            },
    {
        match self {
            InterpolateKey::Variable(key) | InterpolateKey::Component(key) => Some(key),
            InterpolateKey::Count(_) => None,
        }
    }

    /// The name as the locale file writes it: that of a key without what was put before
    /// it, and `count` for a count.
    pub fn get_real_name(self) -> (res: &'a str)
        requires
            self@ matches KeyView::Variable(key) ==> variable_prefix().is_prefix_of(key),
            self@ matches KeyView::Component(key) ==> component_prefix().is_prefix_of(key),
        ensures
            match self@ {
                KeyView::Count(_) => res@ == "count"@,
                KeyView::Variable(key) => key == variable_key(res@),
                KeyView::Component(key) => key == component_key(res@),
            },
    {
        match self {
            InterpolateKey::Count(_) => "count",
            InterpolateKey::Variable(key) => {
                let name = key.name();
                let res = name.substring_char(4, name.unicode_len());
                assert(key@ =~= variable_key(res@));
                res
            },
            InterpolateKey::Component(key) => {
                let name = key.name();
                let res = name.substring_char(5, name.unicode_len());
                assert(key@ =~= component_key(res@));
                res
            },
        }
    }

    /// Whether two keys are the same.
    pub fn same_as(self, other: InterpolateKey<'_>) -> (res: bool)
        ensures
            res == (self@ == other@),
    {
        match (self, other) {
            (InterpolateKey::Count(a), InterpolateKey::Count(b)) => a == b,
            (InterpolateKey::Variable(a), InterpolateKey::Variable(b)) => a.same_as(b),
            (InterpolateKey::Component(a), InterpolateKey::Component(b)) => a.same_as(b),
            _ => false,
        }
    }
}

/// A set of keys. It holds each key once, in the order in which they came.
#[derive(Debug)]
pub struct KeySet<'a> {
    items: Vec<InterpolateKey<'a>>,
}

impl<'a> View for KeySet<'a> {
    type V = Set<KeyView>;

    closed spec fn view(&self) -> Set<KeyView> {
        self.items@.map_values(|key: InterpolateKey<'a>| key@).to_set()
    }
}

impl<'a> KeySet<'a> {
    #[verifier::type_invariant]
    spec fn holds_each_once(self) -> bool {
        self.items@.map_values(|key: InterpolateKey<'a>| key@).no_duplicates()
    }

    /// The set without a key.
    pub fn new() -> (res: Self)
        ensures
            res@ == Set::<KeyView>::empty(),
    {
        let res = KeySet { items: Vec::new() };
        assert(res@ =~= Set::<KeyView>::empty());
        res
    }

    /// How many keys the set holds.
    pub fn len(&self) -> (res: usize)
        ensures
            res == self@.len(),
            self@.finite(),
    {
        proof {
            use_type_invariant(self);
            self.items@.map_values(|key: InterpolateKey<'a>| key@).unique_seq_to_set();
        }
        self.items.len()
    }

    /// Whether the set holds `key`.
    pub fn contains(&self, key: InterpolateKey<'_>) -> (res: bool)
        ensures
            res == self@.contains(key@),
    {
        let ghost views = self.items@.map_values(|key: InterpolateKey<'a>| key@);
        let mut i: usize = 0;
        while i < self.items.len()
            invariant
                i <= self.items.len(),
                views == self.items@.map_values(|key: InterpolateKey<'a>| key@),
                forall|j: int| 0 <= j < i ==> views[j] != key@,
            decreases self.items.len() - i,
        {
            if self.items[i].same_as(key) {
                assert(views[i as int] == key@);
                return true;
            }
            i += 1;
        }
        false
    }

    /// The keys of the set, in the order in which they came.
    pub fn as_slice(&self) -> (res: &[InterpolateKey<'a>])
        ensures
            res@.map_values(|key: InterpolateKey<'a>| key@).to_set() == self@,
            res@.map_values(|key: InterpolateKey<'a>| key@).no_duplicates(),
    {
        proof {
            use_type_invariant(self);
        }
        self.items.as_slice()
    }

    /// Puts `key` into the set, and tells whether the set did not hold it before.
    pub fn insert(&mut self, key: InterpolateKey<'a>) -> (res: bool)
        ensures
            final(self)@ == old(self)@.insert(key@),
            res == !old(self)@.contains(key@),
    {
        proof {
            use_type_invariant(&*self);
        }
        if self.contains(key) {
            assert(self@.insert(key@) =~= self@);
            false
        } else {
            let ghost before = self.items@.map_values(|key: InterpolateKey<'a>| key@);
            let mut taken = KeySet::new();
            core::mem::swap(self, &mut taken);
            let mut items = taken.items;
            items.push(key);
            proof {
                let after = items@.map_values(|key: InterpolateKey<'a>| key@);
                assert(after =~= before.push(key@));
                assert(after.to_set() =~= before.to_set().insert(key@)) by {
                    assert forall|k: KeyView| after.to_set().contains(k) implies before.to_set().insert(
                        key@,
                    ).contains(k) by {
                        let i = choose|i: int| 0 <= i < after.len() && after[i] == k;
                        if i < before.len() {
                            assert(before[i] == k);
                        }
                    }
                    assert forall|k: KeyView|
                        before.to_set().insert(key@).contains(k) implies after.to_set().contains(
                        k,
                    ) by {
                        if k == key@ {
                            assert(after[before.len() as int] == k);
                        } else {
                            let i = choose|i: int| 0 <= i < before.len() && before[i] == k;
                            assert(after[i] == k);
                        }
                    }
                }
            }
            *self = KeySet { items };
            true
        }
    }
}

impl ValueView {
    /// The keys that the value needs: one for each variable and each component in it, and
    /// for each plural in it the count of its kind.
    pub open spec fn keys(self) -> Set<KeyView>
        decreases self, 0int,
    {
        match self {
            ValueView::Literal(_) => Set::empty(),
            ValueView::Variable(key) => set![KeyView::Variable(key)],
            ValueView::Component { key, inner } => inner.keys().insert(KeyView::Component(key)),
            ValueView::Bloc(values) => keys_among(values, values.len() as int),
            ValueView::Plural(plurals) => plurals.keys(),
        }
    }
}

/// The keys that the first `n` of `values` need: a key is needed where one of them needs it.
pub open spec fn keys_among(values: Seq<ValueView>, n: int) -> Set<KeyView>
    decreases values, 0int,
{
    Set::new(
        |k: KeyView|
            exists|i: int|
                0 <= i < n && i < values.len() && (#[trigger] values[i]).keys().contains(k),
    )
}

/// The keys that a set which may be missing holds.
pub open spec fn held_keys(keys: Option<KeySet<'_>>) -> Set<KeyView> {
    match keys {
        Some(set) => set@,
        None => Set::empty(),
    }
}

/// Puts `key` into `keys`, and makes the set where it is missing.
pub fn insert_key<'a>(keys: &mut Option<KeySet<'a>>, key: InterpolateKey<'a>)
    ensures
        (*final(keys)) is Some,
        held_keys(*final(keys)) == held_keys(*old(keys)).insert(key@),
{
    let mut set = match keys.take() {
        Some(set) => set,
        None => KeySet::new(),
    };
    set.insert(key);
    *keys = Some(set);
}

/// Two sets are both empty where their union is.
pub proof fn lemma_union_empty(a: Set<KeyView>, b: Set<KeyView>)
    ensures
        a.union(b) == Set::<KeyView>::empty() <==> a == Set::<KeyView>::empty() && b == Set::<
            KeyView,
        >::empty(),
{
    if a.union(b) == Set::<KeyView>::empty() {
        assert forall|k: KeyView| !a.contains(k) && !b.contains(k) by {
            assert(!a.union(b).contains(k));
        }
        assert(a =~= Set::<KeyView>::empty());
        assert(b =~= Set::<KeyView>::empty());
    }
    if a == Set::<KeyView>::empty() && b == Set::<KeyView>::empty() {
        assert(a.union(b) =~= Set::<KeyView>::empty());
    }
}

/// None of the values need no keys, and one value more needs its own keys more.
pub proof fn lemma_keys_among(values: Seq<ValueView>, n: int)
    requires
        0 <= n < values.len(),
    ensures
        keys_among(values, 0) == Set::<KeyView>::empty(),
        keys_among(values, n + 1) == keys_among(values, n).union(values[n].keys()),
{
    assert(keys_among(values, 0) =~= Set::<KeyView>::empty());
    assert(keys_among(values, n + 1) =~= keys_among(values, n).union(values[n].keys()));
}

/// Values shown one after the other need a key where one of them needs it.
pub proof fn lemma_bloc_keys(values: Seq<ValueView>)
    ensures
        forall|k: KeyView|
            ValueView::Bloc(values).keys().contains(k) <==> exists|i: int|
                0 <= i < values.len() && (#[trigger] values[i]).keys().contains(k),
{
    assert(ValueView::Bloc(values).keys() == keys_among(values, values.len() as int));
    assert forall|k: KeyView|
        ValueView::Bloc(values).keys().contains(k) <==> exists|i: int|
            0 <= i < values.len() && (#[trigger] values[i]).keys().contains(k) by {
        if keys_among(values, values.len() as int).contains(k) {
            let i = choose|i: int|
                0 <= i < values.len() && i < values.len() && (#[trigger] values[i]).keys().contains(
                    k,
                );
            assert(values[i].keys().contains(k));
        }
    }
}

/// A component needs its own key and every key that the value inside it needs.
pub proof fn lemma_component_keys(key: Seq<char>, inner: ValueView)
    ensures
        (ValueView::Component { key, inner: Box::new(inner) }).keys().contains(
            KeyView::Component(key),
        ),
        inner.keys().subset_of((ValueView::Component { key, inner: Box::new(inner) }).keys()),
{
}

/// To collect the keys of a value twice is to collect them once, and the keys of two values
/// are the same set in whichever order they are collected.
pub proof fn lemma_collect_order(held: Set<KeyView>, a: ValueView, b: ValueView)
    ensures
        held.union(a.keys()).union(a.keys()) == held.union(a.keys()),
        held.union(a.keys()).union(b.keys()) == held.union(b.keys()).union(a.keys()),
{
    assert(held.union(a.keys()).union(a.keys()) =~= held.union(a.keys()));
    assert(held.union(a.keys()).union(b.keys()) =~= held.union(b.keys()).union(a.keys()));
}

/// Values shown one after the other need the same keys in whichever order they stand.
pub proof fn lemma_bloc_order(a: Seq<ValueView>, b: Seq<ValueView>)
    requires
        a.to_set() == b.to_set(),
    ensures
        ValueView::Bloc(a).keys() == ValueView::Bloc(b).keys(),
{
    lemma_bloc_keys(a);
    lemma_bloc_keys(b);
    assert forall|k: KeyView| ValueView::Bloc(a).keys().contains(k) implies ValueView::Bloc(
        b,
    ).keys().contains(k) by {
        let i = choose|i: int| 0 <= i < a.len() && (#[trigger] a[i]).keys().contains(k);
        assert(a.to_set().contains(a[i]));
        assert(b.contains(a[i]));
        let j = choose|j: int| 0 <= j < b.len() && b[j] == a[i];
        assert(b[j].keys().contains(k));
    }
    assert forall|k: KeyView| ValueView::Bloc(b).keys().contains(k) implies ValueView::Bloc(
        a,
    ).keys().contains(k) by {
        let i = choose|i: int| 0 <= i < b.len() && (#[trigger] b[i]).keys().contains(k);
        assert(b.to_set().contains(b[i]));
        assert(a.contains(b[i]));
        let j = choose|j: int| 0 <= j < a.len() && a[j] == b[i];
        assert(a[j].keys().contains(k));
    }
    assert(ValueView::Bloc(a).keys() =~= ValueView::Bloc(b).keys());
}

/// The keys that a value of the shape of [`ValueView::is_parsed`] needs are keys of
/// variables and of components, with names that are identifiers and start as the keys of
/// their kind do.
pub proof fn lemma_parsed_keys(value: ValueView, k: KeyView)
    requires
        value.is_parsed(),
        value.keys().contains(k),
    ensures
        match k {
            KeyView::Variable(key) => is_identifier(key) && variable_prefix().is_prefix_of(key),
            KeyView::Component(key) => is_identifier(key) && component_prefix().is_prefix_of(key),
            KeyView::Count(_) => false,
        },
    decreases value,
{
    match value {
        ValueView::Component { key, inner } => {
            if k != KeyView::Component(key) {
                lemma_parsed_keys(*inner, k);
            }
        },
        ValueView::Bloc(values) => {
            lemma_bloc_keys(values);
            let i = choose|i: int| 0 <= i < values.len() && (#[trigger] values[i]).keys().contains(k);
            lemma_parsed_keys(values[i], k);
        },
        _ => {},
    }
}

} // verus!
