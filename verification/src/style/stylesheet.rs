//! Stylesheets: rules that assign values to properties of selected entities.

use super::expression::{Expression, SpecExpr};
use super::selector::{Selector, SpecSelector};
use vstd::prelude::*;
use vstd::std_specs::convert::{IntoSpec, TryIntoSpec};

verus! {

/// Types that can be used as a key for style properties.
pub trait PropertyKey: Clone + Eq + std::fmt::Debug + std::hash::Hash {

}

impl<T: Clone + Eq + std::fmt::Debug + std::hash::Hash> PropertyKey for T {

}

/// [`PropertyKey`] that consists of raw string keys
/// for properties and fragment properties.
#[derive(Clone, PartialEq, Eq, Debug, Hash)]
pub enum RawPropertyKey {
    /// Property identified by a name.
    Property(String),
    /// Property identified by a quoted name.
    QuotedProperty(String),
    /// Property of a fragment.
    FragmentProperty(String, String),
}

/// A key that values can be assigned to in a style rule.
#[derive(Clone, PartialEq, Eq, Debug, Hash)]
pub enum StyleKey<K: PropertyKey = RawPropertyKey> {
    /// Assigns value to a property of the selected entity.
    Property(K),
    /// Assigns values to a cascade variable.
    Variable(String),
}

/// Single property or variable assignment entry.
#[derive(PartialEq, Eq, Debug)]
pub struct StyleClause<K: PropertyKey = RawPropertyKey> {
    /// Name of the property or variable to assign; entries of a rule with the
    /// same key are evaluated in declaration order.
    pub key: StyleKey<K>,
    /// Expression that evaluates to the value that is assigned.
    pub value: Expression,
}

/// Single stylesheet rule that assigns a series
/// of property and variable values to a selector.
#[derive(PartialEq, Eq, Debug)]
pub struct StyleRule<K: PropertyKey = RawPropertyKey> {
    /// Selector that determines what entities the rule applies to.
    pub selector: Selector,
    /// Properties assigned to each entity that matches.
    pub properties: Vec<StyleClause<K>>,
}

/// Full stylesheet, a sequence of style rules.
#[derive(PartialEq, Eq, Debug)]
pub struct Stylesheet<K: PropertyKey = RawPropertyKey>(pub Vec<StyleRule<K>>);

/// A key converted to another property key type, when the conversion succeeds.
pub open spec fn key_converted<K: PropertyKey + TryInto<L>, L: PropertyKey>(key: StyleKey<K>) -> Option<
    StyleKey<L>,
> {
    match key {
        StyleKey::Property(k) => match k.try_into_spec() {
            Ok(l) => Some(StyleKey::Property(l)),
            Err(_) => None,
        },
        StyleKey::Variable(v) => Some(StyleKey::Variable(v)),
    }
}

/// The clauses whose keys convert, converted, in their order.
pub open spec fn clauses_converted<K: PropertyKey + TryInto<L>, L: PropertyKey>(
    clauses: Seq<StyleClause<K>>,
) -> Seq<StyleClause<L>>
    decreases clauses.len(),
{
    if clauses.len() == 0 {
        seq![]
    } else {
        let rest = clauses_converted::<K, L>(clauses.drop_last());
        let last = clauses.last();
        match key_converted::<K, L>(last.key) {
            Some(k) => rest.push(StyleClause { key: k, value: last.value }),
            None => rest,
        }
    }
}

impl<K: PropertyKey> StyleKey<K> {
    /// Converts a style key to a different [`PropertyKey`].
    pub fn map_key<L: PropertyKey>(self) -> (r: StyleKey<L>) where K: Into<L>
        ensures
            K::obeys_into_spec() ==> r == match self {
                StyleKey::Property(k) => StyleKey::<L>::Property(k.into_spec()),
                StyleKey::Variable(v) => StyleKey::<L>::Variable(v),
            },
            self is Variable ==> r == StyleKey::<L>::Variable(self->Variable_0),
    {
        match self {
            StyleKey::Property(k) => StyleKey::Property(k.into()),
            StyleKey::Variable(v) => StyleKey::Variable(v),
        }
    }

    /// Attempts to convert a style key to a different [`PropertyKey`].
    pub fn try_map_key<L: PropertyKey>(self) -> (r: Result<StyleKey<L>, <K as TryInto<L>>::Error>) where
        K: TryInto<L>,

        ensures
            K::obeys_try_into_spec() ==> match self {
                StyleKey::Property(k) => match k.try_into_spec() {
                    Ok(l) => r == Ok::<StyleKey<L>, <K as TryInto<L>>::Error>(StyleKey::Property(l)),
                    Err(e) => r == Err::<StyleKey<L>, <K as TryInto<L>>::Error>(e),
                },
                StyleKey::Variable(v) => r == Ok::<StyleKey<L>, <K as TryInto<L>>::Error>(
                    StyleKey::Variable(v),
                ),
            },
            self is Variable ==> r == Ok::<StyleKey<L>, <K as TryInto<L>>::Error>(
                StyleKey::Variable(self->Variable_0),
            ),
    {
        match self {
            StyleKey::Property(k) => match k.try_into() {
                Ok(l) => Ok(StyleKey::Property(l)),
                Err(e) => Err(e),
            },
            StyleKey::Variable(v) => Ok(StyleKey::Variable(v)),
        }
    }
}

impl<K: PropertyKey> StyleClause<K> {
    /// Converts a style clause to a different [`PropertyKey`].
    pub fn map_key<L: PropertyKey>(self) -> (r: StyleClause<L>) where K: Into<L>
        ensures
            K::obeys_into_spec() ==> r.key == match self.key {
                StyleKey::Property(k) => StyleKey::<L>::Property(k.into_spec()),
                StyleKey::Variable(v) => StyleKey::<L>::Variable(v),
            },
            self.key is Variable ==> r.key == StyleKey::<L>::Variable(self.key->Variable_0),
            r.value == self.value,
    {
        StyleClause { key: self.key.map_key(), value: self.value }
    }

    /// Attempts to convert a style clause to a different [`PropertyKey`].
    pub fn try_map_key<L: PropertyKey>(self) -> (r: Result<StyleClause<L>, <K as TryInto<L>>::Error>) where
        K: TryInto<L>,

        ensures
            K::obeys_try_into_spec() ==> (r is Ok <==> key_converted::<K, L>(self.key) is Some),
            K::obeys_try_into_spec() ==> (r matches Ok(c) ==> Some(c.key) == key_converted::<K, L>(
                self.key,
            )),
            self.key is Variable ==> r is Ok,
            r matches Ok(c) ==> c.value == self.value,
    {
        match self.key.try_map_key() {
            Ok(key) => Ok(StyleClause { key, value: self.value }),
            Err(e) => Err(e),
        }
    }
}

impl<K: PropertyKey> StyleRule<K> {
    /// Converts a style rule to a different [`PropertyKey`].
    ///
    /// All properties whose keys cannot be converted are removed.
    pub fn map_key<L: PropertyKey>(self) -> (r: StyleRule<L>) where K: TryInto<L>
        ensures
            r.selector == self.selector,
            K::obeys_try_into_spec() ==> r.properties@ == clauses_converted::<K, L>(
                self.properties@,
            ),
    {
        let ghost original = self.properties@;
        let selector = self.selector;
        let mut remaining = self.properties;
        let mut properties: Vec<StyleClause<L>> = Vec::new();
        let mut i: usize = 0;
        assert(remaining@.len() == remaining.len());
        while remaining.len() > 0
            invariant
                remaining@ == original.skip(i as int),
                i <= original.len(),
                i + remaining.len() == original.len(),
                original.len() <= usize::MAX,
                K::obeys_try_into_spec() ==> properties@ == clauses_converted::<K, L>(
                    original.take(i as int),
                ),
            decreases remaining.len(),
        {
            let clause = remaining.remove(0);
            proof {
                assert(original.take(i + 1).drop_last() =~= original.take(i as int));
                assert(original.skip(i as int)[0] == original[i as int]);
                assert(original.skip(i + 1) =~= original.skip(i as int).drop_first());
            }
            match clause.try_map_key() {
                Ok(c) => {
                    properties.push(c);
                },
                Err(_) => {},
            }
            i = i + 1;
        }
        proof {
            assert(original.take(i as int) =~= original);
        }
        StyleRule { selector, properties }
    }
}

impl<K: PropertyKey> Default for StyleRule<K> {
    fn default() -> (r: Self)
        ensures
            r.selector.path.0@.len() == 0,
            !r.selector.selects_edge,
            r.selector.extra is None,
            r.properties@.len() == 0,
    {
        StyleRule { selector: Selector::default(), properties: Vec::new() }
    }
}

impl<K: PropertyKey> Stylesheet<K> {
    /// Converts a stylesheet to a different [`PropertyKey`].
    ///
    /// All properties whose keys cannot be converted are removed.
    pub fn map_key<L: PropertyKey>(self) -> (r: Stylesheet<L>) where K: TryInto<L>
        ensures
            r.0@.len() == self.0@.len(),
            forall|i: int|
                0 <= i < r.0@.len() ==> (#[trigger] r.0@[i]).selector == self.0@[i].selector,
            K::obeys_try_into_spec() ==> forall|i: int|
                0 <= i < r.0@.len() ==> (#[trigger] r.0@[i]).properties@ == clauses_converted::<
                    K,
                    L,
                >(self.0@[i].properties@),
    {
        let ghost original = self.0@;
        let mut remaining = self.0;
        let mut rules: Vec<StyleRule<L>> = Vec::new();
        let mut i: usize = 0;
        assert(remaining@.len() == remaining.len());
        while remaining.len() > 0
            invariant
                remaining@ == original.skip(i as int),
                i <= original.len(),
                i + remaining.len() == original.len(),
                original.len() <= usize::MAX,
                rules@.len() == i,
                forall|j: int| 0 <= j < i ==> (#[trigger] rules@[j]).selector == original[j].selector,
                K::obeys_try_into_spec() ==> forall|j: int|
                    0 <= j < i ==> (#[trigger] rules@[j]).properties@ == clauses_converted::<K, L>(
                        original[j].properties@,
                    ),
            decreases remaining.len(),
        {
            let rule = remaining.remove(0);
            proof {
                assert(original.skip(i as int)[0] == original[i as int]);
                assert(original.skip(i + 1) =~= original.skip(i as int).drop_first());
            }
            rules.push(rule.map_key());
            i = i + 1;
        }
        Stylesheet(rules)
    }
}

impl<K: PropertyKey> Default for Stylesheet<K> {
    fn default() -> (r: Self)
        ensures
            r.0@.len() == 0,
    {
        Stylesheet(Vec::new())
    }
}

// ------------------------------------------------------------------
// Models
// ------------------------------------------------------------------

/// Model of a [`StyleKey`] with raw property keys.
pub enum SpecStyleKey {
    Property(Seq<char>),
    QuotedProperty(Seq<char>),
    FragmentProperty(Seq<char>, Seq<char>),
    Variable(Seq<char>),
}

/// Model of a [`StyleClause`] with raw property keys.
pub struct SpecClause {
    pub key: SpecStyleKey,
    pub value: SpecExpr,
}

/// Model of a [`StyleRule`] with raw property keys.
pub struct SpecRule {
    pub selector: SpecSelector,
    pub properties: Seq<SpecClause>,
}

/// The model of a style key.
pub open spec fn key_view(k: StyleKey<RawPropertyKey>) -> SpecStyleKey {
    match k {
        StyleKey::Property(RawPropertyKey::Property(n)) => SpecStyleKey::Property(n@),
        StyleKey::Property(RawPropertyKey::QuotedProperty(n)) => SpecStyleKey::QuotedProperty(n@),
        StyleKey::Property(RawPropertyKey::FragmentProperty(f, n)) => SpecStyleKey::FragmentProperty(f@, n@),
        StyleKey::Variable(n) => SpecStyleKey::Variable(n@),
    }
}

/// The model of a style clause.
pub open spec fn clause_view(c: StyleClause<RawPropertyKey>) -> SpecClause {
    SpecClause { key: key_view(c.key), value: c.value@ }
}

/// The models of a sequence of clauses.
pub open spec fn clauses_view(s: Seq<StyleClause<RawPropertyKey>>) -> Seq<SpecClause> {
    s.map_values(|c: StyleClause<RawPropertyKey>| clause_view(c))
}

/// The model of a style rule.
pub open spec fn rule_view(r: StyleRule<RawPropertyKey>) -> SpecRule {
    SpecRule { selector: r.selector@, properties: clauses_view(r.properties@) }
}

/// The models of the rules of a stylesheet.
pub open spec fn sheet_view(s: Stylesheet<RawPropertyKey>) -> Seq<SpecRule> {
    s.0@.map_values(|r: StyleRule<RawPropertyKey>| rule_view(r))
}

} // verus!
