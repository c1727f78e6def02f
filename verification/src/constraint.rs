//! The constraint algebra over property maps.

use vstd::prelude::*;

use crate::property::{prop_eq, prop_in_int_range, prop_in_real_range, Property, PropertyMap};

verus! {

/// An algebraic predicate over a property map, parameterized by a property
/// name.  Range constraints are half-open `[lo, hi)` and apply only to the
/// matching numeric tag; a constraint against a missing property is false,
/// except `HasNot`, which is then true.
#[derive(Debug, Clone)]
pub enum Constraint {
    Has(String),
    HasNot(String),
    Equals(String, Property),
    IsInRange(String, i64, i64),
    IsInRangeFloat(String, u64, u64),
}

/// The satisfaction table of the constraint algebra.
pub open spec fn constraint_sat(c: Constraint, m: Map<Seq<char>, Property>) -> bool {
    match c {
        Constraint::Has(n) => m.contains_key(n@),
        Constraint::HasNot(n) => !m.contains_key(n@),
        Constraint::Equals(n, v) => m.contains_key(n@) && prop_eq(v, m[n@]),
        Constraint::IsInRange(n, lo, hi) => m.contains_key(n@) && prop_in_int_range(m[n@], lo, hi),
        Constraint::IsInRangeFloat(n, lo, hi) => m.contains_key(n@) && prop_in_real_range(
            m[n@],
            lo,
            hi,
        ),
    }
}

/// Satisfaction of every constraint in a list.
pub open spec fn constraints_sat(cs: Seq<Constraint>, m: Map<Seq<char>, Property>) -> bool {
    forall|i: int| 0 <= i < cs.len() ==> constraint_sat(#[trigger] cs[i], m)
}

impl Constraint {
    /// Require a property to be present.
    pub fn has(property_name: &str) -> (r: Constraint)
        ensures
            (r matches Constraint::Has(n) && n@ == property_name@),
    {
        Constraint::Has(property_name.to_owned())
    }

    /// Require a property to be absent.
    pub fn has_not(property_name: &str) -> (r: Constraint)
        ensures
            (r matches Constraint::HasNot(n) && n@ == property_name@),
    {
        Constraint::HasNot(property_name.to_owned())
    }

    /// Require a property to equal a value.
    pub fn equals(property_name: &str, to: Property) -> (r: Constraint)
        ensures
            (r matches Constraint::Equals(n, v) && n@ == property_name@ && v == to),
    {
        Constraint::Equals(property_name.to_owned(), to)
    }

    /// Require an integer property in the half-open range `[lo, hi)`.
    pub fn is_in_range(property_name: &str, lo: i64, hi: i64) -> (r: Constraint)
        ensures
            (r matches Constraint::IsInRange(n, l, h) && n@ == property_name@ && l == lo && h
                == hi),
    {
        Constraint::IsInRange(property_name.to_owned(), lo, hi)
    }

    /// Require a real property in the half-open range `[lo, hi)`; the bounds
    /// are IEEE-754 bit patterns.
    pub fn is_in_range_float(property_name: &str, lo: u64, hi: u64) -> (r: Constraint)
        ensures
            (r matches Constraint::IsInRangeFloat(n, l, h) && n@ == property_name@ && l == lo && h
                == hi),
    {
        Constraint::IsInRangeFloat(property_name.to_owned(), lo, hi)
    }

    /// Evaluate this constraint against a property map.
    pub fn is_satisfied_by(&self, properties: &PropertyMap) -> (r: bool)
        ensures
            r == constraint_sat(*self, properties@),
    {
        match self {
            Constraint::Has(n) => properties.contains(n.as_str()),
            Constraint::HasNot(n) => !properties.contains(n.as_str()),
            Constraint::Equals(n, v) => match properties.get(n.as_str()) {
                Some(p) => v.same_value(p),
                None => false,
            },
            Constraint::IsInRange(n, lo, hi) => match properties.get(n.as_str()) {
                Some(p) => p.is_in_range(*lo, *hi),
                None => false,
            },
            Constraint::IsInRangeFloat(n, lo, hi) => match properties.get(n.as_str()) {
                Some(p) => p.is_in_range_float(*lo, *hi),
                None => false,
            },
        }
    }
}

/// A named relation constraint between two aliases, evaluated against the
/// property map stored for the directed pair of the entities they are bound
/// to; an absent pair contributes an empty map.
#[derive(Debug, Clone)]
pub struct AliasRelation {
    pub me: String,
    pub other: String,
    pub constraints: Vec<Constraint>,
}

impl AliasRelation {
    /// A relation constraint from `me` to `other`.
    pub fn new(me: &str, other: &str, constraints: Vec<Constraint>) -> (r: AliasRelation)
        ensures
            r.me@ == me@,
            r.other@ == other@,
            r.constraints == constraints,
    {
        AliasRelation { me: me.to_owned(), other: other.to_owned(), constraints }
    }

    /// Do all constraints of this relation hold on a property map?
    pub fn is_satisfied_by(&self, properties: &PropertyMap) -> (r: bool)
        ensures
            r == constraints_sat(self.constraints@, properties@),
    {
        let n = self.constraints.len();
        let mut i: usize = 0;
        while i < n
            invariant
                i <= n == self.constraints@.len(),
                forall|j: int|
                    0 <= j < i ==> constraint_sat(#[trigger] self.constraints@[j], properties@),
            decreases n - i,
        {
            if !self.constraints[i].is_satisfied_by(properties) {
                return false;
            }
            i = i + 1;
        }
        true
    }
}

} // verus!

verus! {

/// Law: an integer range constraint is satisfied exactly when the stored
/// integer lies in the half-open range `[lo, hi)`.
pub proof fn law_int_range_boundary(
    c: Constraint,
    m: Map<Seq<char>, Property>,
    n: Seq<char>,
    lo: i64,
    hi: i64,
    v: i64,
)
    requires
        (c matches Constraint::IsInRange(cn, clo, chi) && cn@ == n && clo == lo && chi == hi),
        m.contains_key(n),
        m[n] == Property::Int(v),
    ensures
        constraint_sat(c, m) <==> lo <= v < hi,
        v == hi ==> !constraint_sat(c, m),
{
}

/// Law: a real range constraint is satisfied exactly when the stored real
/// compares `lo <= v < hi` under IEEE-754 rules; the high bound itself is
/// never satisfied.
pub proof fn law_real_range_boundary(
    c: Constraint,
    m: Map<Seq<char>, Property>,
    n: Seq<char>,
    lo: u64,
    hi: u64,
    v: u64,
)
    requires
        (c matches Constraint::IsInRangeFloat(cn, clo, chi) && cn@ == n && clo == lo && chi
            == hi),
        m.contains_key(n),
        m[n] == Property::Real(v),
    ensures
        constraint_sat(c, m) <==> crate::property::real_le(lo, v) && crate::property::real_lt(
            v,
            hi,
        ),
        v == hi ==> !constraint_sat(c, m),
{
}

/// Law: range constraints never match across numeric tags: an integer
/// range on a real is false, and a real range on an integer is false.
pub proof fn law_cross_tag_ranges(
    ci: Constraint,
    cf: Constraint,
    m: Map<Seq<char>, Property>,
    n: Seq<char>,
)
    requires
        m.contains_key(n),
        (ci matches Constraint::IsInRange(cn, _, _) && cn@ == n),
        (cf matches Constraint::IsInRangeFloat(cn, _, _) && cn@ == n),
    ensures
        (m[n] matches Property::Real(_)) ==> !constraint_sat(ci, m),
        (m[n] matches Property::Int(_)) ==> !constraint_sat(cf, m),
{
}

/// Law: `HasNot` holds against the empty property map.
pub proof fn law_has_not_empty(c: Constraint)
    requires
        c is HasNot,
    ensures
        constraint_sat(c, Map::empty()),
{
}

} // verus!
