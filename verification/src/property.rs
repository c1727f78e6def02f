//! Tagged scalar values stored in property maps.
//!
//! A property is a string, a 64-bit signed integer, or a 64-bit real.  A
//! real is held as the bit pattern of an IEEE-754 double so that every
//! comparison the engine performs on reals is defined, bit for bit, inside
//! the library; equality and the half-open range tests below follow the
//! IEEE-754 rules (`NaN` compares false with everything, the two zeros are
//! equal).

use vstd::prelude::*;

verus! {

/// Sign bit of an IEEE-754 double.
pub const REAL_SIGN: u64 = 0x8000_0000_0000_0000;

/// Exponent mask of an IEEE-754 double; magnitudes above it are NaN.
pub const REAL_EXP: u64 = 0x7ff0_0000_0000_0000;

/// Magnitude of a real: its bits with the sign bit cleared.
pub open spec fn real_abs(bits: u64) -> u64 {
    if bits >= REAL_SIGN {
        (bits - REAL_SIGN) as u64
    } else {
        bits
    }
}

/// A real is NaN when its exponent is all ones and its fraction is not zero.
pub open spec fn real_is_nan(bits: u64) -> bool {
    real_abs(bits) > REAL_EXP
}

/// Order key of a non-NaN real: magnitude, negated for negative values.
/// Both zeros map to 0; the key is strictly monotone in the real's value.
pub open spec fn real_key(bits: u64) -> int {
    if bits >= REAL_SIGN {
        -(real_abs(bits) as int)
    } else {
        real_abs(bits) as int
    }
}

/// IEEE-754 equality on bit patterns: false whenever either side is NaN.
pub open spec fn real_eq(a: u64, b: u64) -> bool {
    &&& !real_is_nan(a)
    &&& !real_is_nan(b)
    &&& real_key(a) == real_key(b)
}

/// IEEE-754 strict order on bit patterns: false whenever either side is NaN.
pub open spec fn real_lt(a: u64, b: u64) -> bool {
    &&& !real_is_nan(a)
    &&& !real_is_nan(b)
    &&& real_key(a) < real_key(b)
}

/// IEEE-754 non-strict order on bit patterns.
pub open spec fn real_le(a: u64, b: u64) -> bool {
    &&& !real_is_nan(a)
    &&& !real_is_nan(b)
    &&& real_key(a) <= real_key(b)
}

/// Is this bit pattern a NaN?
pub fn real_nan_bits(bits: u64) -> (r: bool)
    ensures
        r == real_is_nan(bits),
{
    let abs: u64 = if bits >= REAL_SIGN {
        bits - REAL_SIGN
    } else {
        bits
    };
    abs > REAL_EXP
}

/// Strict IEEE-754 comparison of two reals given as bit patterns.
pub fn real_lt_bits(a: u64, b: u64) -> (r: bool)
    ensures
        r == real_lt(a, b),
{
    if real_nan_bits(a) || real_nan_bits(b) {
        false
    } else {
        let aa: u64 = if a >= REAL_SIGN { a - REAL_SIGN } else { a };
        let ba: u64 = if b >= REAL_SIGN { b - REAL_SIGN } else { b };
        if a >= REAL_SIGN {
            if b >= REAL_SIGN {
                ba < aa
            } else {
                aa > 0 || ba > 0
            }
        } else {
            if b >= REAL_SIGN {
                false
            } else {
                aa < ba
            }
        }
    }
}

/// Non-strict IEEE-754 comparison of two reals given as bit patterns.
pub fn real_le_bits(a: u64, b: u64) -> (r: bool)
    ensures
        r == real_le(a, b),
{
    if real_nan_bits(a) || real_nan_bits(b) {
        false
    } else {
        let aa: u64 = if a >= REAL_SIGN { a - REAL_SIGN } else { a };
        let ba: u64 = if b >= REAL_SIGN { b - REAL_SIGN } else { b };
        if a >= REAL_SIGN {
            if b >= REAL_SIGN {
                ba <= aa
            } else {
                true
            }
        } else {
            if b >= REAL_SIGN {
                aa == 0 && ba == 0
            } else {
                aa <= ba
            }
        }
    }
}

/// IEEE-754 equality of two reals given as bit patterns.
pub fn real_eq_bits(a: u64, b: u64) -> (r: bool)
    ensures
        r == real_eq(a, b),
{
    if real_nan_bits(a) || real_nan_bits(b) {
        false
    } else {
        let aa: u64 = if a >= REAL_SIGN { a - REAL_SIGN } else { a };
        let ba: u64 = if b >= REAL_SIGN { b - REAL_SIGN } else { b };
        if (a >= REAL_SIGN) == (b >= REAL_SIGN) {
            aa == ba
        } else {
            aa == 0 && ba == 0
        }
    }
}

/// A tagged scalar value: a string, an integer, or an IEEE-754 real held as
/// its bit pattern.
#[derive(Debug, Clone)]
pub enum Property {
    Text(String),
    Int(i64),
    Real(u64),
}

/// Equality of two property values: tags must match, and values compare
/// within their tag (reals by IEEE-754 rules).
pub open spec fn prop_eq(a: Property, b: Property) -> bool {
    match (a, b) {
        (Property::Text(x), Property::Text(y)) => x@ == y@,
        (Property::Int(x), Property::Int(y)) => x == y,
        (Property::Real(x), Property::Real(y)) => real_eq(x, y),
        _ => false,
    }
}

/// Does an integer property hold a value in the half-open range `[lo, hi)`?
/// False on any other tag.
pub open spec fn prop_in_int_range(p: Property, lo: i64, hi: i64) -> bool {
    match p {
        Property::Int(v) => lo <= v < hi,
        _ => false,
    }
}

/// Does a real property hold a value in the half-open range `[lo, hi)`?
/// False on any other tag, and false whenever a NaN is involved.
pub open spec fn prop_in_real_range(p: Property, lo: u64, hi: u64) -> bool {
    match p {
        Property::Real(v) => real_le(lo, v) && real_lt(v, hi),
        _ => false,
    }
}

impl Property {
    /// A string property.
    pub fn text(value: &str) -> (r: Property)
        ensures
            (r matches Property::Text(s) && s@ == value@),
    {
        Property::Text(value.to_owned())
    }

    /// An integer property.
    pub fn integer(value: i64) -> (r: Property)
        ensures
            r == Property::Int(value),
    {
        Property::Int(value)
    }

    /// A real property, given as the bit pattern of an IEEE-754 double.
    pub fn real_bits(bits: u64) -> (r: Property)
        ensures
            r == Property::Real(bits),
    {
        Property::Real(bits)
    }

    /// An equal copy of this property value.
    pub fn duplicate(&self) -> (r: Property)
        ensures
            r == *self,
    {
        match self {
            Property::Text(s) => Property::Text(s.clone()),
            Property::Int(i) => Property::Int(*i),
            Property::Real(b) => Property::Real(*b),
        }
    }

    /// Equality with another property value, tags and all.
    pub fn same_value(&self, other: &Property) -> (r: bool)
        ensures
            r == prop_eq(*self, *other),
    {
        match (self, other) {
            (Property::Text(x), Property::Text(y)) => *x == *y,
            (Property::Int(x), Property::Int(y)) => *x == *y,
            (Property::Real(x), Property::Real(y)) => real_eq_bits(*x, *y),
            _ => false,
        }
    }

    /// Is this an integer in the half-open range `[lo, hi)`?
    pub fn is_in_range(&self, lo: i64, hi: i64) -> (r: bool)
        ensures
            r == prop_in_int_range(*self, lo, hi),
    {
        match self {
            Property::Int(v) => lo <= *v && *v < hi,
            _ => false,
        }
    }

    /// Is this a real in the half-open range `[lo, hi)`, the bounds given as
    /// IEEE-754 bit patterns?
    pub fn is_in_range_float(&self, lo: u64, hi: u64) -> (r: bool)
        ensures
            r == prop_in_real_range(*self, lo, hi),
    {
        match self {
            Property::Real(v) => real_le_bits(lo, *v) && real_lt_bits(*v, hi),
            _ => false,
        }
    }
}

} // verus!

verus! {

/// First-match key lookup over an association list.
pub open spec fn map_has(s: Seq<(String, Property)>, k: Seq<char>) -> bool
    decreases s.len(),
{
    if s.len() == 0 {
        false
    } else {
        s[0].0@ == k || map_has(s.skip(1), k)
    }
}

/// First-match value lookup over an association list.
pub open spec fn map_get(s: Seq<(String, Property)>, k: Seq<char>) -> Property
    decreases s.len(),
{
    if s.len() == 0 {
        Property::Int(0)
    } else if s[0].0@ == k {
        s[0].1
    } else {
        map_get(s.skip(1), k)
    }
}

pub proof fn lemma_map_has_exists(s: Seq<(String, Property)>, k: Seq<char>)
    ensures
        map_has(s, k) <==> exists|i: int| 0 <= i < s.len() && (#[trigger] s[i]).0@ == k,
    decreases s.len(),
{
    if s.len() > 0 {
        lemma_map_has_exists(s.skip(1), k);
        if s[0].0@ == k {
        } else if map_has(s.skip(1), k) {
            let i = choose|i: int| 0 <= i < s.skip(1).len() && (#[trigger] s.skip(1)[i]).0@ == k;
            assert(s[i + 1].0@ == k);
        } else {
            assert forall|i: int| 0 <= i < s.len() implies (#[trigger] s[i]).0@ != k by {
                if i > 0 {
                    assert(s.skip(1)[i - 1] == s[i]);
                }
            }
        }
    }
}

pub proof fn lemma_map_get_at(s: Seq<(String, Property)>, i: int)
    requires
        0 <= i < s.len(),
        forall|j: int| 0 <= j < i ==> (#[trigger] s[j]).0@ != s[i].0@,
    ensures
        map_has(s, s[i].0@),
        map_get(s, s[i].0@) == s[i].1,
    decreases i,
{
    if i > 0 {
        assert forall|j: int| 0 <= j < i - 1 implies (#[trigger] s.skip(1)[j]).0@ != s.skip(1)[i
            - 1].0@ by {
            assert(s.skip(1)[j] == s[j + 1]);
        }
        assert(s.skip(1)[i - 1] == s[i]);
        lemma_map_get_at(s.skip(1), i - 1);
    }
}

/// A mapping from property names to property values, held as an
/// association list read with first-match semantics.
#[derive(Debug, Clone)]
pub struct PropertyMap {
    pub entries: Vec<(String, Property)>,
}

impl View for PropertyMap {
    type V = Map<Seq<char>, Property>;

    open spec fn view(&self) -> Map<Seq<char>, Property> {
        Map::new(
            |k: Seq<char>| map_has(self.entries@, k),
            |k: Seq<char>| map_get(self.entries@, k),
        )
    }
}

impl PropertyMap {
    /// An empty map.
    pub fn new() -> (r: PropertyMap)
        ensures
            r@ == Map::<Seq<char>, Property>::empty(),
            r.entries@.len() == 0,
    {
        let r = PropertyMap { entries: Vec::new() };
        proof {
            assert(r@ =~= Map::<Seq<char>, Property>::empty());
        }
        r
    }

    /// The value under a name, if the name is present.
    pub fn get(&self, name: &str) -> (r: Option<&Property>)
        ensures
            match r {
                Some(p) => self@.contains_key(name@) && *p == self@[name@],
                None => !self@.contains_key(name@),
            },
    {
        let n = self.entries.len();
        let mut i: usize = 0;
        while i < n
            invariant
                i <= n == self.entries@.len(),
                forall|j: int| 0 <= j < i ==> (#[trigger] self.entries@[j]).0@ != name@,
            decreases n - i,
        {
            if str_eq(self.entries[i].0.as_str(), name) {
                proof {
                    lemma_map_get_at(self.entries@, i as int);
                }
                return Some(&self.entries[i].1);
            }
            i = i + 1;
        }
        proof {
            lemma_map_has_exists(self.entries@, name@);
        }
        None
    }

    /// Is a name present?
    pub fn contains(&self, name: &str) -> (r: bool)
        ensures
            r == self@.contains_key(name@),
    {
        self.get(name).is_some()
    }

    /// Bind a name to a value, replacing any earlier binding.
    pub fn insert(&mut self, name: &str, value: Property)
        ensures
            final(self)@ == old(self)@.insert(name@, value),
    {
        let ghost pre = self.entries@;
        self.entries.insert(0, (name.to_owned(), value));
        proof {
            assert(self.entries@.skip(1) =~= pre);
            assert forall|k: Seq<char>|
                map_has(self.entries@, k) == (k == name@ || map_has(pre, k)) by {
            }
            assert(self@ =~= old(self)@.insert(name@, value));
        }
    }
}

impl PropertyMap {
    /// An equal copy of this map.
    pub fn duplicate(&self) -> (r: PropertyMap)
        ensures
            r.entries@ == self.entries@,
            r@ == self@,
    {
        let n = self.entries.len();
        let mut entries: Vec<(String, Property)> = Vec::new();
        let mut i: usize = 0;
        while i < n
            invariant
                i <= n == self.entries@.len(),
                entries@ == self.entries@.take(i as int),
            decreases n - i,
        {
            entries.push((self.entries[i].0.clone(), self.entries[i].1.duplicate()));
            proof {
                assert(self.entries@[i as int] == (self.entries@[i as int].0, self.entries@[
                    i as int].1));
                assert(entries@ =~= self.entries@.take(i as int + 1));
            }
            i = i + 1;
        }
        proof {
            assert(self.entries@.take(n as int) =~= self.entries@);
        }
        PropertyMap { entries }
    }
}

/// Equality of two string slices.
pub fn str_eq(a: &str, b: &str) -> (r: bool)
    ensures
        r == (a@ == b@),
{
    a.to_owned() == b.to_owned()
}

} // verus!
