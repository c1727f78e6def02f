//! Bindings from aliases to entities.

use vstd::prelude::*;

use crate::entity::EntityId;

verus! {

/// First-match test for an alias name.
pub open spec fn amap_has(s: Seq<(String, EntityId)>, k: Seq<char>) -> bool
    decreases s.len(),
{
    if s.len() == 0 {
        false
    } else {
        s[0].0@ == k || amap_has(s.skip(1), k)
    }
}

/// First-match entity lookup for an alias name.
pub open spec fn amap_get(s: Seq<(String, EntityId)>, k: Seq<char>) -> EntityId
    decreases s.len(),
{
    if s.len() == 0 {
        0
    } else if s[0].0@ == k {
        s[0].1
    } else {
        amap_get(s.skip(1), k)
    }
}

pub proof fn lemma_amap_has_exists(s: Seq<(String, EntityId)>, k: Seq<char>)
    ensures
        amap_has(s, k) <==> exists|i: int| 0 <= i < s.len() && (#[trigger] s[i]).0@ == k,
    decreases s.len(),
{
    if s.len() > 0 {
        lemma_amap_has_exists(s.skip(1), k);
        if s[0].0@ == k {
        } else if amap_has(s.skip(1), k) {
            let i = choose|i: int| 0 <= i < s.skip(1).len() && (#[trigger] s.skip(1)[i]).0@ == k;
            assert(s[i + 1].0@ == k);
        } else {
            assert forall|i: int| 0 <= i < s.len() implies (#[trigger] s[i]).0@ != k by {
                if i > 0 {
                    assert(s.skip(1)[i - 1] == s[i]);
                }
            }
        }
    }
}

pub proof fn lemma_amap_get_at(s: Seq<(String, EntityId)>, i: int)
    requires
        0 <= i < s.len(),
        forall|j: int| 0 <= j < i ==> (#[trigger] s[j]).0@ != s[i].0@,
    ensures
        amap_has(s, s[i].0@),
        amap_get(s, s[i].0@) == s[i].1,
    decreases i,
{
    if i > 0 {
        assert forall|j: int| 0 <= j < i - 1 implies (#[trigger] s.skip(1)[j]).0@ != s.skip(1)[i
            - 1].0@ by {
            assert(s.skip(1)[j] == s[j + 1]);
        }
        assert(s.skip(1)[i - 1] == s[i]);
        lemma_amap_get_at(s.skip(1), i - 1);
    }
}

/// A binding of alias names to entity identifiers, held as an association
/// list read with first-match semantics.
#[derive(Debug, Clone)]
pub struct AliasMap {
    pub entries: Vec<(String, EntityId)>,
}

impl View for AliasMap {
    type V = Map<Seq<char>, EntityId>;

    open spec fn view(&self) -> Map<Seq<char>, EntityId> {
        Map::new(
            |k: Seq<char>| amap_has(self.entries@, k),
            |k: Seq<char>| amap_get(self.entries@, k),
        )
    }
}

impl AliasMap {
    /// An empty binding.
    pub fn new() -> (r: AliasMap)
        ensures
            r@ == Map::<Seq<char>, EntityId>::empty(),
            r.entries@.len() == 0,
    {
        let r = AliasMap { entries: Vec::new() };
        proof {
            assert(r@ =~= Map::<Seq<char>, EntityId>::empty());
        }
        r
    }

    /// Bind an alias to an entity, replacing any earlier binding.
    pub fn associate(&mut self, alias: &str, entity: EntityId)
        ensures
            final(self)@ == old(self)@.insert(alias@, entity),
            final(self).entries@ == seq![(final(self).entries@[0].0, entity)] + old(
                self,
            ).entries@,
            final(self).entries@[0].0@ == alias@,
    {
        let ghost pre = self.entries@;
        self.entries.insert(0, (alias.to_owned(), entity));
        proof {
            assert(self.entries@.skip(1) =~= pre);
            assert(self.entries@ =~= seq![(self.entries@[0].0, entity)] + pre);
            assert(self@ =~= old(self)@.insert(alias@, entity));
        }
    }

    /// The entity bound to an alias, if any.
    pub fn get(&self, alias: &str) -> (r: Option<EntityId>)
        ensures
            match r {
                Some(id) => self@.contains_key(alias@) && id == self@[alias@],
                None => !self@.contains_key(alias@),
            },
    {
        let n = self.entries.len();
        let mut i: usize = 0;
        while i < n
            invariant
                i <= n == self.entries@.len(),
                forall|j: int| 0 <= j < i ==> (#[trigger] self.entries@[j]).0@ != alias@,
            decreases n - i,
        {
            if crate::property::str_eq(self.entries[i].0.as_str(), alias) {
                proof {
                    lemma_amap_get_at(self.entries@, i as int);
                }
                return Some(self.entries[i].1);
            }
            i = i + 1;
        }
        proof {
            lemma_amap_has_exists(self.entries@, alias@);
        }
        None
    }
}

} // verus!
