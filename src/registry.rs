//! Named registries sent to clients (dimension types, biomes): entries
//! numbered with the smallest id not yet in use.
use vstd::prelude::*;
use vstd::set_lib::{lemma_int_range, lemma_len_subset, set_int_range};

verus! {

/// One registry entry: its name, its numeric id and its value.
pub struct RegistryEntry<T> {
    pub name: String,
    pub id: i32,
    pub element: T,
}

/// A named registry.
pub struct Registry<T> {
    pub name: String,
    pub entries: Vec<RegistryEntry<T>>,
}

pub open spec fn ids_of<T>(s: Seq<RegistryEntry<T>>) -> Seq<int> {
    s.map_values(|e: RegistryEntry<T>| e.id as int)
}

/// When every id in `[0, n]` is used, there are more than `n` entries.
pub proof fn lemma_free_id(ids: Seq<int>, n: int)
    requires
        0 <= n,
        forall|i: int| 0 <= i <= n ==> ids.contains(i),
    ensures
        ids.len() > n,
{
    lemma_int_range(0, n + 1);
    ids.lemma_cardinality_of_set();
    assert(set_int_range(0, n + 1).subset_of(ids.to_set())) by {
        assert forall|i: int| set_int_range(0, n + 1).contains(i) implies ids.to_set().contains(i) by {
            assert(ids.contains(i));
        }
    }
    lemma_len_subset(set_int_range(0, n + 1), ids.to_set());
}

impl<T> Registry<T> {
    /// Whether `id` is in use.
    fn is_used(&self, id: i32) -> (r: bool)
        ensures
            r == ids_of(self.entries@).contains(id as int),
    {
        let mut j: usize = 0;
        while j < self.entries.len()
            invariant
                j <= self.entries@.len(),
                forall|t: int| 0 <= t < j ==> self.entries@[t].id != id,
            decreases self.entries@.len() - j,
        {
            if self.entries[j].id == id {
                proof {
                    assert(ids_of(self.entries@)[j as int] == id as int);
                }
                return true;
            }
            j = j + 1;
        }
        proof {
            if ids_of(self.entries@).contains(id as int) {
                let t = choose|t: int| 0 <= t < ids_of(self.entries@).len() && ids_of(self.entries@)[t] == id as int;
                assert(self.entries@[t].id == id);
            }
        }
        false
    }

    /// Adds `value` under `name` with the smallest non-negative id that no
    /// entry has; returns that id.
    pub fn register(&mut self, name: &str, value: T) -> (r: i32)
        requires
            old(self).entries@.len() < 0x7fff_ffff,
        ensures
            r >= 0,
            !ids_of(old(self).entries@).contains(r as int),
            forall|i: int| 0 <= i < r ==> ids_of(old(self).entries@).contains(i),
            final(self).name == old(self).name,
            final(self).entries@.len() == old(self).entries@.len() + 1,
            final(self).entries@.drop_last() == old(self).entries@,
            final(self).entries@.last().id == r,
            final(self).entries@.last().name@ == name@,
            final(self).entries@.last().element == value,
    {
        let n = self.entries.len();
        let mut c: usize = 0;
        while c < n && self.is_used(c as i32)
            invariant
                c <= n,
                n == self.entries@.len(),
                n < 0x7fff_ffff,
                forall|i: int| 0 <= i < c ==> ids_of(self.entries@).contains(i),
            decreases n - c,
        {
            c = c + 1;
        }
        proof {
            if c == n && ids_of(self.entries@).contains(c as int) {
                lemma_free_id(ids_of(self.entries@), c as int);
            }
        }
        let id = c as i32;
        self.entries.push(RegistryEntry { name: String::from_str(name), id, element: value });
        proof {
            assert(self.entries@.drop_last() =~= old(self).entries@);
        }
        id
    }
}

} // verus!
