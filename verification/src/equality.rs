//! Equality of environments: level by level, by the keys and by what the
//! value type calls equal.

use crate::envr::{Envr, Hashley};
use crate::std_ext::maps_equal;
use vstd::prelude::*;
use vstd::std_specs::cmp::{PartialEqSpec, PartialEqSpecImpl};
use vstd::std_specs::hash::obeys_key_model;

verus! {

/// Two levels bind the same keys, each to values that are equal.
pub open spec fn level_eq<K, V: PartialEq>(a: Map<K, V>, b: Map<K, V>) -> bool {
    &&& a.dom() == b.dom()
    &&& forall|k: K| #[trigger] a.contains_key(k) ==> a[k].eq_spec(&b[k])
}

/// Two chains have the same number of levels, and each level of one equals
/// the level of the other at the same depth.
pub open spec fn chain_eq<K, V: PartialEq>(a: Seq<Map<K, V>>, b: Seq<Map<K, V>>) -> bool {
    &&& a.len() == b.len()
    &&& forall|i: int| 0 <= i < a.len() ==> level_eq(#[trigger] a[i], b[i])
}

impl<K: Hashley, V: Hashley> PartialEq for Envr<K, V> {
    /// Whether the two chains are equal level by level.
    fn eq(&self, other: &Self) -> (same: bool) {
        let mut a = self;
        let mut b = other;
        let ghost mut i: int = 0;
        proof {
            self.lemma_nonempty();
            other.lemma_nonempty();
        }
        loop
            invariant
                0 <= i < self@.len(),
                i < other@.len(),
                a@ =~= self@.skip(i),
                b@ =~= other@.skip(i),
                obeys_key_model::<K>() && V::obeys_eq_spec() ==> forall|j: int|
                    0 <= j < i ==> level_eq(#[trigger] self@[j], other@[j]),
            decreases self@.len() - i,
        {
            if !maps_equal(a.get_locals(), b.get_locals()) {
                return false;
            }
            match (a.get_parent(), b.get_parent()) {
                (Some(p), Some(q)) => {
                    proof {
                        p.lemma_nonempty();
                        q.lemma_nonempty();
                        assert(p@ =~= self@.skip(i + 1));
                        assert(q@ =~= other@.skip(i + 1));
                        i = i + 1;
                    }
                    a = &**p;
                    b = &**q;
                },
                (None, None) => {
                    return true;
                },
                (Some(p), None) => {
                    proof {
                        p.lemma_nonempty();
                    }
                    return false;
                },
                (None, Some(q)) => {
                    proof {
                        q.lemma_nonempty();
                    }
                    return false;
                },
            }
        }
    }
}

impl<K: Hashley, V: Hashley> PartialEqSpecImpl for Envr<K, V> {
    open spec fn obeys_eq_spec() -> bool {
        obeys_key_model::<K>() && V::obeys_eq_spec()
    }

    open spec fn eq_spec(&self, other: &Self) -> bool {
        chain_eq(self@, other@)
    }
}

} // verus!
