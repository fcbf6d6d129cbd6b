//! Laws that relate several operations of an environment, stated over the
//! model of a chain and proved from the definitions.

use crate::chain::{
    chain_assign, chain_bound, chain_define, chain_difference, chain_keys, chain_lookup,
    chain_merge, chain_set, chain_stack, chain_total, lemma_assign, lemma_lookup_bound,
    lemma_lookup_by_prefix, pairs_map,
};
use crate::equality::{chain_eq, level_eq};
use vstd::prelude::*;
use vstd::std_specs::cmp::PartialEqSpec;

verus! {

/// A key that no level binds is neither contained in the chain nor found by
/// a lookup.
pub proof fn law_unbound_key<K, V>(levels: Seq<Map<K, V>>, k: K)
    requires
        forall|i: int| 0 <= i < levels.len() ==> !(#[trigger] levels[i]).contains_key(k),
    ensures
        !chain_bound(levels, k),
        chain_lookup(levels, k) is None,
{
    lemma_lookup_bound(levels, k);
}

/// A lookup finds the binding of the innermost level that has one: the level
/// `i` that binds `k` while no level before it does.
pub proof fn law_innermost_wins<K, V>(levels: Seq<Map<K, V>>, k: K, i: int)
    requires
        0 <= i < levels.len(),
        levels[i].contains_key(k),
        forall|j: int| 0 <= j < i ==> !(#[trigger] levels[j]).contains_key(k),
    ensures
        chain_lookup(levels, k) == Some(levels[i][k]),
    decreases i,
{
    if i > 0 {
        assert(!levels[0].contains_key(k));
        let rest = levels.skip(1);
        assert forall|j: int| 0 <= j < i - 1 implies !(#[trigger] rest[j]).contains_key(k) by {
            assert(!levels[j + 1].contains_key(k));
        }
        law_innermost_wins(rest, k, i - 1);
    }
}

/// Defining a key that nothing binds puts it at the innermost level, where
/// a lookup finds the value; a second definition of the same key is then
/// rejected and leaves the chain, and so the stored value, as it is.
pub proof fn law_define_once<K, V>(levels: Seq<Map<K, V>>, k: K, v: V, v2: V)
    requires
        levels.len() >= 1,
        !chain_bound(levels, k),
    ensures
        chain_define(levels, k, v)[0].contains_key(k),
        chain_lookup(chain_define(levels, k, v), k) == Some(v),
        chain_bound(chain_define(levels, k, v), k),
        chain_define(chain_define(levels, k, v), k, v2) == chain_define(levels, k, v),
{
    let after = chain_define(levels, k, v);
    assert(after[0].contains_key(k));
}

/// Setting a key binds it at the innermost level whether or not an ancestor
/// binds it too: a lookup finds the new value, and every ancestor level is
/// what it was.
pub proof fn law_set_shadows<K, V>(levels: Seq<Map<K, V>>, k: K, v: V)
    requires
        levels.len() >= 1,
    ensures
        chain_set(levels, k, v)[0].contains_key(k),
        chain_set(levels, k, v)[0][k] == v,
        chain_lookup(chain_set(levels, k, v), k) == Some(v),
        chain_set(levels, k, v).skip(1) == levels.skip(1),
        chain_set(levels, k, v).len() == levels.len(),
{
    assert(chain_set(levels, k, v).skip(1) =~= levels.skip(1));
}

/// The size of a chain is the number of entries of its innermost level plus
/// the size of the chain it extends; a key bound at both is counted twice.
pub proof fn law_size_by_level<K, V>(local: Map<K, V>, parent: Seq<Map<K, V>>)
    ensures
        chain_total(seq![local] + parent) == local.len() + chain_total(parent),
        chain_total(Seq::<Map<K, V>>::empty()) == 0,
{
    assert((seq![local] + parent).skip(1) =~= parent);
}

/// A fresh empty level on top changes nothing in the merged chain, and two
/// levels that share no key merge into the same map in either order.
pub proof fn law_extend_flatten<K, V>(levels: Seq<Map<K, V>>, inner: Map<K, V>, outer: Map<K, V>)
    requires
        inner.dom().disjoint(outer.dom()),
    ensures
        chain_merge(seq![Map::<K, V>::empty()] + levels) == chain_merge(levels),
        chain_merge(seq![inner, outer]) == inner.union_prefer_right(outer),
        chain_merge(seq![inner, outer]) == outer.union_prefer_right(inner),
        chain_merge(seq![inner, outer]) == chain_merge(seq![outer, inner]),
{
    let extended = seq![Map::<K, V>::empty()] + levels;
    assert(extended.skip(1) =~= levels);
    assert(chain_merge(extended) =~= chain_merge(levels));
    lemma_merge_pair(inner, outer);
    lemma_merge_pair(outer, inner);
    assert(inner.union_prefer_right(outer) =~= outer.union_prefer_right(inner)) by {
        assert forall|k: K| !(inner.contains_key(k) && outer.contains_key(k)) by {
            if inner.contains_key(k) && outer.contains_key(k) {
                assert(inner.dom().contains(k) && outer.dom().contains(k));
            }
        }
    }
}

/// The merged chain binds exactly the keys that some level binds.
pub proof fn law_merge_keys<K, V>(levels: Seq<Map<K, V>>, k: K)
    ensures
        chain_merge(levels).contains_key(k) <==> chain_bound(levels, k),
    decreases levels.len(),
{
    if levels.len() > 0 {
        let rest = levels.skip(1);
        law_merge_keys(rest, k);
        if chain_bound(rest, k) {
            let j = choose|j: int| 0 <= j < rest.len() && #[trigger] rest[j].contains_key(k);
            assert(levels[j + 1].contains_key(k));
        }
        if chain_bound(levels, k) && !levels[0].contains_key(k) {
            let j = choose|j: int| 0 <= j < levels.len() && #[trigger] levels[j].contains_key(k);
            assert(rest[j - 1].contains_key(k));
        }
        if levels[0].contains_key(k) {
            assert(chain_bound(levels, k));
        }
    }
}

/// On a key that several levels bind, the merged chain keeps the binding of
/// the outermost of them: the level `i` that binds `k` while no level after
/// it does.
pub proof fn law_merge_outermost_wins<K, V>(levels: Seq<Map<K, V>>, k: K, i: int)
    requires
        0 <= i < levels.len(),
        levels[i].contains_key(k),
        forall|j: int| i < j < levels.len() ==> !(#[trigger] levels[j]).contains_key(k),
    ensures
        chain_merge(levels).contains_key(k),
        chain_merge(levels)[k] == levels[i][k],
    decreases levels.len(),
{
    let rest = levels.skip(1);
    if i == 0 {
        law_merge_keys(rest, k);
        if chain_bound(rest, k) {
            let j = choose|j: int| 0 <= j < rest.len() && #[trigger] rest[j].contains_key(k);
            assert(levels[j + 1].contains_key(k));
        }
    } else {
        assert(rest[i - 1] == levels[i]);
        assert forall|j: int| i - 1 < j < rest.len() implies !(#[trigger] rest[j]).contains_key(
            k,
        ) by {
            assert(!levels[j + 1].contains_key(k));
        }
        law_merge_outermost_wins(rest, k, i - 1);
    }
}

/// The merge of two levels is the inner one overwritten by the outer one.
pub proof fn lemma_merge_pair<K, V>(inner: Map<K, V>, outer: Map<K, V>)
    ensures
        chain_merge(seq![inner, outer]) == inner.union_prefer_right(outer),
{
    let two = seq![inner, outer];
    assert(two.skip(1) =~= seq![outer]);
    assert(seq![outer].skip(1) =~= Seq::<Map<K, V>>::empty());
    assert(chain_merge(seq![outer].skip(1)) =~= Map::<K, V>::empty());
    assert(chain_merge(seq![outer]) =~= outer);
    assert(chain_merge(two) =~= inner.union_prefer_right(outer));
}

/// The keys of a difference are bound in the first chain and in no level of
/// the second, and each keeps the value that the first chain finds for it.
pub proof fn law_difference<K, V>(this: Seq<Map<K, V>>, that: Seq<Map<K, V>>, k: K)
    ensures
        chain_difference(this, that).contains_key(k) ==> chain_bound(this, k) && !chain_bound(
            that,
            k,
        ),
        chain_bound(that, k) ==> !chain_difference(this, that).contains_key(k),
        chain_difference(this, that).contains_key(k) ==> chain_lookup(this, k) == Some(
            chain_difference(this, that)[k],
        ),
        chain_difference(this, that).dom() == chain_keys(this).difference(chain_keys(that)),
{
    lemma_lookup_bound(this, k);
    assert(chain_difference(this, that).dom() =~= chain_keys(this).difference(chain_keys(that)));
}

/// Where every level binds `k`, its stack holds the value of each level in
/// turn, innermost first.
pub proof fn law_stack_order<K, V>(levels: Seq<Map<K, V>>, k: K)
    requires
        forall|i: int| 0 <= i < levels.len() ==> (#[trigger] levels[i]).contains_key(k),
    ensures
        chain_stack(levels, k).len() == levels.len(),
        forall|i: int| 0 <= i < levels.len() ==> chain_stack(levels, k)[i] == levels[i][k],
    decreases levels.len(),
{
    if levels.len() > 0 {
        let front = levels.drop_last();
        assert forall|i: int| 0 <= i < front.len() implies (#[trigger] front[i]).contains_key(
            k,
        ) by {
            assert(levels[i].contains_key(k));
        }
        law_stack_order(front, k);
        assert(levels.last().contains_key(k));
    }
}

/// The stack of a key is empty exactly where no level binds the key, and
/// otherwise starts with the value that a lookup finds.
pub proof fn law_stack_head<K, V>(levels: Seq<Map<K, V>>, k: K)
    ensures
        chain_stack(levels, k).len() > 0 <==> chain_bound(levels, k),
        chain_bound(levels, k) ==> chain_lookup(levels, k) == Some(chain_stack(levels, k)[0]),
    decreases levels.len(),
{
    lemma_lookup_bound(levels, k);
    if levels.len() > 0 {
        let front = levels.drop_last();
        law_stack_head(front, k);
        lemma_lookup_by_prefix(levels, k);
        lemma_lookup_bound(front, k);
    }
}

/// An update of a bound key is found by the next lookup, leaves every other
/// key as it was, and adds or removes no binding at any level.
pub proof fn law_update_in_place<K, V>(levels: Seq<Map<K, V>>, k: K, v: V, x: K)
    requires
        chain_bound(levels, k),
        x != k,
    ensures
        chain_lookup(chain_assign(levels, k, v), k) == Some(v),
        chain_lookup(chain_assign(levels, k, v), x) == chain_lookup(levels, x),
        chain_assign(levels, k, v).len() == levels.len(),
        forall|i: int|
            0 <= i < levels.len() ==> (#[trigger] chain_assign(levels, k, v)[i]).dom()
                == levels[i].dom(),
{
    lemma_lookup_bound(levels, k);
    lemma_assign(levels, k, v);
}

/// Where several pairs have the same key, the map of the pairs binds the
/// key to the value of the last of them: the pair `i` after which no pair
/// has the key.
pub proof fn law_last_pair_wins<K, V>(pairs: Seq<(K, V)>, i: int)
    requires
        0 <= i < pairs.len(),
        forall|j: int| i < j < pairs.len() ==> (#[trigger] pairs[j]).0 != pairs[i].0,
    ensures
        pairs_map(pairs).contains_key(pairs[i].0),
        pairs_map(pairs)[pairs[i].0] == pairs[i].1,
    decreases pairs.len(),
{
    if i < pairs.len() - 1 {
        let front = pairs.drop_last();
        assert(front[i] == pairs[i]);
        assert(pairs[pairs.len() - 1].0 != pairs[i].0);
        assert forall|j: int| i < j < front.len() implies (#[trigger] front[j]).0
            != front[i].0 by {
            assert(pairs[j].0 != pairs[i].0);
        }
        law_last_pair_wins(front, i);
    }
}

/// Where the value type calls two values equal exactly if they are the
/// same, two chains are equal exactly if they have the same levels.
pub proof fn law_equal_chains<K, V: PartialEq>(a: Seq<Map<K, V>>, b: Seq<Map<K, V>>)
    requires
        forall|x: V, y: V| #[trigger] x.eq_spec(&y) <==> x == y,
    ensures
        chain_eq(a, b) <==> a == b,
{
    if chain_eq(a, b) {
        assert forall|i: int| 0 <= i < a.len() implies a[i] == b[i] by {
            assert(level_eq(a[i], b[i]));
            assert forall|k: K| #[trigger] a[i].contains_key(k) implies a[i][k] == b[i][k] by {
                assert(a[i][k].eq_spec(&b[i][k]));
            }
            assert(a[i] =~= b[i]);
        }
        assert(a =~= b);
    }
    if a == b {
        assert forall|i: int| 0 <= i < a.len() implies level_eq(#[trigger] a[i], b[i]) by {
            assert forall|k: K| #[trigger] a[i].contains_key(k) implies a[i][k].eq_spec(
                &b[i][k],
            ) by {
                assert(a[i][k] == b[i][k]);
            }
        }
    }
}

} // verus!
