//! The model of a chain of scopes: a sequence of maps, innermost level first.

use vstd::prelude::*;

verus! {

/// `k` is bound at some level of the chain.
pub open spec fn chain_bound<K, V>(levels: Seq<Map<K, V>>, k: K) -> bool {
    exists|i: int| 0 <= i < levels.len() && #[trigger] levels[i].contains_key(k)
}

/// The value that the innermost level binding `k` gives it, if any level does.
pub open spec fn chain_lookup<K, V>(levels: Seq<Map<K, V>>, k: K) -> Option<V>
    decreases levels.len(),
{
    if levels.len() == 0 {
        None
    } else if levels[0].contains_key(k) {
        Some(levels[0][k])
    } else {
        chain_lookup(levels.skip(1), k)
    }
}

/// The number of entries over all levels; a key bound at several levels is
/// counted once for each.
pub open spec fn chain_total<K, V>(levels: Seq<Map<K, V>>) -> nat
    decreases levels.len(),
{
    if levels.len() == 0 {
        0
    } else {
        levels[0].len() + chain_total(levels.skip(1))
    }
}

/// All levels merged into one map. Levels are laid down innermost first and
/// each further level overwrites what is there, so on a shadowed key the
/// outermost binding is the one that remains.
pub open spec fn chain_merge<K, V>(levels: Seq<Map<K, V>>) -> Map<K, V>
    decreases levels.len(),
{
    if levels.len() == 0 {
        Map::empty()
    } else {
        levels[0].union_prefer_right(chain_merge(levels.skip(1)))
    }
}

/// The keys bound anywhere in the chain.
pub open spec fn chain_keys<K, V>(levels: Seq<Map<K, V>>) -> Set<K> {
    Set::new(|k: K| chain_bound(levels, k))
}

/// Every value bound to `k`, from the innermost level that binds it to the
/// outermost.
pub open spec fn chain_stack<K, V>(levels: Seq<Map<K, V>>, k: K) -> Seq<V>
    decreases levels.len(),
{
    if levels.len() == 0 {
        Seq::empty()
    } else {
        let inner = chain_stack(levels.drop_last(), k);
        if levels.last().contains_key(k) {
            inner.push(levels.last()[k])
        } else {
            inner
        }
    }
}

/// The chain with `k` bound to `v` at the innermost level, whatever the
/// other levels bind.
pub open spec fn chain_set<K, V>(levels: Seq<Map<K, V>>, k: K, v: V) -> Seq<Map<K, V>>
    recommends
        levels.len() >= 1,
{
    levels.update(0, levels[0].insert(k, v))
}

/// The chain after a definition: `k` is bound to `v` at the innermost level
/// where no level bound it, and nothing has changed where one did.
pub open spec fn chain_define<K, V>(levels: Seq<Map<K, V>>, k: K, v: V) -> Seq<Map<K, V>>
    recommends
        levels.len() >= 1,
{
    if chain_bound(levels, k) {
        levels
    } else {
        chain_set(levels, k, v)
    }
}

/// The chain in which the innermost binding of `k` has the value `v`; the
/// chain itself where no level binds `k`.
pub open spec fn chain_assign<K, V>(levels: Seq<Map<K, V>>, k: K, v: V) -> Seq<Map<K, V>>
    decreases levels.len(),
{
    if levels.len() == 0 {
        levels
    } else if levels[0].contains_key(k) {
        levels.update(0, levels[0].insert(k, v))
    } else {
        seq![levels[0]] + chain_assign(levels.skip(1), k, v)
    }
}

/// The bindings of `this` whose keys `that` binds nowhere, each with the
/// value that a lookup in `this` finds.
pub open spec fn chain_difference<K, V>(this: Seq<Map<K, V>>, that: Seq<Map<K, V>>) -> Map<K, V> {
    Map::new(
        |k: K| chain_bound(this, k) && !chain_bound(that, k),
        |k: K| chain_lookup(this, k).unwrap(),
    )
}

/// The map that inserting the pairs one after another into an empty map
/// leaves: for a key that occurs more than once, the last pair counts.
pub open spec fn pairs_map<K, V>(pairs: Seq<(K, V)>) -> Map<K, V>
    decreases pairs.len(),
{
    if pairs.len() == 0 {
        Map::empty()
    } else {
        pairs_map(pairs.drop_last()).insert(pairs.last().0, pairs.last().1)
    }
}

/// A lookup succeeds exactly on the bound keys, and what it finds is bound
/// at some level.
pub proof fn lemma_lookup_bound<K, V>(levels: Seq<Map<K, V>>, k: K)
    ensures
        chain_lookup(levels, k) is Some <==> chain_bound(levels, k),
        chain_lookup(levels, k) matches Some(v) ==> exists|i: int|
            0 <= i < levels.len() && #[trigger] levels[i].contains_key(k) && levels[i][k] == v,
    decreases levels.len(),
{
    if levels.len() > 0 {
        let rest = levels.skip(1);
        lemma_lookup_bound(rest, k);
        if levels[0].contains_key(k) {
        } else {
            if chain_bound(levels, k) {
                let i = choose|i: int|
                    0 <= i < levels.len() && #[trigger] levels[i].contains_key(k);
                assert(rest[i - 1].contains_key(k));
            }
            if chain_bound(rest, k) {
                let j = choose|j: int| 0 <= j < rest.len() && #[trigger] rest[j].contains_key(k);
                assert(levels[j + 1].contains_key(k));
            }
            if let Some(v) = chain_lookup(levels, k) {
                let j = choose|j: int|
                    0 <= j < rest.len() && #[trigger] rest[j].contains_key(k) && rest[j][k] == v;
                assert(levels[j + 1].contains_key(k) && levels[j + 1][k] == v);
            }
        }
    }
}

/// After an assignment to a bound key a lookup finds the new value, every
/// other key is found as before, and each level has the keys it had.
pub proof fn lemma_assign<K, V>(levels: Seq<Map<K, V>>, k: K, v: V)
    ensures
        chain_assign(levels, k, v).len() == levels.len(),
        forall|i: int|
            0 <= i < levels.len() ==> (#[trigger] chain_assign(levels, k, v)[i]).dom()
                =~= levels[i].dom(),
        chain_lookup(levels, k) is Some ==> chain_lookup(chain_assign(levels, k, v), k) == Some(v),
        chain_lookup(levels, k) is None ==> chain_assign(levels, k, v) == levels,
        forall|x: K|
            x != k ==> #[trigger] chain_lookup(chain_assign(levels, k, v), x) == chain_lookup(
                levels,
                x,
            ),
    decreases levels.len(),
{
    if levels.len() > 0 {
        let rest = levels.skip(1);
        lemma_assign(rest, k, v);
        let after = chain_assign(levels, k, v);
        if levels[0].contains_key(k) {
            assert(after.skip(1) =~= rest);
        } else {
            assert(after.skip(1) =~= chain_assign(rest, k, v));
            assert(after[0] == levels[0]);
            assert forall|i: int| 0 <= i < levels.len() implies (#[trigger] after[i]).dom()
                =~= levels[i].dom() by {
                if i > 0 {
                    assert(after[i] == chain_assign(rest, k, v)[i - 1]);
                    assert(levels[i] == rest[i - 1]);
                }
            }
            if chain_lookup(levels, k) is None {
                assert(after =~= levels);
            }
        }
        assert forall|x: K| x != k implies #[trigger] chain_lookup(after, x) == chain_lookup(
            levels,
            x,
        ) by {
            assert(after[0].contains_key(x) == levels[0].contains_key(x));
            if !levels[0].contains_key(x) {
                assert(chain_lookup(after, x) == chain_lookup(after.skip(1), x));
                assert(chain_lookup(chain_assign(rest, k, v), x) == chain_lookup(rest, x));
            }
        }
    }
}

/// A lookup in a chain is the lookup in the chain without its outermost
/// level, and falls back to that level where the shorter chain finds nothing.
pub proof fn lemma_lookup_by_prefix<K, V>(levels: Seq<Map<K, V>>, k: K)
    requires
        levels.len() > 0,
    ensures
        chain_lookup(levels, k) == match chain_lookup(levels.drop_last(), k) {
            Some(v) => Some(v),
            None => if levels.last().contains_key(k) {
                Some(levels.last()[k])
            } else {
                None
            },
        },
    decreases levels.len(),
{
    let front = levels.drop_last();
    let rest = levels.skip(1);
    if levels.len() == 1 {
        assert(front =~= Seq::empty());
        assert(rest =~= Seq::empty());
        assert(chain_lookup(rest, k) is None);
    } else {
        lemma_lookup_by_prefix(rest, k);
        assert(rest.drop_last() =~= front.skip(1));
        assert(rest.last() == levels.last());
        assert(front[0] == levels[0]);
    }
}

/// A key is bound in the first `i + 1` levels exactly if it is bound in the
/// first `i` or at level `i`.
pub proof fn lemma_bound_take<K, V>(levels: Seq<Map<K, V>>, i: int, k: K)
    requires
        0 <= i < levels.len(),
    ensures
        chain_bound(levels.take(i + 1), k) <==> chain_bound(levels.take(i), k)
            || levels[i].contains_key(k),
{
    let more = levels.take(i + 1);
    let less = levels.take(i);
    if chain_bound(more, k) {
        let j = choose|j: int| 0 <= j < more.len() && #[trigger] more[j].contains_key(k);
        if j < i {
            assert(less[j].contains_key(k));
        }
    }
    if chain_bound(less, k) {
        let j = choose|j: int| 0 <= j < less.len() && #[trigger] less[j].contains_key(k);
        assert(more[j].contains_key(k));
    }
    if levels[i].contains_key(k) {
        assert(more[i].contains_key(k));
    }
}

/// The keys of `pairs_map` are the keys of the pairs, and where no key
/// occurs twice each pair is an entry of it.
pub proof fn lemma_pairs_map<K, V>(pairs: Seq<(K, V)>)
    ensures
        forall|k: K|
            (#[trigger] pairs_map(pairs).contains_key(k)) <==> exists|i: int|
                0 <= i < pairs.len() && (#[trigger] pairs[i]).0 == k,
        (forall|i: int, j: int|
            0 <= i < j < pairs.len() ==> (#[trigger] pairs[i]).0 != (#[trigger] pairs[j]).0)
            ==> forall|i: int|
            0 <= i < pairs.len() ==> pairs_map(pairs)[(#[trigger] pairs[i]).0] == pairs[i].1,
    decreases pairs.len(),
{
    if pairs.len() > 0 {
        let front = pairs.drop_last();
        let last = pairs.last();
        lemma_pairs_map(front);
        assert forall|k: K|
            (#[trigger] pairs_map(pairs).contains_key(k)) <==> exists|i: int|
                0 <= i < pairs.len() && (#[trigger] pairs[i]).0 == k by {
            if pairs_map(pairs).contains_key(k) {
                if k == last.0 {
                    assert(pairs[pairs.len() - 1].0 == k);
                } else {
                    assert(pairs_map(front).contains_key(k));
                    let i = choose|i: int| 0 <= i < front.len() && (#[trigger] front[i]).0 == k;
                    assert(pairs[i].0 == k);
                }
            }
            if exists|i: int| 0 <= i < pairs.len() && (#[trigger] pairs[i]).0 == k {
                let i = choose|i: int| 0 <= i < pairs.len() && (#[trigger] pairs[i]).0 == k;
                if i < front.len() {
                    assert(front[i].0 == k);
                    assert(pairs_map(front).contains_key(k));
                }
            }
        }
        if forall|i: int, j: int|
            0 <= i < j < pairs.len() ==> (#[trigger] pairs[i]).0 != (#[trigger] pairs[j]).0 {
            assert forall|i: int, j: int| 0 <= i < j < front.len() implies (#[trigger] front[i]).0
                != (#[trigger] front[j]).0 by {
                assert(pairs[i].0 != pairs[j].0);
            }
            assert forall|i: int| 0 <= i < pairs.len() implies pairs_map(pairs)[(
            #[trigger] pairs[i]).0] == pairs[i].1 by {
                if i < front.len() {
                    assert(front[i] == pairs[i]);
                    assert(pairs[i].0 != pairs[pairs.len() - 1].0);
                }
            }
        }
    }
}

} // verus!
