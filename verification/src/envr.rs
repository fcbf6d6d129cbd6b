//! The environment type and its operations.

use crate::chain::{
    chain_assign, chain_bound, chain_define, chain_difference, chain_keys, chain_lookup,
    chain_merge, chain_set, chain_stack, chain_total, lemma_assign, lemma_bound_take,
    lemma_lookup_bound, lemma_pairs_map, pairs_map,
};
use crate::std_ext::{
    array_into_vec, insert_borrowed_entry, insert_borrowed_key, into_pairs, value_mut,
};
use crate::text::{chain_text, render_levels, shows_chain, shows_keys, shows_level};
use std::collections::hash_map::Keys;
use std::collections::HashMap;
use std::collections::HashSet;
use std::fmt::Display;
use std::hash::Hash;
use vstd::prelude::*;
use vstd::std_specs::convert::FromSpecImpl;
use vstd::std_specs::hash::*;
use vstd::std_specs::iter::IteratorSpec;
use vstd::string::to_string_from_display_ensures;

verus! {

broadcast use vstd::std_specs::hash::group_hash_axioms;

/// What a key must offer to be held in a hash table.
pub trait Hashley: Eq + Hash {
}

impl<T> Hashley for T where T: Eq + Hash {
}

/// The outcome of an update: a view of the binding that was overwritten in
/// place, or the value handed back because no level binds the key.
#[derive(Debug)]
pub enum Updated<L, R> {
    Left(L),
    Right(R),
}

/// A scope with its own bindings and, optionally, the scope it extends.
#[derive(Debug)]
pub struct Envr<K, V> {
    local: HashMap<K, V>,
    parent: Option<Box<Envr<K, V>>>,
}

impl<K, V> View for Envr<K, V> {
    type V = Seq<Map<K, V>>;

    /// The levels of the chain, innermost first.
    closed spec fn view(&self) -> Seq<Map<K, V>> {
        self.levels()
    }
}

impl<K, V> Envr<K, V> {
    spec fn levels(&self) -> Seq<Map<K, V>>
        decreases self,
    {
        match self.parent {
            None => seq![self.local@],
            Some(p) => seq![self.local@] + p.levels(),
        }
    }
}

impl<K: Eq + Hash + Clone, V: Clone> Clone for Envr<K, V> {
    /// A copy of the whole chain, level by level.
    fn clone(&self) -> (copy: Self)
        ensures
            copy@ == self@,
        decreases self,
    {
        match &self.parent {
            Some(p) => Envr { local: self.local.clone(), parent: Some(Box::new((**p).clone())) },
            None => Envr { local: self.local.clone(), parent: None },
        }
    }
}

impl<K, V> Default for Envr<K, V> {
    /// An empty root environment.
    fn default() -> (env: Self)
        ensures
            env@ == seq![Map::<K, V>::empty()],
    {
        Envr { local: HashMap::new(), parent: None }
    }
}

impl<K, V> Envr<K, V> where K: Eq + Hash {
    /// A chain has at least its own level.
    pub proof fn lemma_nonempty(&self)
        ensures
            self@.len() >= 1,
    {
    }

    /// An empty root environment.
    pub fn new() -> (env: Envr<K, V>)
        ensures
            env@ == seq![Map::<K, V>::empty()],
    {
        Envr { local: HashMap::new(), parent: None }
    }

    /// An empty environment that extends `parent`, or a root where there is none.
    pub fn new_from(parent: Option<Envr<K, V>>) -> (env: Envr<K, V>)
        ensures
            env@ == match parent {
                Some(p) => seq![Map::<K, V>::empty()] + p@,
                None => seq![Map::<K, V>::empty()],
            },
    {
        match parent {
            Some(p) => Envr { local: HashMap::new(), parent: Some(Box::new(p)) },
            None => Envr { local: HashMap::new(), parent: None },
        }
    }

    /// A new empty level on top of this environment, which becomes its parent.
    pub fn extend(self) -> (env: Envr<K, V>)
        ensures
            env@ == seq![Map::<K, V>::empty()] + self@,
    {
        Envr { local: HashMap::new(), parent: Some(Box::new(self)) }
    }

    /// A new empty level on top of a copy of this environment, which itself
    /// stays as it is.
    pub fn extension(&self) -> (env: Envr<K, V>) where K: Clone, V: Clone
        ensures
            env@ == seq![Map::<K, V>::empty()] + self@,
    {
        Envr { local: HashMap::new(), parent: Some(Box::new(self.clone())) }
    }

    /// The bindings of the innermost level.
    pub fn get_locals(&self) -> (locals: &HashMap<K, V>)
        ensures
            locals@ == self@[0],
    {
        &self.local
    }

    /// The environment that this one extends, if any.
    pub fn get_parent(&self) -> (parent: &Option<Box<Envr<K, V>>>)
        ensures
            match *parent {
                Some(p) => p@ == self@.skip(1),
                None => self@.len() == 1,
            },
    {
        proof {
            if let Some(p) = &self.parent {
                assert(self@.skip(1) =~= p@);
            }
        }
        &self.parent
    }

    /// Whether this environment extends another.
    pub fn has_parent(&self) -> (b: bool)
        ensures
            b == (self@.len() > 1),
    {
        proof {
            if let Some(p) = &self.parent {
                p.lemma_nonempty();
            }
        }
        self.parent.is_some()
    }

    /// The number of entries over the whole chain, each level counted by itself.
    pub fn size(&self) -> (n: usize)
        requires
            obeys_key_model::<K>(),
            chain_total(self@) <= usize::MAX,
        ensures
            n == chain_total(self@),
        decreases self,
    {
        let mut count: usize = self.local.len();
        proof {
            assert(self@.len() >= 1);
            assert(self@[0] == self.local@);
        }
        if let Some(p) = &self.parent {
            proof {
                assert(self@.skip(1) =~= p@);
            }
            count += p.size();
        } else {
            proof {
                assert(self@.skip(1) =~= Seq::empty());
                assert(chain_total(self@.skip(1)) == 0);
            }
        }
        count
    }

    /// Whether `k` is bound at the innermost level.
    pub fn contains_local(&self, k: &K) -> (b: bool)
        requires
            obeys_key_model::<K>(),
        ensures
            b == self@[0].contains_key(*k),
    {
        self.local.contains_key(k)
    }

    /// Whether `k` is bound at any level.
    pub fn contains(&self, k: &K) -> (b: bool)
        requires
            obeys_key_model::<K>(),
        ensures
            b == chain_bound(self@, *k),
    {
        let mut tmp = self;
        let ghost mut i: int = 0;
        loop
            invariant
                obeys_key_model::<K>(),
                0 <= i < self@.len(),
                tmp@ =~= self@.skip(i),
                forall|j: int| 0 <= j < i ==> !(#[trigger] self@[j]).contains_key(*k),
            decreases self@.len() - i,
        {
            assert(tmp@[0] == tmp.local@);
            if tmp.local.contains_key(k) {
                assert(self@[i].contains_key(*k));
                return true;
            }
            match &tmp.parent {
                Some(e) => {
                    proof {
                        assert(tmp@.skip(1) =~= e@);
                        assert(e@ =~= self@.skip(i + 1));
                        assert(e@.len() >= 1);
                        i = i + 1;
                    }
                    tmp = &**e;
                },
                None => {
                    assert(tmp@.len() == 1);
                    return false;
                },
            }
        }
    }

    /// The value of `k` at the innermost level that binds it.
    pub fn get(&self, k: &K) -> (found: Option<&V>)
        requires
            obeys_key_model::<K>(),
        ensures
            match found {
                Some(v) => chain_lookup(self@, *k) == Some(*v),
                None => chain_lookup(self@, *k) is None,
            },
        decreases self,
    {
        assert(self@[0] == self.local@);
        if let Some(v) = self.local.get(k) {
            Some(v)
        } else {
            if let Some(p) = &self.parent {
                assert(self@.skip(1) =~= p@);
                p.get(k)
            } else {
                assert(self@.skip(1) =~= Seq::empty());
                assert(chain_lookup(self@.skip(1), *k) is None);
                None
            }
        }
    }

    /// A mutable borrow of the value of `k` at the innermost level that binds
    /// it, which may be an ancestor. What is written through it becomes the
    /// value of `k` at that level.
    pub fn get_mut(&mut self, k: &K) -> (slot: Option<&mut V>)
        requires
            obeys_key_model::<K>(),
        ensures
            match slot {
                Some(v) => chain_lookup(old(self)@, *k) == Some(*v) && final(self)@
                    =~= chain_assign(old(self)@, *k, *final(v)),
                None => chain_lookup(old(self)@, *k) is None && final(self)@ =~= old(self)@,
            },
        decreases *old(self),
    {
        let ghost before = self@;
        assert(before[0] == self.local@);
        if self.local.contains_key(k) {
            value_mut(&mut self.local, k)
        } else {
            match &mut self.parent {
                Some(p) => {
                    let ghost rest = p@;
                    assert(before.skip(1) =~= rest);
                    p.get_mut(k)
                },
                None => {
                    assert(before.skip(1) =~= Seq::empty());
                    assert(chain_lookup(before.skip(1), *k) is None);
                    None
                },
            }
        }
    }

    /// Binds `k` to `v` at the innermost level, unless some level binds `k`
    /// already: then nothing changes and the pair comes back.
    pub fn define(&mut self, k: K, v: V) -> (rejected: Option<(K, V)>)
        requires
            obeys_key_model::<K>(),
        ensures
            final(self)@ == chain_define(old(self)@, k, v),
            rejected == if chain_bound(old(self)@, k) {
                Some((k, v))
            } else {
                None
            },
    {
        if self.contains(&k) {
            Some((k, v))
        } else {
            let ghost before = self@;
            self.local.insert(k, v);
            assert(self@ =~= before.update(0, before[0].insert(k, v)));
            None
        }
    }

    /// Binds `k` to `v` at the innermost level, whatever the ancestors bind,
    /// and returns the value that the innermost level had for `k`.
    pub fn set(&mut self, k: K, v: V) -> (previous: Option<V>)
        requires
            obeys_key_model::<K>(),
        ensures
            final(self)@ == chain_set(old(self)@, k, v),
            previous == if old(self)@[0].contains_key(k) {
                Some(old(self)@[0][k])
            } else {
                None
            },
    {
        let ghost before = self@;
        let previous = self.local.insert(k, v);
        assert(self@ =~= before.update(0, before[0].insert(k, v)));
        previous
    }

    /// Overwrites the value of `k` at the innermost level that binds it and
    /// returns a view of the new value; where no level binds `k`, nothing
    /// changes and `v` comes back.
    pub fn update(&mut self, k: &K, v: V) -> (outcome: Updated<&V, V>)
        requires
            obeys_key_model::<K>(),
        ensures
            match outcome {
                Updated::Left(stored) => {
                    &&& chain_bound(old(self)@, *k)
                    &&& *stored == v
                    &&& final(self)@ == chain_assign(old(self)@, *k, v)
                },
                Updated::Right(unused) => {
                    &&& !chain_bound(old(self)@, *k)
                    &&& unused == v
                    &&& final(self)@ == old(self)@
                },
            },
    {
        proof {
            lemma_lookup_bound(self@, *k);
            lemma_assign(self@, *k, v);
        }
        if let Some(slot) = self.get_mut(k) {
            *slot = v;
            Updated::Left(self.get(k).unwrap())
        } else {
            Updated::Right(v)
        }
    }

    /// Lays the pairs down in a single level. The pairs are taken from the
    /// back, and a key that is already there is left alone, so the last pair
    /// of each key is the one that stays.
    fn collect_pairs(pairs: Vec<(K, V)>) -> (env: Envr<K, V>)
        ensures
            obeys_key_model::<K>() ==> env@ == seq![pairs_map(pairs@)],
    {
        let ghost all = pairs@;
        let mut rest = pairs;
        let mut local: HashMap<K, V> = HashMap::new();
        while rest.len() > 0
            invariant
                obeys_key_model::<K>() ==> pairs_map(rest@).union_prefer_right(local@)
                    =~= pairs_map(all),
            decreases rest.len(),
        {
            let ghost before = rest@;
            let (k, v) = rest.pop().unwrap();
            assert(rest@ =~= before.drop_last());
            if !local.contains_key(&k) {
                local.insert(k, v);
            }
        }
        let env = Envr { local, parent: None };
        proof {
            if obeys_key_model::<K>() {
                assert(rest@ =~= Seq::empty());
                assert(local@ =~= pairs_map(all));
                assert(env@ =~= seq![pairs_map(all)]);
            }
        }
        env
    }

    /// The whole chain merged into one root environment. The levels are laid
    /// down innermost first and each further level overwrites what is there:
    /// on a shadowed key the outermost binding remains.
    pub fn flatten(self) -> (env: Envr<K, V>)
        requires
            obeys_key_model::<K>(),
        ensures
            env@ == seq![chain_merge(self@)],
    {
        let ghost all = self@;
        let mut local: HashMap<K, V> = HashMap::new();
        let mut tmp = self;
        loop
            invariant_except_break
                obeys_key_model::<K>(),
                tmp@.len() >= 1,
                local@.union_prefer_right(chain_merge(tmp@)) =~= chain_merge(all),
            ensures
                local@ =~= chain_merge(all),
            decreases tmp@.len(),
        {
            let ghost cur = tmp@;
            let ghost base = local@;
            let Envr { local: level, parent } = tmp;
            let ghost level_map = level@;
            assert(cur[0] == level_map);
            let mut pairs = into_pairs(level);
            proof {
                lemma_pairs_map(pairs@);
                assert(pairs_map(pairs@) =~= level_map);
            }
            while pairs.len() > 0
                invariant
                    obeys_key_model::<K>(),
                    local@.union_prefer_right(pairs_map(pairs@)) =~= base.union_prefer_right(
                        level_map,
                    ),
                    forall|i: int, j: int|
                        0 <= i < j < pairs@.len() ==> (#[trigger] pairs@[i]).0 != (
                        #[trigger] pairs@[j]).0,
                decreases pairs.len(),
            {
                let ghost before = pairs@;
                let (k, v) = pairs.pop().unwrap();
                proof {
                    assert(pairs@ =~= before.drop_last());
                    lemma_pairs_map(pairs@);
                    assert(!pairs_map(pairs@).contains_key(k)) by {
                        if pairs_map(pairs@).contains_key(k) {
                            let i = choose|i: int|
                                0 <= i < pairs@.len() && (#[trigger] pairs@[i]).0 == k;
                            assert(before[i].0 != before[before.len() - 1].0);
                        }
                    }
                }
                local.insert(k, v);
            }
            assert(pairs@ =~= Seq::empty());
            assert(local@ =~= base.union_prefer_right(level_map));
            assert(chain_merge(cur) == level_map.union_prefer_right(chain_merge(cur.skip(1))));
            match parent {
                Some(p) => {
                    assert(cur.skip(1) =~= p@);
                    tmp = *p;
                },
                None => {
                    assert(cur.skip(1) =~= Seq::empty());
                    assert(chain_merge(cur.skip(1)) =~= Map::empty());
                    break ;
                },
            }
        }
        Envr { local, parent: None }
    }

    /// For each level, innermost first, an iterator over the keys of that
    /// level alone.
    pub fn keylist(&self) -> (list: Vec<Keys<'_, K, V>>)
        requires
            obeys_key_model::<K>(),
        ensures
            list@.len() == self@.len(),
            forall|i: int|
                0 <= i < list@.len() ==> {
                    let keys = (#[trigger] list@[i]).remaining();
                    &&& keys.unref().to_set() == self@[i].dom()
                    &&& keys.no_duplicates()
                    &&& keys.len() == self@[i].len()
                },
    {
        let mut list: Vec<Keys<'_, K, V>> = Vec::new();
        let mut tmp = self;
        let ghost mut i: int = 0;
        loop
            invariant_except_break
                obeys_key_model::<K>(),
                0 <= i < self@.len(),
                tmp@ =~= self@.skip(i),
                list@.len() == i,
                forall|j: int|
                    0 <= j < i ==> {
                        let keys = (#[trigger] list@[j]).remaining();
                        &&& keys.unref().to_set() == self@[j].dom()
                        &&& keys.no_duplicates()
                        &&& keys.len() == self@[j].len()
                    },
            ensures
                list@.len() == self@.len(),
                forall|j: int|
                    0 <= j < list@.len() ==> {
                        let keys = (#[trigger] list@[j]).remaining();
                        &&& keys.unref().to_set() == self@[j].dom()
                        &&& keys.no_duplicates()
                        &&& keys.len() == self@[j].len()
                    },
            decreases self@.len() - i,
        {
            assert(tmp@[0] == tmp.local@);
            list.push(tmp.local.keys());
            match &tmp.parent {
                Some(p) => {
                    proof {
                        p.lemma_nonempty();
                        assert(tmp@.skip(1) =~= p@);
                        assert(p@ =~= self@.skip(i + 1));
                        i = i + 1;
                    }
                    tmp = &**p;
                },
                None => {
                    assert(tmp@.len() == 1);
                    break ;
                },
            }
        }
        list
    }

    /// The keys of every level, innermost level first; a key that several
    /// levels bind occurs once for each of them.
    fn bound_keys(&self) -> (keys: Vec<&K>)
        requires
            obeys_key_model::<K>(),
        ensures
            forall|j: int| 0 <= j < keys@.len() ==> chain_bound(self@, *#[trigger] keys@[j]),
            forall|k: K| #[trigger]
                chain_bound(self@, k) ==> exists|j: int|
                    0 <= j < keys@.len() && *#[trigger] keys@[j] == k,
    {
        let mut keys: Vec<&K> = Vec::new();
        let mut tmp = self;
        let ghost mut i: int = 0;
        loop
            invariant_except_break
                obeys_key_model::<K>(),
                0 <= i < self@.len(),
                tmp@ =~= self@.skip(i),
                forall|j: int| 0 <= j < keys@.len() ==> chain_bound(self@, *#[trigger] keys@[j]),
                forall|k: K| #[trigger]
                    chain_bound(self@.take(i), k) ==> exists|j: int|
                        0 <= j < keys@.len() && *#[trigger] keys@[j] == k,
            ensures
                forall|j: int| 0 <= j < keys@.len() ==> chain_bound(self@, *#[trigger] keys@[j]),
                forall|k: K| #[trigger]
                    chain_bound(self@, k) ==> exists|j: int|
                        0 <= j < keys@.len() && *#[trigger] keys@[j] == k,
            decreases self@.len() - i,
        {
            assert(tmp@[0] == tmp.local@);
            assert(self@[i] == tmp.local@);
            let level = keys_of(&tmp.local);
            let ghost before = keys@;
            let mut n: usize = 0;
            proof {
                assert forall|j: int| 0 <= j < level@.len() implies chain_bound(
                    self@,
                    *#[trigger] level@[j],
                ) by {
                    assert(self@[i].contains_key(*level@[j]));
                }
            }
            while n < level.len()
                invariant
                    n <= level.len(),
                    keys@ =~= before + level@.take(n as int),
                decreases level.len() - n,
            {
                keys.push(level[n]);
                n += 1;
            }
            proof {
                assert(level@.take(level@.len() as int) =~= level@);
                assert forall|j: int| 0 <= j < keys@.len() implies chain_bound(
                    self@,
                    *#[trigger] keys@[j],
                ) by {
                    if j >= before.len() {
                        assert(keys@[j] == level@[j - before.len()]);
                    } else {
                        assert(keys@[j] == before[j]);
                    }
                }
                assert forall|k: K| #[trigger]
                    chain_bound(self@.take(i + 1), k) implies exists|j: int|
                    0 <= j < keys@.len() && *#[trigger] keys@[j] == k by {
                    lemma_bound_take(self@, i, k);
                    if chain_bound(self@.take(i), k) {
                        let j = choose|j: int| 0 <= j < before.len() && *#[trigger] before[j] == k;
                        assert(*keys@[j] == k);
                    } else {
                        assert(tmp.local@.contains_key(k));
                        let j = choose|j: int| 0 <= j < level@.len() && *#[trigger] level@[j] == k;
                        assert(*keys@[before.len() + j] == k);
                    }
                }
            }
            match &tmp.parent {
                Some(p) => {
                    proof {
                        p.lemma_nonempty();
                        assert(tmp@.skip(1) =~= p@);
                        assert(p@ =~= self@.skip(i + 1));
                        i = i + 1;
                    }
                    tmp = &**p;
                },
                None => {
                    assert(tmp@.len() == 1);
                    assert(self@.take(i + 1) =~= self@);
                    break ;
                },
            }
        }
        keys
    }

    /// The keys bound anywhere in the chain, each once.
    pub fn keyset(&self) -> (keys: HashSet<&K>)
        requires
            obeys_key_model::<K>(),
        ensures
            forall|k: K|
                #![trigger keys@.contains(&k)]
                keys@.contains(&k) <==> chain_keys(self@).contains(k),
    {
        let all = self.bound_keys();
        let mut set: HashSet<&K> = HashSet::new();
        let mut n: usize = 0;
        while n < all.len()
            invariant
                obeys_key_model::<K>(),
                n <= all.len(),
                forall|k: K|
                    #![trigger set@.contains(&k)]
                    set@.contains(&k) <==> exists|j: int| 0 <= j < n && *#[trigger] all@[j] == k,
            decreases all.len() - n,
        {
            let ghost seen = set@;
            insert_borrowed_key(&mut set, all[n]);
            proof {
                assert forall|k: K|
                    #![trigger set@.contains(&k)]
                    set@.contains(&k) <==> exists|j: int|
                        0 <= j < n + 1 && *#[trigger] all@[j] == k by {
                    if *all@[n as int] == k {
                    }
                    if seen.contains(&k) {
                        let j = choose|j: int| 0 <= j < n && *#[trigger] all@[j] == k;
                        assert(*all@[j] == k);
                    }
                }
            }
            n += 1;
        }
        proof {
            assert forall|k: K|
                #![trigger set@.contains(&k)]
                set@.contains(&k) <==> chain_keys(self@).contains(k) by {
                if set@.contains(&k) {
                    let j = choose|j: int| 0 <= j < n && *#[trigger] all@[j] == k;
                    assert(chain_bound(self@, *all@[j]));
                }
            }
        }
        set
    }

    /// The values bound to `k`, from the innermost level that binds it to the
    /// outermost.
    fn values_of(&self, k: &K) -> (values: Vec<&V>)
        requires
            obeys_key_model::<K>(),
        ensures
            values@.unref() == chain_stack(self@, *k),
    {
        let mut values: Vec<&V> = Vec::new();
        let mut tmp = self;
        let ghost mut i: int = 0;
        loop
            invariant_except_break
                obeys_key_model::<K>(),
                0 <= i < self@.len(),
                tmp@ =~= self@.skip(i),
                values@.unref() =~= chain_stack(self@.take(i), *k),
            ensures
                values@.unref() =~= chain_stack(self@, *k),
            decreases self@.len() - i,
        {
            assert(tmp@[0] == tmp.local@);
            assert(self@.take(i + 1).drop_last() =~= self@.take(i));
            assert(self@.take(i + 1).last() == self@[i]);
            if let Some(v) = tmp.local.get(k) {
                values.push(v);
            }
            assert(values@.unref() =~= chain_stack(self@.take(i + 1), *k));
            match &tmp.parent {
                Some(p) => {
                    proof {
                        p.lemma_nonempty();
                        assert(tmp@.skip(1) =~= p@);
                        assert(p@ =~= self@.skip(i + 1));
                        i = i + 1;
                    }
                    tmp = &**p;
                },
                None => {
                    assert(tmp@.len() == 1);
                    assert(self@.take(i + 1) =~= self@);
                    break ;
                },
            }
        }
        values
    }

    /// For each key bound anywhere in the chain, all the values bound to it,
    /// from the innermost level to the outermost.
    pub fn stack(&self) -> (stacks: HashMap<&K, Vec<&V>>)
        requires
            obeys_key_model::<K>(),
        ensures
            forall|k: K|
                #![trigger stacks@.contains_key(&k)]
                stacks@.contains_key(&k) <==> chain_keys(self@).contains(k),
            forall|k: K|
                #![trigger stacks@.contains_key(&k)]
                stacks@.contains_key(&k) ==> stacks@[&k]@.unref() == chain_stack(self@, k),
    {
        let all = self.bound_keys();
        let mut map: HashMap<&K, Vec<&V>> = HashMap::new();
        let mut n: usize = 0;
        while n < all.len()
            invariant
                obeys_key_model::<K>(),
                n <= all.len(),
                forall|k: K|
                    #![trigger map@.contains_key(&k)]
                    map@.contains_key(&k) <==> exists|j: int|
                        0 <= j < n && *#[trigger] all@[j] == k,
                forall|k: K|
                    #![trigger map@.contains_key(&k)]
                    map@.contains_key(&k) ==> map@[&k]@.unref() == chain_stack(self@, k),
            decreases all.len() - n,
        {
            let ghost seen = map@;
            let k = all[n];
            let values = self.values_of(k);
            insert_borrowed_entry(&mut map, k, values);
            proof {
                assert forall|x: K|
                    #![trigger map@.contains_key(&x)]
                    map@.contains_key(&x) <==> exists|j: int|
                        0 <= j < n + 1 && *#[trigger] all@[j] == x by {
                    if *all@[n as int] == x {
                    }
                    if seen.contains_key(&x) {
                        let j = choose|j: int| 0 <= j < n && *#[trigger] all@[j] == x;
                        assert(*all@[j] == x);
                    }
                }
                assert forall|x: K| map@.contains_key(&x) implies map@[&x]@.unref()
                    == chain_stack(self@, x) by {
                    if *k != x {
                        assert(seen.contains_key(&x));
                        assert(map@[&x] == seen[&x]);
                    }
                }
            }
            n += 1;
        }
        proof {
            assert forall|k: K|
                #![trigger map@.contains_key(&k)]
                map@.contains_key(&k) <==> chain_keys(self@).contains(k) by {
                if map@.contains_key(&k) {
                    let j = choose|j: int| 0 <= j < n && *#[trigger] all@[j] == k;
                    assert(chain_bound(self@, *all@[j]));
                }
            }
        }
        map
    }

    /// The bindings of this chain whose keys `other` binds at no level, in a
    /// root environment of borrowed keys and values. Only keys are compared.
    pub fn difference<'t>(&'t self, other: &'t Envr<K, V>) -> (env: Envr<&'t K, &'t V>)
        requires
            obeys_key_model::<K>(),
        ensures
            env@.len() == 1,
            forall|k: K|
                #![trigger env@[0].contains_key(&k)]
                env@[0].contains_key(&k) <==> chain_difference(self@, other@).contains_key(k),
            forall|k: K|
                #![trigger env@[0].contains_key(&k)]
                env@[0].contains_key(&k) ==> *env@[0][&k] == chain_difference(self@, other@)[k],
    {
        let all = self.bound_keys();
        let mut map: HashMap<&K, &V> = HashMap::new();
        let mut n: usize = 0;
        while n < all.len()
            invariant
                obeys_key_model::<K>(),
                n <= all.len(),
                forall|j: int| 0 <= j < all@.len() ==> chain_bound(self@, *#[trigger] all@[j]),
                forall|k: K|
                    #![trigger map@.contains_key(&k)]
                    map@.contains_key(&k) <==> !chain_bound(other@, k) && exists|j: int|
                        0 <= j < n && *#[trigger] all@[j] == k,
                forall|k: K|
                    #![trigger map@.contains_key(&k)]
                    map@.contains_key(&k) ==> chain_lookup(self@, k) == Some(*map@[&k]),
            decreases all.len() - n,
        {
            let ghost seen = map@;
            let k = all[n];
            if !other.contains(k) {
                proof {
                    assert(chain_bound(self@, *all@[n as int]));
                    lemma_lookup_bound(self@, *k);
                }
                if let Some(v) = self.get(k) {
                    insert_borrowed_entry(&mut map, k, v);
                }
            }
            proof {
                assert forall|x: K|
                    #![trigger map@.contains_key(&x)]
                    map@.contains_key(&x) <==> !chain_bound(other@, x) && exists|j: int|
                        0 <= j < n + 1 && *#[trigger] all@[j] == x by {
                    if *all@[n as int] == x {
                    }
                    if seen.contains_key(&x) {
                        let j = choose|j: int| 0 <= j < n && *#[trigger] all@[j] == x;
                        assert(*all@[j] == x);
                    }
                }
                assert forall|x: K| map@.contains_key(&x) implies chain_lookup(self@, x) == Some(
                    *map@[&x],
                ) by {
                    if *k != x {
                        assert(seen.contains_key(&x));
                        assert(map@[&x] == seen[&x]);
                    }
                }
            }
            n += 1;
        }
        let env = Envr { local: map, parent: None };
        proof {
            assert(env@ =~= seq![map@]);
            assert forall|k: K|
                #![trigger env@[0].contains_key(&k)]
                env@[0].contains_key(&k) <==> chain_difference(self@, other@).contains_key(k) by {
                if map@.contains_key(&k) {
                    let j = choose|j: int| 0 <= j < n && *#[trigger] all@[j] == k;
                    assert(chain_bound(self@, *all@[j]));
                }
            }
        }
        env
    }
}

/// The keys of a map, each once, in the order in which the map hands them out.
fn keys_of<K: Eq + Hash, V>(m: &HashMap<K, V>) -> (keys: Vec<&K>)
    requires
        obeys_key_model::<K>(),
    ensures
        keys@.len() == m@.len(),
        forall|i: int| 0 <= i < keys@.len() ==> m@.contains_key(*#[trigger] keys@[i]),
        forall|k: K| #[trigger]
            m@.contains_key(k) ==> exists|i: int| 0 <= i < keys@.len() && *#[trigger] keys@[i] == k,
        forall|i: int, j: int|
            0 <= i < j < keys@.len() ==> *#[trigger] keys@[i] != *#[trigger] keys@[j],
{
    let mut keys: Vec<&K> = Vec::new();
    for k in it: m.keys()
        invariant
            keys@ == it.seq().take(it.index()),
    {
        keys.push(k);
    }
    proof {
        assert(keys@ =~= spec_keys_iter(m).remaining());
        let plain = keys@.unref();
        assert(plain.to_set() == m@.dom());
        assert forall|i: int| 0 <= i < keys@.len() implies m@.contains_key(
            *#[trigger] keys@[i],
        ) by {
            assert(plain[i] == *keys@[i]);
            assert(plain.to_set().contains(plain[i]));
        }
        assert forall|k: K| #[trigger] m@.contains_key(k) implies exists|i: int|
            0 <= i < keys@.len() && *#[trigger] keys@[i] == k by {
            assert(plain.to_set().contains(k));
            let i = choose|i: int| 0 <= i < plain.len() && plain[i] == k;
            assert(*keys@[i] == k);
        }
    }
    keys
}

impl<K: Hashley, V: Hashley> From<Vec<(K, V)>> for Envr<K, V> {
    /// A root environment that binds what the pairs say; where a key occurs
    /// more than once, its last pair counts.
    fn from(pairs: Vec<(K, V)>) -> (env: Self)
        ensures
            obeys_key_model::<K>() ==> env@ == seq![pairs_map(pairs@)],
    {
        Envr::collect_pairs(pairs)
    }
}

/// The environment built from pairs is described by its levels, in the
/// contract of `from`; it is not given as a value here.
impl<K: Hashley, V: Hashley> FromSpecImpl<Vec<(K, V)>> for Envr<K, V> {
    open spec fn obeys_from_spec() -> bool {
        false
    }

    open spec fn from_spec(pairs: Vec<(K, V)>) -> Self {
        arbitrary()
    }
}

impl<K: Hashley, V: Hashley, const N: usize> From<[(K, V); N]> for Envr<K, V> {
    /// A root environment that binds what the pairs say; where a key occurs
    /// more than once, its last pair counts.
    fn from(pairs: [(K, V); N]) -> (env: Self)
        ensures
            obeys_key_model::<K>() ==> env@ == seq![pairs_map(pairs@)],
    {
        Envr::collect_pairs(array_into_vec(pairs))
    }
}

/// The environment built from pairs is described by its levels, in the
/// contract of `from`; it is not given as a value here.
impl<K: Hashley, V: Hashley, const N: usize> FromSpecImpl<[(K, V); N]> for Envr<K, V> {
    open spec fn obeys_from_spec() -> bool {
        false
    }

    open spec fn from_spec(pairs: [(K, V); N]) -> Self {
        arbitrary()
    }
}

/// The bindings of a map as text, each once, in the order in which the map
/// hands out its keys.
fn shown_level<K: Eq + Hash + Display, V: Display>(m: &HashMap<K, V>) -> (entries: Vec<
    (String, String),
>)
    requires
        obeys_key_model::<K>(),
    ensures
        shows_level(m@, entries@),
{
    let keys = keys_of(m);
    let mut entries: Vec<(String, String)> = Vec::new();
    let mut n: usize = 0;
    while n < keys.len()
        invariant
            obeys_key_model::<K>(),
            n <= keys.len(),
            entries@.len() == n,
            forall|j: int| 0 <= j < keys@.len() ==> m@.contains_key(*#[trigger] keys@[j]),
            forall|j: int|
                0 <= j < n ==> {
                    &&& to_string_from_display_ensures::<K>(keys@[j], (#[trigger] entries@[j]).0)
                    &&& to_string_from_display_ensures::<V>(&m@[*keys@[j]], entries@[j].1)
                },
        decreases keys.len() - n,
    {
        let k = keys[n];
        assert(m@.contains_key(*keys@[n as int]));
        let v = m.get(k).unwrap();
        entries.push((k.to_string(), v.to_string()));
        n += 1;
    }
    proof {
        let plain = keys@.unref();
        assert forall|k: K| #[trigger] m@.contains_key(k) <==> plain.contains(k) by {
            if m@.contains_key(k) {
                let j = choose|j: int| 0 <= j < keys@.len() && *#[trigger] keys@[j] == k;
                assert(plain[j] == k);
            }
            if plain.contains(k) {
                let j = choose|j: int| 0 <= j < plain.len() && plain[j] == k;
                assert(m@.contains_key(*keys@[j]));
            }
        }
        assert(plain.no_duplicates()) by {
            assert forall|i: int, j: int| 0 <= i < plain.len() && 0 <= j < plain.len() && i != j
                implies plain[i] != plain[j] by {
                if i < j {
                    assert(*keys@[i] != *keys@[j]);
                } else {
                    assert(*keys@[j] != *keys@[i]);
                }
            }
        }
        assert(shows_keys(m@, plain, entries@));
    }
    entries
}

impl<K: Eq + Hash + Display, V: Display> Envr<K, V> {
    /// The bindings of every level as text, innermost level first.
    fn shown_levels(&self) -> (shown: Vec<Vec<(String, String)>>)
        requires
            obeys_key_model::<K>(),
        ensures
            shows_chain(self@, shown@),
    {
        let mut shown: Vec<Vec<(String, String)>> = Vec::new();
        let mut tmp = self;
        let ghost mut i: int = 0;
        loop
            invariant_except_break
                obeys_key_model::<K>(),
                0 <= i < self@.len(),
                tmp@ =~= self@.skip(i),
                shown@.len() == i,
                forall|j: int| 0 <= j < i ==> shows_level(self@[j], (#[trigger] shown@[j])@),
            ensures
                shows_chain(self@, shown@),
            decreases self@.len() - i,
        {
            assert(tmp@[0] == tmp.local@);
            shown.push(shown_level(&tmp.local));
            match &tmp.parent {
                Some(p) => {
                    proof {
                        p.lemma_nonempty();
                        assert(tmp@.skip(1) =~= p@);
                        assert(p@ =~= self@.skip(i + 1));
                        i = i + 1;
                    }
                    tmp = &**p;
                },
                None => {
                    assert(tmp@.len() == 1);
                    break ;
                },
            }
        }
        shown
    }

    /// The environment as text: a block in braces with one line for each
    /// local binding, in the order in which the map hands them out, and
    /// below them the block of the parent, indented.
    pub fn render(&self) -> (text: String)
        requires
            obeys_key_model::<K>(),
        ensures
            exists|shown: Seq<Vec<(String, String)>>|
                shows_chain(self@, shown) && text@ == #[trigger] chain_text(shown),
    {
        let shown = self.shown_levels();
        render_levels(&shown)
    }
}

} // verus!
