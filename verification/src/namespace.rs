//! Namespace bindings that are scoped by element depth.

use vstd::prelude::*;
use crate::text::str_eq;

verus! {

/// A namespace declared in the document, identified by its URI.
#[derive(Debug)]
pub struct Namespace {
    pub url: String,
}

impl View for Namespace {
    type V = Seq<char>;

    open spec fn view(&self) -> Seq<char> {
        self.url@
    }
}

/// The map described by a list of bindings, where a later binding of a key
/// replaces an earlier one.
pub open spec fn pairs_map<W>(pairs: Seq<(Seq<char>, W)>) -> Map<Seq<char>, W>
    decreases pairs.len(),
{
    if pairs.len() == 0 {
        Map::empty()
    } else {
        pairs_map(pairs.drop_last()).insert(pairs.last().0, pairs.last().1)
    }
}

/// The bindings visible from the deepest level: every level overrides the
/// levels above it.
pub open spec fn merged<W>(levels: Seq<Map<Seq<char>, W>>) -> Map<Seq<char>, W>
    decreases levels.len(),
{
    if levels.len() == 0 {
        Map::empty()
    } else {
        merged(levels.drop_last()).union_prefer_right(levels.last())
    }
}

/// `levels` extended with empty levels until it has at least `n` of them.
pub open spec fn padded<W>(levels: Seq<Map<Seq<char>, W>>, n: nat) -> Seq<Map<Seq<char>, W>> {
    if levels.len() >= n {
        levels
    } else {
        levels + Seq::new((n - levels.len()) as nat, |i: int| Map::<Seq<char>, W>::empty())
    }
}

/// `levels` with `key` bound to `value` at `depth`, empty levels created up
/// to it where needed.
pub open spec fn bind_at<W>(levels: Seq<Map<Seq<char>, W>>, depth: nat, key: Seq<char>, value: W) -> Seq<Map<Seq<char>, W>> {
    padded(levels, depth + 1).update(depth as int, padded(levels, depth + 1)[depth as int].insert(key, value))
}

/// `levels` without the level at `depth` and the deeper ones.
pub open spec fn drop_depth<W>(levels: Seq<Map<Seq<char>, W>>, depth: nat) -> Seq<Map<Seq<char>, W>> {
    if depth < levels.len() {
        levels.take(depth as int)
    } else {
        levels
    }
}

/// The view of a stored level: its keys and values, each by its view.
pub open spec fn level_pairs<Val: View>(level: Seq<(String, Val)>) -> Seq<(Seq<char>, Val::V)> {
    level.map_values(|e: (String, Val)| (e.0@, e.1@))
}

/// The binding that a level ends up with for each key.
pub open spec fn level_map<Val: View>(level: Seq<(String, Val)>) -> Map<Seq<char>, Val::V> {
    pairs_map(level_pairs(level))
}

/// A binding for `key` occurs in `pairs` at index `j`, and at no later index.
pub open spec fn last_binding<W>(pairs: Seq<(Seq<char>, W)>, key: Seq<char>, j: int) -> bool {
    &&& 0 <= j < pairs.len()
    &&& pairs[j].0 == key
    &&& forall|i: int| j < i < pairs.len() ==> #[trigger] pairs[i].0 != key
}

/// The value of a key is the one of its last binding.
pub proof fn lemma_pairs_map_last_binding<W>(pairs: Seq<(Seq<char>, W)>, key: Seq<char>, j: int)
    requires
        last_binding(pairs, key, j),
    ensures
        pairs_map(pairs).contains_key(key),
        pairs_map(pairs)[key] == pairs[j].1,
    decreases pairs.len(),
{
    if j < pairs.len() - 1 {
        let init = pairs.drop_last();
        assert(last_binding(init, key, j)) by {
            assert forall|i: int| j < i < init.len() implies #[trigger] init[i].0 != key by {
                assert(init[i] == pairs[i]);
            }
        }
        lemma_pairs_map_last_binding(init, key, j);
        assert(pairs[pairs.len() - 1].0 != key);
    }
}

/// A key that is never bound is absent from the map.
pub proof fn lemma_pairs_map_unbound<W>(pairs: Seq<(Seq<char>, W)>, key: Seq<char>)
    requires
        forall|i: int| 0 <= i < pairs.len() ==> #[trigger] pairs[i].0 != key,
    ensures
        !pairs_map(pairs).contains_key(key),
    decreases pairs.len(),
{
    if pairs.len() > 0 {
        let init = pairs.drop_last();
        assert forall|i: int| 0 <= i < init.len() implies #[trigger] init[i].0 != key by {
            assert(init[i] == pairs[i]);
        }
        lemma_pairs_map_unbound(init, key);
        assert(pairs[pairs.len() - 1].0 != key);
    }
}

/// Dropping one binding of `key` does not matter once `key` is bound anew.
pub proof fn lemma_pairs_map_rebind<W>(pairs: Seq<(Seq<char>, W)>, j: int, key: Seq<char>, value: W)
    requires
        0 <= j < pairs.len(),
        pairs[j].0 == key,
    ensures
        pairs_map(pairs.remove(j)).insert(key, value) =~= pairs_map(pairs).insert(key, value),
    decreases pairs.len(),
{
    let removed = pairs.remove(j);
    if j == pairs.len() - 1 {
        assert(removed =~= pairs.drop_last());
    } else {
        let init = pairs.drop_last();
        let last = pairs.last();
        lemma_pairs_map_rebind(init, j, key, value);
        assert(removed =~= init.remove(j).push(last));
        assert(removed.drop_last() =~= init.remove(j));
        let m = pairs_map(init.remove(j));
        assert(pairs_map(removed) == m.insert(last.0, last.1));
        assert(pairs_map(pairs) == pairs_map(init).insert(last.0, last.1));
        assert(m.insert(key, value) =~= pairs_map(init).insert(key, value));
        if last.0 == key {
            assert(m.insert(last.0, last.1).insert(key, value) =~= m.insert(key, value));
            assert(pairs_map(init).insert(last.0, last.1).insert(key, value)
                =~= pairs_map(init).insert(key, value));
        } else {
            assert(m.insert(last.0, last.1).insert(key, value) =~= m.insert(key, value).insert(
                last.0,
                last.1,
            ));
            assert(pairs_map(init).insert(last.0, last.1).insert(key, value) =~= pairs_map(
                init,
            ).insert(key, value).insert(last.0, last.1));
        }
    }
}

/// Maps from names to values, organised in levels by element depth: a binding
/// at a deeper level hides a binding of the same name at a shallower one, and
/// a whole level and everything below it can be dropped at once.
#[derive(Debug)]
pub struct DepthSensitiveMap<Val> {
    levels: Vec<Vec<(String, Val)>>,
}

impl<Val: View> View for DepthSensitiveMap<Val> {
    type V = Seq<Map<Seq<char>, Val::V>>;

    closed spec fn view(&self) -> Seq<Map<Seq<char>, Val::V>> {
        self.levels@.map_values(|l: Vec<(String, Val)>| level_map(l@))
    }
}

/// The bindings of a [`DepthSensitiveMap`] that are visible from its deepest
/// level, each name with the value of its deepest binding.
pub struct FlatMap<'a, Val> {
    entries: Vec<(&'a str, &'a Val)>,
}

impl<'a, Val: View> View for FlatMap<'a, Val> {
    type V = Map<Seq<char>, Val::V>;

    closed spec fn view(&self) -> Map<Seq<char>, Val::V> {
        pairs_map(self.entries@.map_values(|e: (&'a str, &'a Val)| (e.0@, e.1@)))
    }
}

impl<'a, Val: View> FlatMap<'a, Val> {
    /// The value bound to `key`, if any.
    pub fn get(&self, key: &str) -> (r: Option<&'a Val>)
        ensures
            match r {
                Some(v) => self@.contains_key(key@) && v@ == self@[key@],
                None => !self@.contains_key(key@),
            },
    {
        let ghost pairs = self.entries@.map_values(|e: (&'a str, &'a Val)| (e.0@, e.1@));
        let mut i = self.entries.len();
        while i > 0
            invariant
                i <= self.entries.len(),
                pairs == self.entries@.map_values(|e: (&'a str, &'a Val)| (e.0@, e.1@)),
                forall|k: int| i <= k < pairs.len() ==> #[trigger] pairs[k].0 != key@,
            decreases i,
        {
            i = i - 1;
            let e = &self.entries[i];
            if str_eq(e.0, key) {
                proof {
                    assert(pairs[i as int] == (e.0@, e.1@));
                    lemma_pairs_map_last_binding(pairs, key@, i as int);
                }
                return Some(e.1);
            }
            assert(pairs[i as int] == (e.0@, e.1@));
        }
        proof {
            lemma_pairs_map_unbound(pairs, key@);
        }
        None
    }
}

/// The index of the last binding of `key` in `level`, if there is one.
fn find_last_binding<Val: View>(level: &Vec<(String, Val)>, key: &String) -> (r: Option<usize>)
    ensures
        match r {
            Some(j) => last_binding(level_pairs(level@), key@, j as int),
            None => forall|k: int|
                0 <= k < level@.len() ==> #[trigger] level_pairs(level@)[k].0 != key@,
        },
{
    let ghost pairs = level_pairs(level@);
    let mut j = level.len();
    while j > 0
        invariant
            j <= level.len(),
            pairs == level_pairs(level@),
            forall|k: int| j <= k < pairs.len() ==> #[trigger] pairs[k].0 != key@,
        decreases j,
    {
        j = j - 1;
        assert(pairs[j as int] == (level@[j as int].0@, level@[j as int].1@));
        if level[j].0 == *key {
            return Some(j);
        }
    }
    None
}

impl<Val: View> DepthSensitiveMap<Val> {
    /// A map with no levels.
    pub fn new() -> (m: Self)
        ensures
            m@ == Seq::<Map<Seq<char>, Val::V>>::empty(),
    {
        let m = DepthSensitiveMap { levels: Vec::new() };
        assert(m@ =~= Seq::<Map<Seq<char>, Val::V>>::empty());
        m
    }

    /// Drops the level at `depth` and every deeper level.
    pub fn remove_depth(&mut self, depth: usize)
        ensures
            final(self)@ == drop_depth(old(self)@, depth as nat),
    {
        let ghost old_levels = self.levels@;
        self.levels.truncate(depth);
        proof {
            if depth < old_levels.len() {
                assert(self@ =~= old(self)@.take(depth as int));
            } else {
                assert(self@ =~= old(self)@);
            }
        }
    }

    /// Binds `key` to `value` at level `depth`, creating empty levels up to
    /// it where needed, and returns the value that this level bound to `key`
    /// before.
    pub fn insert_at_depth(&mut self, depth: usize, key: &str, value: Val) -> (r: Option<Val>)
        requires
            depth < usize::MAX,
        ensures
            final(self)@ == bind_at(old(self)@, depth as nat, key@, value@),
            match r {
                Some(v) => padded(old(self)@, depth as nat + 1)[depth as int].contains_key(key@)
                    && v@ == padded(old(self)@, depth as nat + 1)[depth as int][key@],
                None => !padded(old(self)@, depth as nat + 1)[depth as int].contains_key(key@),
            },
    {
        let ghost old_view = self@;
        let ghost target = padded(old_view, depth as nat + 1);
        assert(self.levels@.len() == old_view.len());
        assert(self@ =~= target.take(self.levels@.len() as int));
        while self.levels.len() <= depth
            invariant
                depth < usize::MAX,
                old_view.len() <= self.levels.len() <= target.len(),
                self@ =~= target.take(self.levels@.len() as int),
                target == padded(old_view, depth as nat + 1),
            decreases depth + 1 - self.levels.len(),
        {
            let fresh: Vec<(String, Val)> = Vec::new();
            assert(level_pairs(fresh@) =~= Seq::<(Seq<char>, Val::V)>::empty());
            self.levels.push(fresh);
            assert(self@ =~= target.take(self.levels@.len() as int));
        }
        assert(self@ =~= target);
        let mut level = self.levels.remove(depth);
        let ghost pairs = level_pairs(level@);
        assert(pairs_map(pairs) == target[depth as int]);
        let key_string = key.to_owned();
        let found = find_last_binding(&level, &key_string);
        let ghost new_pairs;
        let r = if let Some(j) = found {
            let (_, old_value) = level.remove(j);
            proof {
                lemma_pairs_map_last_binding(pairs, key@, j as int);
                lemma_pairs_map_rebind(pairs, j as int, key@, value@);
            }
            level.push((key_string, value));
            proof {
                new_pairs = level_pairs(level@);
                assert(new_pairs =~= pairs.remove(j as int).push((key@, value@)));
                assert(new_pairs.drop_last() =~= pairs.remove(j as int));
            }
            Some(old_value)
        } else {
            proof {
                lemma_pairs_map_unbound(pairs, key@);
            }
            level.push((key_string, value));
            proof {
                new_pairs = level_pairs(level@);
                assert(new_pairs =~= pairs.push((key@, value@)));
                assert(new_pairs.drop_last() =~= pairs);
            }
            None
        };
        assert(pairs_map(new_pairs) =~= target[depth as int].insert(key@, value@));
        self.levels.insert(depth, level);
        assert(self@ =~= target.update(depth as int, target[depth as int].insert(key@, value@)));
        r
    }

    /// The bindings visible from the deepest level.
    pub fn to_map(&self) -> (m: FlatMap<'_, Val>)
        ensures
            m@ == merged(self@),
    {
        let mut entries: Vec<(&str, &Val)> = Vec::new();
        let mut i: usize = 0;
        while i < self.levels.len()
            invariant
                i <= self.levels.len(),
                pairs_map(entries@.map_values(|e: (&str, &Val)| (e.0@, e.1@)))
                    =~= merged(self@.take(i as int)),
            decreases self.levels.len() - i,
        {
            let level = &self.levels[i];
            let ghost lp = level_pairs(level@);
            let ghost before = merged(self@.take(i as int));
            let mut j: usize = 0;
            while j < level.len()
                invariant
                    j <= level.len(),
                    lp == level_pairs(level@),
                    pairs_map(entries@.map_values(|e: (&str, &Val)| (e.0@, e.1@)))
                        =~= before.union_prefer_right(pairs_map(lp.take(j as int))),
                decreases level.len() - j,
            {
                let e = &level[j];
                let ghost old_entries = entries@;
                entries.push((e.0.as_str(), &e.1));
                proof {
                    let ev = entries@.map_values(|e: (&str, &Val)| (e.0@, e.1@));
                    assert(ev.drop_last() =~= old_entries.map_values(|e: (&str, &Val)| (e.0@, e.1@)));
                    assert(lp.take(j + 1).drop_last() =~= lp.take(j as int));
                    assert(lp[j as int] == (e.0@, e.1@));
                }
                j = j + 1;
            }
            proof {
                assert(lp.take(j as int) =~= lp);
                assert(self@.take(i + 1).drop_last() =~= self@.take(i as int));
                assert(self@[i as int] == level_map(level@));
            }
            i = i + 1;
        }
        assert(self@.take(i as int) =~= self@);
        FlatMap { entries }
    }
}

impl DepthSensitiveMap<Namespace> {
    /// A copy of these bindings.
    pub fn duplicate(&self) -> (r: Self)
        ensures
            r@ == self@,
    {
        let mut levels: Vec<Vec<(String, Namespace)>> = Vec::new();
        let mut i: usize = 0;
        while i < self.levels.len()
            invariant
                i <= self.levels.len(),
                levels@.len() == i,
                forall|k: int| 0 <= k < i ==> level_pairs(#[trigger] levels@[k]@) == level_pairs(self.levels@[k]@),
            decreases self.levels.len() - i,
        {
            let level = &self.levels[i];
            let mut copy: Vec<(String, Namespace)> = Vec::new();
            let mut j: usize = 0;
            while j < level.len()
                invariant
                    j <= level.len(),
                    level_pairs(copy@) =~= level_pairs(level@).take(j as int),
                decreases level.len() - j,
            {
                let e = &level[j];
                let ghost before = level_pairs(copy@);
                let key = e.0.clone();
                let ns = Namespace { url: e.1.url.clone() };
                assert(ns@ == e.1@ && key@ == e.0@);
                copy.push((key, ns));
                proof {
                    assert(level_pairs(copy@) =~= before.push((e.0@, e.1@)));
                    assert(level_pairs(level@).take(j + 1) =~= level_pairs(level@).take(j as int).push(
                        level_pairs(level@)[j as int],
                    ));
                }
                j = j + 1;
            }
            assert(level_pairs(level@).take(j as int) =~= level_pairs(level@));
            levels.push(copy);
            i = i + 1;
        }
        let r = DepthSensitiveMap { levels };
        assert(r@ =~= self@) by {
            assert forall|k: int| 0 <= k < r@.len() implies r@[k] == self@[k] by {
                assert(level_pairs(levels@[k]@) == level_pairs(self.levels@[k]@));
            }
        }
        r
    }
}

} // verus!
