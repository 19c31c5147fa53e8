//! Small reusable pieces: an insertion-ordered map keyed by strings, the
//! `MutDict` upsert trait, and the `Optional` conversion trait.

use vstd::prelude::*;

verus! {

/// Turns an ordered sequence of key/value pairs into a map; when a key
/// occurs more than once, the later pair wins.
pub open spec fn pairs_to_map<V>(s: Seq<(Seq<char>, V)>) -> Map<Seq<char>, V>
    decreases s.len(),
{
    if s.len() == 0 {
        Map::empty()
    } else {
        pairs_to_map(s.drop_last()).insert(s.last().0, s.last().1)
    }
}

/// Insert-or-replace by key: the one mutation an associative container
/// needs here.
pub trait MutDict<V> {
    /// Binds `key` to `value`, replacing any previous binding.
    fn set(&mut self, key: &str, value: V);
}

/// A mutable associative container keyed by strings.  Pairs keep their
/// insertion order, which makes every walk over the container
/// deterministic; keys are unique whenever `wf()` holds.
pub struct StrMap<V> {
    pairs: Vec<(String, V)>,
}

impl<V> View for StrMap<V> {
    type V = Seq<(Seq<char>, V)>;

    closed spec fn view(&self) -> Seq<(Seq<char>, V)> {
        self.pairs@.map_values(|p: (String, V)| (p.0@, p.1))
    }
}

impl<V> StrMap<V> {
    /// Each key occurs at most once.
    pub open spec fn wf(self) -> bool {
        forall|i: int, j: int|
            0 <= i < j < self@.len() ==> self@[i].0 != self@[j].0
    }

    /// The map this container denotes.
    pub open spec fn as_map(self) -> Map<Seq<char>, V> {
        pairs_to_map(self@)
    }

    /// Whether some pair carries `k`.
    pub open spec fn spec_contains(self, k: Seq<char>) -> bool {
        exists|i: int| 0 <= i < self@.len() && self@[i].0 == k
    }

    /// `pairs_to_map` holds a key exactly when some pair carries it, and
    /// maps it to the value of the last such pair.
    pub proof fn lemma_as_map_contains(self)
        ensures
            forall|k: Seq<char>|
                self.as_map().contains_key(k) <==> #[trigger] self.spec_contains(k),
            forall|i: int|
                0 <= i < self@.len() && (forall|j: int|
                    i < j < self@.len() ==> (#[trigger] self@[j]).0 != self@[i].0)
                    ==> self.as_map()[(#[trigger] self@[i]).0] == self@[i].1,
        decreases self@.len(),
    {
        lemma_pairs_to_map(self@);
    }

    pub fn new() -> (r: StrMap<V>)
        ensures
            r@ =~= Seq::<(Seq<char>, V)>::empty(),
            r.wf(),
    {
        StrMap { pairs: Vec::new() }
    }

    pub fn len(&self) -> (r: usize)
        ensures
            r == self@.len(),
    {
        self.pairs.len()
    }

    /// The key and value of the pair at position `i`.
    pub fn pair_at(&self, i: usize) -> (r: (&String, &V))
        requires
            i < self@.len(),
        ensures
            r.0@ == self@[i as int].0,
            *r.1 == self@[i as int].1,
    {
        let p = &self.pairs[i];
        (&p.0, &p.1)
    }

    /// Position of the pair carrying `key`, if any.
    fn position_of(&self, key: &str) -> (r: Option<usize>)
        ensures
            match r {
                Some(i) => i < self@.len() && self@[i as int].0 == key@,
                None => !self.spec_contains(key@),
            },
    {
        let owned_key = key.to_owned();
        let n = self.pairs.len();
        let mut i: usize = 0;
        while i < n
            invariant
                owned_key@ == key@,
                n == self@.len(),
                i <= n,
                forall|j: int| 0 <= j < i ==> self@[j].0 != key@,
            decreases n - i,
        {
            if self.pairs[i].0 == owned_key {
                return Some(i);
            }
            i = i + 1;
        }
        None
    }

    /// Looks `key` up.
    pub fn get(&self, key: &str) -> (r: Option<&V>)
        requires
            self.wf(),
        ensures
            match r {
                Some(v) => self.as_map().contains_key(key@) && *v == self.as_map()[key@],
                None => !self.as_map().contains_key(key@),
            },
    {
        proof {
            self.lemma_as_map_contains();
        }
        match self.position_of(key) {
            Some(i) => {
                proof {
                    let s = self@;
                    assert(s[i as int].0 == key@);
                    assert(self.spec_contains(key@));
                    assert(self.as_map().contains_key(key@));
                    assert forall|j: int| i < j < s.len() implies (#[trigger] s[j]).0 != s[i as int].0 by {}
                    assert(self.as_map()[s[i as int].0] == s[i as int].1);
                    assert(self@[i as int].1 == self.pairs@[i as int].1);
                }
                Some(&self.pairs[i].1)
            },
            None => None,
        }
    }

    /// Whether `key` is bound.
    pub fn contains(&self, key: &str) -> (r: bool)
        requires
            self.wf(),
        ensures
            r == self.as_map().contains_key(key@),
    {
        self.get(key).is_some()
    }
}

impl<V> MutDict<V> for StrMap<V> {
    /// Replaces the pair carrying `key` in place, or appends a new one.
    fn set(&mut self, key: &str, value: V)
        ensures
            old(self).wf() ==> final(self).wf(),
            old(self).spec_contains(key@) ==> (exists|i: int|
                0 <= i < old(self)@.len() && old(self)@[i].0 == key@
                    && final(self)@ =~= old(self)@.update(i, (key@, value))),
            !old(self).spec_contains(key@) ==> final(self)@ =~= old(self)@.push((key@, value)),
            old(self).wf() ==> final(self).as_map() =~= old(self).as_map().insert(key@, value),
            final(self).spec_contains(key@),
    {
        let ghost pre = self@;
        match self.position_of(key) {
            Some(i) => {
                self.pairs[i] = (key.to_owned(), value);
                proof {
                    assert(self@ =~= pre.update(i as int, (key@, value)));
                    assert(self@[i as int].0 == key@);
                    if old(self).wf() {
                        assert forall|p: int, q: int| 0 <= p < q < self@.len() implies
                            self@[p].0 != self@[q].0
                        by {
                            assert(pre[p].0 != pre[q].0);
                        }
                        assert forall|j: int| i < j < pre.len() implies
                            (#[trigger] pre[j]).0 != pre[i as int].0
                        by {}
                        lemma_pairs_to_map_update_last_occurrence(pre, i as int, value);
                        assert(self.as_map() =~= old(self).as_map().insert(key@, value));
                    }
                }
            },
            None => {
                self.pairs.push((key.to_owned(), value));
                proof {
                    assert(self@ =~= pre.push((key@, value)));
                    assert(self@[self@.len() - 1].0 == key@);
                    assert(self@.drop_last() =~= pre);
                    assert(self.as_map() == pairs_to_map(pre).insert(key@, value));
                    if old(self).wf() {
                        assert forall|p: int, q: int| 0 <= p < q < self@.len() implies
                            self@[p].0 != self@[q].0
                        by {
                            if q == self@.len() - 1 {
                                assert(!old(self).spec_contains(key@));
                                assert(self@[p] == pre[p]);
                            } else {
                                assert(pre[p].0 != pre[q].0);
                            }
                        }
                    }
                }
            },
        }
    }
}

/// The two facts `lemma_as_map_contains` states, proved over the raw
/// pair sequence by induction.
pub proof fn lemma_pairs_to_map<V>(s: Seq<(Seq<char>, V)>)
    ensures
        forall|k: Seq<char>|
            pairs_to_map(s).contains_key(k) <==> exists|i: int| 0 <= i < s.len() && (#[trigger] s[i]).0 == k,
        forall|i: int|
            0 <= i < s.len() && (forall|j: int| i < j < s.len() ==> (#[trigger] s[j]).0 != s[i].0)
                ==> pairs_to_map(s)[(#[trigger] s[i]).0] == s[i].1,
    decreases s.len(),
{
    if s.len() > 0 {
        lemma_pairs_to_map(s.drop_last());
        assert(pairs_to_map(s) == pairs_to_map(s.drop_last()).insert(s.last().0, s.last().1));
        assert forall|k: Seq<char>|
            pairs_to_map(s).contains_key(k) implies exists|i: int| 0 <= i < s.len() && (#[trigger] s[i]).0 == k
        by {
            if k == s.last().0 {
                assert(s[s.len() - 1].0 == k);
            } else {
                assert(pairs_to_map(s.drop_last()).contains_key(k));
                let i = choose|i: int| 0 <= i < s.drop_last().len() && (#[trigger] s.drop_last()[i]).0 == k;
                assert(s.drop_last()[i] == s[i]);
                assert(s[i].0 == k);
            }
        }
        assert forall|k: Seq<char>|
            (exists|i: int| 0 <= i < s.len() && (#[trigger] s[i]).0 == k) implies pairs_to_map(s).contains_key(k)
        by {
            let i = choose|i: int| 0 <= i < s.len() && (#[trigger] s[i]).0 == k;
            if i < s.len() - 1 {
                assert(s.drop_last()[i].0 == k);
            }
        }
        assert forall|i: int|
            0 <= i < s.len() && (forall|j: int| i < j < s.len() ==> (#[trigger] s[j]).0 != s[i].0)
                implies pairs_to_map(s)[(#[trigger] s[i]).0] == s[i].1
        by {
            if i == s.len() - 1 {
            } else {
                assert(s[s.len() - 1].0 != s[i].0);
                assert(s.drop_last()[i] == s[i]);
                assert forall|j: int| i < j < s.drop_last().len() implies
                    (#[trigger] s.drop_last()[j]).0 != s.drop_last()[i].0
                by {
                    assert(s.drop_last()[j] == s[j]);
                }
            }
        }
    }
}

/// Updating the last occurrence of a key rewrites just that key's image
/// in the denoted map.
proof fn lemma_pairs_to_map_update_last_occurrence<V>(s: Seq<(Seq<char>, V)>, i: int, value: V)
    requires
        0 <= i < s.len(),
        forall|j: int| i < j < s.len() ==> (#[trigger] s[j]).0 != s[i].0,
    ensures
        pairs_to_map(s.update(i, (s[i].0, value))) =~= pairs_to_map(s).insert(s[i].0, value),
    decreases s.len(),
{
    let t = s.update(i, (s[i].0, value));
    if i == s.len() - 1 {
        assert(t.drop_last() =~= s.drop_last());
    } else {
        assert(t.drop_last() =~= s.drop_last().update(i, (s[i].0, value)));
        assert(s.drop_last()[i] == s[i]);
        assert forall|j: int| i < j < s.drop_last().len() implies
            (#[trigger] s.drop_last()[j]).0 != s.drop_last()[i].0
        by {
            assert(s.drop_last()[j] == s[j]);
        }
        lemma_pairs_to_map_update_last_occurrence(s.drop_last(), i, value);
        assert(t.last() == s.last());
        assert(s.last().0 != s[i].0);
    }
}

/// Into an `Option`, forgetting an error if there was one.
pub trait Optional<T> {
    /// The `Option` this value denotes.
    fn into_option(self) -> Option<T>;
}

impl<T> Optional<T> for Option<T> {
    fn into_option(self) -> (r: Option<T>)
        ensures
            r == self,
    {
        self
    }
}

impl<T, E> Optional<T> for Result<T, E> {
    fn into_option(self) -> (r: Option<T>)
        ensures
            r == self.ok(),
    {
        match self {
            Ok(v) => Some(v),
            Err(_) => None,
        }
    }
}

} // verus!
