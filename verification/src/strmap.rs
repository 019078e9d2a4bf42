//! String-keyed maps, realised as association lists with pairwise distinct
//! keys. Configuration files hold small unordered tables (system -> path,
//! goal name -> goal); an association list keeps the reasoning elementary
//! while the view abstracts the order away into a `Map`.

use vstd::prelude::*;

verus! {

use vstd::pervasive::VecAdditionalExecFns;

/// A table from string keys to values, with each key occurring at most once.
#[derive(Debug)]
#[verifier::reject_recursive_types(V)]
pub struct AssocMap<V> {
    pub entries: Vec<(String, V)>,
}

/// The abstract map an association list stands for; a later pair would win,
/// though under `keys_distinct` every key occurs at most once.
pub open spec fn assoc_map<V: View>(s: Seq<(String, V)>) -> Map<Seq<char>, V::V>
    decreases s.len(),
{
    if s.len() == 0 {
        Map::empty()
    } else {
        assoc_map(s.drop_last()).insert(s.last().0@, s.last().1@)
    }
}

pub open spec fn keys_distinct<V>(s: Seq<(String, V)>) -> bool {
    forall|i: int, j: int| 0 <= i < j < s.len() ==> s[i].0@ != s[j].0@
}

impl<V: View> View for AssocMap<V> {
    type V = Map<Seq<char>, V::V>;

    open spec fn view(&self) -> Map<Seq<char>, V::V> {
        assoc_map(self.entries@)
    }
}

/// How an association list relates to its abstract map: the domain is finite,
/// as large as the list, and made of exactly the listed keys, each bound to
/// the listed value.
pub proof fn lemma_assoc_map<V: View>(s: Seq<(String, V)>)
    requires
        keys_distinct(s),
    ensures
        assoc_map(s).dom().finite(),
        assoc_map(s).len() == s.len(),
        forall|k: Seq<char>|
            assoc_map(s).dom().contains(k) <==> exists|i: int|
                0 <= i < s.len() && #[trigger] s[i].0@ == k,
        forall|i: int| 0 <= i < s.len() ==> assoc_map(s)[#[trigger] s[i].0@] == s[i].1@,
    decreases s.len(),
{
    if s.len() > 0 {
        let t = s.drop_last();
        let last = s.last();
        assert(keys_distinct(t));
        lemma_assoc_map(t);
        let m = assoc_map(s);
        let mt = assoc_map(t);
        assert(!mt.dom().contains(last.0@)) by {
            if mt.dom().contains(last.0@) {
                let i = choose|i: int| 0 <= i < t.len() && #[trigger] t[i].0@ == last.0@;
                assert(s[i].0@ == s[s.len() - 1].0@);
                assert(false);
            }
        };
        assert forall|k: Seq<char>| m.dom().contains(k) implies exists|i: int|
            0 <= i < s.len() && #[trigger] s[i].0@ == k by {
            if k == last.0@ {
                assert(s[s.len() - 1].0@ == k);
            } else {
                let i = choose|i: int| 0 <= i < t.len() && #[trigger] t[i].0@ == k;
                assert(s[i].0@ == k);
            }
        };
        assert forall|k: Seq<char>|
            (exists|i: int| 0 <= i < s.len() && #[trigger] s[i].0@ == k) implies m.dom().contains(
            k,
        ) by {
            let i = choose|i: int| 0 <= i < s.len() && #[trigger] s[i].0@ == k;
            if i < s.len() - 1 {
                assert(t[i].0@ == k);
            }
        };
        assert forall|i: int| 0 <= i < s.len() implies m[#[trigger] s[i].0@] == s[i].1@ by {
            if i < s.len() - 1 {
                assert(s[i].0@ != last.0@);
                assert(t[i].0@ == s[i].0@ && t[i].1@ == s[i].1@);
            }
        };
    }
}

/// The association list with every pair whose value views as `t` removed;
/// order of the remaining pairs is kept.
pub open spec fn val_removed(s: Seq<(String, String)>, t: Seq<char>) -> Seq<(String, String)>
    decreases s.len(),
{
    if s.len() == 0 {
        Seq::empty()
    } else if s.last().1@ == t {
        val_removed(s.drop_last(), t)
    } else {
        val_removed(s.drop_last(), t).push(s.last())
    }
}

/// The abstract map restricted to the keys whose value differs from `t`.
pub open spec fn val_filter(m: Map<Seq<char>, Seq<char>>, t: Seq<char>) -> Map<
    Seq<char>,
    Seq<char>,
> {
    Map::new(|k: Seq<char>| m.dom().contains(k) && m[k] != t, |k: Seq<char>| m[k])
}

/// Filtering an association list by value matches restricting its map.
pub proof fn lemma_val_removed(s: Seq<(String, String)>, t: Seq<char>)
    requires
        keys_distinct(s),
    ensures
        keys_distinct(val_removed(s, t)),
        assoc_map(val_removed(s, t)) == val_filter(assoc_map(s), t),
    decreases s.len(),
{
    if s.len() > 0 {
        let tail = s.drop_last();
        let last = s.last();
        assert(keys_distinct(tail));
        lemma_val_removed(tail, t);
        lemma_assoc_map(tail);
        lemma_assoc_map(s);
        let mt = assoc_map(tail);
        let vr_tail = val_removed(tail, t);
        assert(!mt.dom().contains(last.0@)) by {
            if mt.dom().contains(last.0@) {
                let i = choose|i: int| 0 <= i < tail.len() && #[trigger] tail[i].0@ == last.0@;
                assert(s[i].0@ == s[s.len() - 1].0@);
                assert(false);
            }
        };
        if last.1@ == t {
            assert(val_filter(assoc_map(s), t) =~= val_filter(mt, t));
        } else {
            // the kept last pair has a key fresh among the kept tail pairs
            lemma_assoc_map(vr_tail);
            assert(!assoc_map(vr_tail).dom().contains(last.0@)) by {
                if assoc_map(vr_tail).dom().contains(last.0@) {
                    assert(val_filter(mt, t).dom().contains(last.0@));
                    assert(false);
                }
            };
            assert forall|i: int, j: int|
                0 <= i < j < val_removed(s, t).len() implies val_removed(s, t)[i].0@
                != val_removed(s, t)[j].0@ by {
                if j < val_removed(s, t).len() - 1 {
                } else {
                    assert(val_removed(s, t)[i] == vr_tail[i]);
                    assert(assoc_map(vr_tail).dom().contains(vr_tail[i].0@));
                }
            };
            assert(vr_tail.push(last).drop_last() =~= vr_tail);
            assert(assoc_map(val_removed(s, t)) == assoc_map(vr_tail).insert(last.0@, last.1@));
            assert(assoc_map(val_removed(s, t)) =~= val_filter(assoc_map(s), t));
        }
    } else {
        assert(assoc_map(val_removed(s, t)) =~= val_filter(assoc_map(s), t));
    }
}

/// Updating the pair at index `i` in place matches `Map::insert` of its key.
pub proof fn lemma_assoc_update<V: View>(s: Seq<(String, V)>, i: int, p: (String, V))
    requires
        keys_distinct(s),
        0 <= i < s.len(),
        p.0@ == s[i].0@,
    ensures
        keys_distinct(s.update(i, p)),
        assoc_map(s.update(i, p)) == assoc_map(s).insert(p.0@, p.1@),
    decreases s.len(),
{
    let u = s.update(i, p);
    assert(keys_distinct(u));
    if i == s.len() - 1 {
        assert(u.drop_last() =~= s.drop_last());
        assert(u.last() == p);
        assert(assoc_map(u) =~= assoc_map(s).insert(p.0@, p.1@));
    } else {
        let t = s.drop_last();
        assert(keys_distinct(t));
        lemma_assoc_update(t, i, p);
        assert(u.drop_last() =~= t.update(i, p));
        assert(u.last() == s.last());
        assert(s.last().0@ != p.0@);
        assert(assoc_map(u) == assoc_map(t.update(i, p)).insert(s.last().0@, s.last().1@));
        assert(assoc_map(u) =~= assoc_map(s).insert(p.0@, p.1@));
    }
}

impl<V: View> AssocMap<V> {
    /// Keys are pairwise distinct; every operation preserves this.
    pub open spec fn wf(self) -> bool {
        keys_distinct(self.entries@)
    }

    pub fn new() -> (r: AssocMap<V>)
        ensures
            r.wf(),
            r@ == Map::<Seq<char>, V::V>::empty(),
    {
        AssocMap { entries: Vec::new() }
    }

    pub fn len(&self) -> (r: usize)
        requires
            self.wf(),
        ensures
            r == self@.len(),
    {
        proof {
            lemma_assoc_map(self.entries@);
        }
        self.entries.len()
    }

    /// The index holding `k`, if any.
    fn index_of(&self, k: &String) -> (r: Option<usize>)
        requires
            self.wf(),
        ensures
            match r {
                Some(i) => i < self.entries@.len() && self.entries@[i as int].0@ == k@,
                None => !self@.dom().contains(k@),
            },
    {
        proof {
            lemma_assoc_map(self.entries@);
        }
        let n = self.entries.len();
        let mut i: usize = 0;
        while i < n
            invariant
                n == self.entries@.len(),
                i <= n,
                forall|j: int| 0 <= j < i ==> self.entries@[j].0@ != k@,
            decreases n - i,
        {
            if self.entries[i].0 == *k {
                return Some(i);
            }
            i = i + 1;
        }
        None
    }

    pub fn contains_key(&self, k: &String) -> (r: bool)
        requires
            self.wf(),
        ensures
            r == self@.dom().contains(k@),
    {
        proof {
            lemma_assoc_map(self.entries@);
        }
        self.index_of(k).is_some()
    }

    pub fn get(&self, k: &String) -> (r: Option<&V>)
        requires
            self.wf(),
        ensures
            match r {
                Some(v) => self@.dom().contains(k@) && v@ == self@[k@],
                None => !self@.dom().contains(k@),
            },
    {
        proof {
            lemma_assoc_map(self.entries@);
        }
        match self.index_of(k) {
            Some(i) => Some(&self.entries[i].1),
            None => None,
        }
    }

    /// Insert a binding for a key not yet present.
    pub fn insert_fresh(&mut self, k: String, v: V)
        requires
            old(self).wf(),
            !old(self)@.dom().contains(k@),
        ensures
            final(self).wf(),
            final(self)@ == old(self)@.insert(k@, v@),
    {
        proof {
            lemma_assoc_map(self.entries@);
        }
        self.entries.push((k, v));
        proof {
            assert(self.entries@.drop_last() =~= old(self).entries@);
            assert(self.entries@.last().0@ == k@ && self.entries@.last().1@ == v@);
        }
    }

    /// Insert a binding, replacing any binding the key already has.
    pub fn upsert(&mut self, k: String, v: V)
        requires
            old(self).wf(),
        ensures
            final(self).wf(),
            final(self)@ == old(self)@.insert(k@, v@),
    {
        proof {
            lemma_assoc_map(self.entries@);
        }
        let idx = self.index_of(&k);
        match idx {
            Some(i) => {
                proof {
                    lemma_assoc_update(self.entries@, i as int, (k, v));
                }
                self.entries.set(i, (k, v));
            },
            None => {
                self.entries.push((k, v));
                proof {
                    assert(self.entries@.drop_last() =~= old(self).entries@);
                    assert(self.entries@.last().0@ == k@ && self.entries@.last().1@ == v@);
                }
            },
        }
    }
}

/// The views of a list of strings, as a set.
pub open spec fn str_set(v: Seq<String>) -> Set<Seq<char>> {
    Set::new(|s: Seq<char>| exists|i: int| 0 <= i < v.len() && #[trigger] v[i]@ == s)
}

/// Whether the view of `x` occurs among the views of `v`.
pub fn str_list_contains(v: &Vec<String>, x: &String) -> (r: bool)
    ensures
        r == str_set(v@).contains(x@),
{
    let n = v.len();
    let mut i: usize = 0;
    while i < n
        invariant
            n == v@.len(),
            i <= n,
            forall|j: int| 0 <= j < i ==> v@[j]@ != x@,
        decreases n - i,
    {
        if v[i] == *x {
            return true;
        }
        i = i + 1;
    }
    false
}

/// The association list with every pair whose value is in `ts` removed.
pub open spec fn val_set_removed(s: Seq<(String, String)>, ts: Set<Seq<char>>) -> Seq<
    (String, String),
>
    decreases s.len(),
{
    if s.len() == 0 {
        Seq::empty()
    } else if ts.contains(s.last().1@) {
        val_set_removed(s.drop_last(), ts)
    } else {
        val_set_removed(s.drop_last(), ts).push(s.last())
    }
}

/// The abstract map restricted to the keys whose value lies outside `ts`.
pub open spec fn val_set_filter(m: Map<Seq<char>, Seq<char>>, ts: Set<Seq<char>>) -> Map<
    Seq<char>,
    Seq<char>,
> {
    Map::new(|k: Seq<char>| m.dom().contains(k) && !ts.contains(m[k]), |k: Seq<char>| m[k])
}

/// Filtering an association list by a value set matches restricting its map.
pub proof fn lemma_val_set_removed(s: Seq<(String, String)>, ts: Set<Seq<char>>)
    requires
        keys_distinct(s),
    ensures
        keys_distinct(val_set_removed(s, ts)),
        assoc_map(val_set_removed(s, ts)) == val_set_filter(assoc_map(s), ts),
    decreases s.len(),
{
    if s.len() > 0 {
        let tail = s.drop_last();
        let last = s.last();
        assert(keys_distinct(tail));
        lemma_val_set_removed(tail, ts);
        lemma_assoc_map(tail);
        lemma_assoc_map(s);
        let mt = assoc_map(tail);
        let vr_tail = val_set_removed(tail, ts);
        assert(!mt.dom().contains(last.0@)) by {
            if mt.dom().contains(last.0@) {
                let i = choose|i: int| 0 <= i < tail.len() && #[trigger] tail[i].0@ == last.0@;
                assert(s[i].0@ == s[s.len() - 1].0@);
                assert(false);
            }
        };
        if ts.contains(last.1@) {
            assert(val_set_filter(assoc_map(s), ts) =~= val_set_filter(mt, ts));
        } else {
            lemma_assoc_map(vr_tail);
            assert(!assoc_map(vr_tail).dom().contains(last.0@)) by {
                if assoc_map(vr_tail).dom().contains(last.0@) {
                    assert(val_set_filter(mt, ts).dom().contains(last.0@));
                    assert(false);
                }
            };
            assert forall|i: int, j: int|
                0 <= i < j < val_set_removed(s, ts).len() implies val_set_removed(s, ts)[i].0@
                != val_set_removed(s, ts)[j].0@ by {
                if j < val_set_removed(s, ts).len() - 1 {
                } else {
                    assert(val_set_removed(s, ts)[i] == vr_tail[i]);
                    assert(assoc_map(vr_tail).dom().contains(vr_tail[i].0@));
                }
            };
            assert(vr_tail.push(last).drop_last() =~= vr_tail);
            assert(assoc_map(val_set_removed(s, ts)) == assoc_map(vr_tail).insert(
                last.0@,
                last.1@,
            ));
            assert(assoc_map(val_set_removed(s, ts)) =~= val_set_filter(assoc_map(s), ts));
        }
    } else {
        assert(assoc_map(val_set_removed(s, ts)) =~= val_set_filter(assoc_map(s), ts));
    }
}

impl AssocMap<String> {
    /// Whether some key is bound to the value `t`.
    pub fn contains_value(&self, t: &String) -> (r: bool)
        requires
            self.wf(),
        ensures
            r == exists|k: Seq<char>| self@.dom().contains(k) && #[trigger] self@[k] == t@,
    {
        proof {
            lemma_assoc_map(self.entries@);
        }
        let n = self.entries.len();
        let mut i: usize = 0;
        while i < n
            invariant
                self.wf(),
                n == self.entries@.len(),
                i <= n,
                forall|j: int| 0 <= j < i ==> self.entries@[j].1@ != t@,
            decreases n - i,
        {
            if self.entries[i].1 == *t {
                proof {
                    lemma_assoc_map(self.entries@);
                    assert(self@.dom().contains(self.entries@[i as int].0@));
                    assert(self@[self.entries@[i as int].0@] == t@);
                }
                return true;
            }
            i = i + 1;
        }
        proof {
            lemma_assoc_map(self.entries@);
            assert forall|k: Seq<char>| self@.dom().contains(k) implies #[trigger] self@[k]
                != t@ by {
                let es = self.entries@;
                let j = choose|j: int| 0 <= j < es.len() && #[trigger] es[j].0@ == k;
                assert(self@[k] == self.entries@[j].1@);
            }
        }
        false
    }

    /// The map with every binding whose value is `t` dropped.
    pub fn remove_by_value(&self, t: &String) -> (r: AssocMap<String>)
        requires
            self.wf(),
        ensures
            r.wf(),
            r@ == val_filter(self@, t@),
    {
        let mut out: Vec<(String, String)> = Vec::new();
        let n = self.entries.len();
        let mut i: usize = 0;
        while i < n
            invariant
                self.wf(),
                n == self.entries@.len(),
                i <= n,
                out@ == val_removed(self.entries@.take(i as int), t@),
            decreases n - i,
        {
            proof {
                assert(self.entries@.take(i + 1).drop_last() =~= self.entries@.take(i as int));
                assert(self.entries@.take(i + 1).last() == self.entries@[i as int]);
            }
            if self.entries[i].1 == *t {
            } else {
                out.push((self.entries[i].0.clone(), self.entries[i].1.clone()));
                proof {
                    assert(out@.drop_last() =~= val_removed(self.entries@.take(i as int), t@));
                    assert(out@.last() == self.entries@[i as int]);
                    assert(out@ =~= val_removed(self.entries@.take(i as int), t@).push(
                        self.entries@[i as int],
                    ));
                }
            }
            i = i + 1;
        }
        proof {
            assert(self.entries@.take(n as int) =~= self.entries@);
            lemma_val_removed(self.entries@, t@);
        }
        AssocMap { entries: out }
    }

    /// A copy with the same bindings (a derived clone carries no contract).
    pub fn duplicate(&self) -> (r: AssocMap<String>)
        ensures
            r.entries@ =~= self.entries@,
            r@ == self@,
            r.wf() == self.wf(),
    {
        let mut out: Vec<(String, String)> = Vec::new();
        let n = self.entries.len();
        let mut i: usize = 0;
        while i < n
            invariant
                n == self.entries@.len(),
                i <= n,
                out@ =~= self.entries@.take(i as int),
            decreases n - i,
        {
            out.push((self.entries[i].0.clone(), self.entries[i].1.clone()));
            proof {
                assert(out@ =~= self.entries@.take(i + 1));
            }
            i = i + 1;
        }
        proof {
            assert(self.entries@.take(n as int) =~= self.entries@);
        }
        AssocMap { entries: out }
    }

    /// The map with every binding whose value occurs in `ts` dropped.
    pub fn remove_by_values(&self, ts: &Vec<String>) -> (r: AssocMap<String>)
        requires
            self.wf(),
        ensures
            r.wf(),
            r@ == val_set_filter(self@, str_set(ts@)),
    {
        let mut out: Vec<(String, String)> = Vec::new();
        let n = self.entries.len();
        let mut i: usize = 0;
        while i < n
            invariant
                self.wf(),
                n == self.entries@.len(),
                i <= n,
                out@ == val_set_removed(self.entries@.take(i as int), str_set(ts@)),
            decreases n - i,
        {
            proof {
                assert(self.entries@.take(i + 1).drop_last() =~= self.entries@.take(i as int));
                assert(self.entries@.take(i + 1).last() == self.entries@[i as int]);
            }
            if str_list_contains(ts, &self.entries[i].1) {
            } else {
                out.push((self.entries[i].0.clone(), self.entries[i].1.clone()));
                proof {
                    assert(out@.drop_last() =~= val_set_removed(
                        self.entries@.take(i as int),
                        str_set(ts@),
                    ));
                    assert(out@.last() == self.entries@[i as int]);
                    assert(out@ =~= val_set_removed(self.entries@.take(i as int), str_set(
                        ts@,
                    )).push(self.entries@[i as int]));
                }
            }
            i = i + 1;
        }
        proof {
            assert(self.entries@.take(n as int) =~= self.entries@);
            lemma_val_set_removed(self.entries@, str_set(ts@));
        }
        AssocMap { entries: out }
    }
}

} // verus!
