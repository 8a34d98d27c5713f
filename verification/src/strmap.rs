//! An ordered map keyed by strings: entries kept in strictly increasing key
//! order, so that walking it visits keys as a `BTreeMap<String, V>` does.
use vstd::prelude::*;
use crate::text::{lex_lt, lemma_lex_total, lemma_lex_antisym, lemma_lex_trans, chars_of, chars_lex_le, chars_eq};

verus! {

/// Keys in strictly increasing lexicographic order.
pub open spec fn strictly_sorted(keys: Seq<Seq<char>>) -> bool {
    forall|i: int, j: int| 0 <= i < j < keys.len() ==> lex_lt(#[trigger] keys[i], #[trigger] keys[j])
}

/// An ordered map from strings to `V`.
#[derive(Debug, Clone)]
pub struct StrMap<V> {
    entries: Vec<(String, V)>,
}

impl<V> StrMap<V> {
    /// The keys, in increasing order.
    pub closed spec fn keys(&self) -> Seq<Seq<char>> {
        Seq::new(self.entries@.len(), |i: int| self.entries@[i].0@)
    }

    /// The values, in the order of their keys.
    pub closed spec fn values(&self) -> Seq<V> {
        Seq::new(self.entries@.len(), |i: int| self.entries@[i].1)
    }

    /// Well-formedness: the keys are strictly increasing.
    pub closed spec fn wf(&self) -> bool {
        strictly_sorted(self.keys())
    }

    /// The map that the entries describe.
    pub open spec fn view(&self) -> Map<Seq<char>, V> {
        Map::new(
            |k: Seq<char>| self.keys().contains(k),
            |k: Seq<char>| self.values()[self.keys().index_of(k)],
        )
    }

    /// The keys are strictly increasing and there is one value for each.
    pub proof fn lemma_wf(&self)
        requires
            self.wf(),
        ensures
            strictly_sorted(self.keys()),
            self.keys().len() == self.values().len(),
    {
    }

    /// The value at position `i` is the one the map holds for the key there.
    pub proof fn lemma_entry(&self, i: int)
        requires
            self.wf(),
            0 <= i < self.keys().len(),
        ensures
            self@.contains_key(self.keys()[i]),
            self@[self.keys()[i]] == self.values()[i],
            self.keys().index_of(self.keys()[i]) == i,
    {
        let k = self.keys()[i];
        assert(self.keys().contains(k));
        let j = self.keys().index_of(k);
        if j != i {
            if j < i {
                assert(lex_lt(self.keys()[j], self.keys()[i]));
            } else {
                assert(lex_lt(self.keys()[i], self.keys()[j]));
            }
        }
    }

    /// An empty map.
    pub fn new() -> (m: Self)
        ensures
            m.wf(),
            m.keys() == Seq::<Seq<char>>::empty(),
            m@ == Map::<Seq<char>, V>::empty(),
    {
        let m = StrMap { entries: Vec::new() };
        assert(m.keys() =~= Seq::<Seq<char>>::empty());
        assert(m@ =~= Map::<Seq<char>, V>::empty());
        m
    }

    pub fn len(&self) -> (n: usize)
        ensures
            n == self.keys().len(),
    {
        self.entries.len()
    }

    /// The key at position `i`.
    pub fn key_at(&self, i: usize) -> (k: &String)
        requires
            i < self.keys().len(),
        ensures
            k@ == self.keys()[i as int],
    {
        &self.entries[i].0
    }

    /// The value at position `i`.
    pub fn value_at(&self, i: usize) -> (v: &V)
        requires
            i < self.keys().len(),
        ensures
            *v == self.values()[i as int],
    {
        &self.entries[i].1
    }

    /// The position of key `k`, if present.
    pub fn find(&self, k: &str) -> (r: Option<usize>)
        ensures
            match r {
                Some(i) => i < self.keys().len() && self.keys()[i as int] == k@,
                None => !self.keys().contains(k@),
            },
    {
        let kc = chars_of(k);
        let mut i: usize = 0;
        while i < self.entries.len()
            invariant
                i <= self.entries@.len(),
                kc@ == k@,
                forall|j: int| 0 <= j < i ==> self.keys()[j] != k@,
            decreases self.entries@.len() - i,
        {
            let ec = chars_of(self.entries[i].0.as_str());
            if chars_eq(ec.as_slice(), kc.as_slice()) {
                return Some(i);
            }
            i = i + 1;
        }
        None
    }

    /// Whether `k` is a key.
    pub fn contains_key(&self, k: &str) -> (r: bool)
        ensures
            r == self@.contains_key(k@),
    {
        self.find(k).is_some()
    }

    /// The value for `k`, if any.
    pub fn get(&self, k: &str) -> (r: Option<&V>)
        requires
            self.wf(),
        ensures
            match r {
                Some(v) => self@.contains_key(k@) && *v == self@[k@],
                None => !self@.contains_key(k@),
            },
    {
        match self.find(k) {
            Some(i) => {
                proof {
                    self.lemma_entry(i as int);
                }
                Some(&self.entries[i].1)
            },
            None => None,
        }
    }

    /// Whether the key at position `p` comes strictly before `kc`.
    fn key_below(&self, p: usize, kc: &[char]) -> (r: bool)
        requires
            p < self.keys().len(),
        ensures
            r == lex_lt(self.keys()[p as int], kc@),
    {
        let e = chars_of(self.entries[p].0.as_str());
        chars_lex_le(e.as_slice(), kc) && !chars_eq(e.as_slice(), kc)
    }

    /// Sets the value of `k` to `v`; a new key takes its place in key order.
    pub fn insert(&mut self, k: String, v: V)
        requires
            old(self).wf(),
        ensures
            final(self).wf(),
            final(self)@ == old(self)@.insert(k@, v),
            old(self)@.contains_key(k@) ==> final(self).keys() == old(self).keys(),
    {
        let kc = chars_of(k.as_str());
        let n = self.entries.len();
        let mut p: usize = 0;
        while p < n && self.key_below(p, kc.as_slice())
            invariant
                p <= n == self.entries@.len(),
                kc@ == k@,
                strictly_sorted(self.keys()),
                forall|j: int| 0 <= j < p ==> lex_lt(#[trigger] self.keys()[j], k@),
            decreases n - p,
        {
            p = p + 1;
        }
        let ghost old_keys = self.keys();
        let ghost old_values = self.values();
        let ghost old_map = self@;
        if p < n && chars_eq(chars_of(self.entries[p].0.as_str()).as_slice(), kc.as_slice()) {
            self.entries.set(p, (k, v));
            proof {
                assert(self.keys() =~= old_keys);
                assert(self.values() =~= old_values.update(p as int, v));
                assert(old_keys.contains(k@)) by {
                    assert(old_keys[p as int] == k@);
                }
                assert forall|j: int| 0 <= j < old_keys.len() implies old_keys.index_of(old_keys[j]) == j by {
                    let kk = old_keys[j];
                    assert(old_keys.contains(kk));
                    let jj = old_keys.index_of(kk);
                    if jj != j {
                        if jj < j {
                            assert(lex_lt(old_keys[jj], old_keys[j]));
                        } else {
                            assert(lex_lt(old_keys[j], old_keys[jj]));
                        }
                    }
                }
                assert(self@ =~= old_map.insert(k@, v));
            }
        } else {
            proof {
                if p < n {
                    lemma_lex_total(old_keys[p as int], k@);
                }
                assert forall|j: int| p <= j < n implies lex_lt(k@, #[trigger] old_keys[j]) by {
                    lemma_lex_total(old_keys[p as int], k@);
                    if j > p {
                        assert(lex_lt(old_keys[p as int], old_keys[j]));
                        lemma_lex_trans(k@, old_keys[p as int], old_keys[j]);
                        if k@ == old_keys[j] {
                            lemma_lex_antisym(old_keys[p as int], old_keys[j]);
                        }
                    }
                }
            }
            self.entries.insert(p, (k, v));
            proof {
                assert(self.keys() =~= old_keys.insert(p as int, k@));
                assert(self.values() =~= old_values.insert(p as int, v));
                assert(!old_keys.contains(k@)) by {
                    if old_keys.contains(k@) {
                        let j = old_keys.index_of(k@);
                        assert(old_keys[j] == k@);
                        if j < p {
                            assert(lex_lt(old_keys[j], k@));
                        } else {
                            assert(lex_lt(k@, old_keys[j]));
                        }
                    }
                }
                let nk = self.keys();
                assert(strictly_sorted(nk)) by {
                    assert forall|i: int, j: int| 0 <= i < j < nk.len() implies lex_lt(
                        #[trigger] nk[i],
                        #[trigger] nk[j],
                    ) by {
                        if j < p {
                            assert(nk[i] == old_keys[i] && nk[j] == old_keys[j]);
                        } else if j == p {
                            assert(nk[i] == old_keys[i]);
                        } else if i == p {
                            assert(nk[j] == old_keys[j - 1]);
                        } else if i < p {
                            assert(nk[i] == old_keys[i] && nk[j] == old_keys[j - 1]);
                            assert(lex_lt(old_keys[i], k@));
                            assert(lex_lt(k@, old_keys[j - 1]));
                            lemma_lex_trans(old_keys[i], k@, old_keys[j - 1]);
                            if old_keys[i] == old_keys[j - 1] {
                                lemma_lex_antisym(old_keys[i], k@);
                            }
                        } else {
                            assert(nk[i] == old_keys[i - 1] && nk[j] == old_keys[j - 1]);
                        }
                    }
                }
                assert forall|j: int| 0 <= j < nk.len() implies nk.index_of(nk[j]) == j by {
                    let kk = nk[j];
                    assert(nk.contains(kk));
                    let jj = nk.index_of(kk);
                    if jj != j {
                        if jj < j {
                            assert(lex_lt(nk[jj], nk[j]));
                        } else {
                            assert(lex_lt(nk[j], nk[jj]));
                        }
                    }
                }
                assert forall|j: int| 0 <= j < old_keys.len() implies old_keys.index_of(old_keys[j]) == j by {
                    let kk = old_keys[j];
                    assert(old_keys.contains(kk));
                    let jj = old_keys.index_of(kk);
                    if jj != j {
                        if jj < j {
                            assert(lex_lt(old_keys[jj], old_keys[j]));
                        } else {
                            assert(lex_lt(old_keys[j], old_keys[jj]));
                        }
                    }
                }
                assert forall|kk: Seq<char>| #[trigger] self@.contains_key(kk) == old_map.insert(k@, v).contains_key(kk) by {
                    if old_keys.contains(kk) {
                        let j = old_keys.index_of(kk);
                        if j < p {
                            assert(nk[j] == kk);
                        } else {
                            assert(nk[j + 1] == kk);
                        }
                    }
                    if nk.contains(kk) && kk != k@ {
                        let j = nk.index_of(kk);
                        if j < p {
                            assert(old_keys[j] == kk);
                        } else {
                            assert(old_keys[j - 1] == kk);
                        }
                    }
                    if kk == k@ {
                        assert(nk[p as int] == kk);
                    }
                }
                assert forall|kk: Seq<char>| #[trigger] self@.contains_key(kk) implies self@[kk] == old_map.insert(k@, v)[kk] by {
                    let j = nk.index_of(kk);
                    if kk == k@ {
                        assert(nk[p as int] == kk);
                    } else if j < p {
                        assert(old_keys[j] == kk);
                    } else {
                        assert(old_keys[j - 1] == kk);
                    }
                }
                assert(self@ =~= old_map.insert(k@, v));
            }
        }
    }
    /// The values, in key order.
    pub fn into_values(self) -> (r: Vec<V>)
        ensures
            r@ == self.values(),
    {
        let ghost all = self.values();
        let mut es = self.entries;
        let mut r: Vec<V> = Vec::new();
        assert(all =~= Seq::new(es@.len(), |i: int| es@[i].1));
        while es.len() > 0
            invariant
                r@ + Seq::new(es@.len(), |i: int| es@[i].1) == all,
            decreases es.len(),
        {
            let ghost before = es@;
            let (_, v) = es.remove(0);
            assert(Seq::new(before.len(), |i: int| before[i].1) =~= seq![v] + Seq::new(
                es@.len(),
                |i: int| es@[i].1,
            ));
            r.push(v);
            assert(r@ + Seq::new(es@.len(), |i: int| es@[i].1) =~= all);
        }
        assert(r@ =~= all);
        r
    }
}

} // verus!
