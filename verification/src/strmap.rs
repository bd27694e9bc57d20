//! Association containers for translation keys: a map from key strings to
//! translated strings and a set of key strings, both backed by vectors that
//! keep insertion order and hold each key at most once.
use vstd::prelude::*;
use vstd::string::*;

verus! {

/// The character sequences behind a vector of string pairs.
pub open spec fn pairs_view(ps: Seq<(String, String)>) -> Seq<(Seq<char>, Seq<char>)> {
    ps.map_values(|p: (String, String)| (p.0@, p.1@))
}

/// The character sequences behind a vector of strings.
pub open spec fn strs_view(es: Seq<String>) -> Seq<Seq<char>> {
    es.map_values(|s: String| s@)
}

/// Some entry of the association list carries this key.
pub open spec fn alist_has_key(ps: Seq<(Seq<char>, Seq<char>)>, k: Seq<char>) -> bool {
    exists|i: int| 0 <= i < ps.len() && ps[i].0 == k
}

/// Every key appears at most once in the association list.
pub open spec fn alist_unique(ps: Seq<(Seq<char>, Seq<char>)>) -> bool {
    forall|i: int, j: int| 0 <= i < j < ps.len() ==> ps[i].0 != ps[j].0
}

/// The finite map an association list describes; a later entry overrides an
/// earlier one with the same key.
pub open spec fn alist_map(ps: Seq<(Seq<char>, Seq<char>)>) -> Map<Seq<char>, Seq<char>>
    decreases ps.len(),
{
    if ps.len() == 0 {
        Map::empty()
    } else {
        alist_map(ps.drop_last()).insert(ps.last().0, ps.last().1)
    }
}

/// A key is in the map of an association list exactly when some entry carries it.
pub proof fn lemma_alist_map_dom(ps: Seq<(Seq<char>, Seq<char>)>)
    ensures
        forall|k: Seq<char>| #[trigger] alist_map(ps).contains_key(k) <==> alist_has_key(ps, k),
    decreases ps.len(),
{
    if ps.len() > 0 {
        lemma_alist_map_dom(ps.drop_last());
        assert forall|k: Seq<char>| alist_has_key(ps, k) implies #[trigger] alist_map(
            ps,
        ).contains_key(k) by {
            let i = choose|i: int| 0 <= i < ps.len() && ps[i].0 == k;
            if i < ps.len() - 1 {
                assert(ps.drop_last()[i].0 == k);
                assert(alist_has_key(ps.drop_last(), k));
                assert(alist_map(ps.drop_last()).contains_key(k));
            } else {
                assert(k == ps.last().0);
            }
        }
        assert forall|k: Seq<char>| #[trigger] alist_map(ps).contains_key(k) implies alist_has_key(
            ps,
            k,
        ) by {
            if k != ps.last().0 {
                assert(alist_map(ps.drop_last()).contains_key(k));
                assert(alist_has_key(ps.drop_last(), k));
                let i = choose|i: int| 0 <= i < ps.drop_last().len() && ps.drop_last()[i].0 == k;
                assert(ps.drop_last()[i] == ps[i]);
                assert(ps[i].0 == k);
            } else {
                assert(ps[ps.len() - 1].0 == k);
            }
        }
    }
}

/// With unique keys, the map of an association list sends each listed key to
/// the value listed beside it.
pub proof fn lemma_alist_map_at(ps: Seq<(Seq<char>, Seq<char>)>, i: int)
    requires
        alist_unique(ps),
        0 <= i < ps.len(),
    ensures
        alist_map(ps).contains_key(ps[i].0),
        alist_map(ps)[ps[i].0] == ps[i].1,
    decreases ps.len(),
{
    if i < ps.len() - 1 {
        assert(ps.drop_last()[i] == ps[i]);
        lemma_alist_map_at(ps.drop_last(), i);
        assert(ps[i].0 != ps.last().0);
    }
}

/// Replacing the value at a listed key updates the map of the list.
pub proof fn lemma_alist_map_update(ps: Seq<(Seq<char>, Seq<char>)>, i: int, v: Seq<char>)
    requires
        alist_unique(ps),
        0 <= i < ps.len(),
    ensures
        alist_map(ps.update(i, (ps[i].0, v))) == alist_map(ps).insert(ps[i].0, v),
    decreases ps.len(),
{
    let ps2 = ps.update(i, (ps[i].0, v));
    if i == ps.len() - 1 {
        assert(ps2.drop_last() =~= ps.drop_last());
        assert(alist_map(ps2) =~= alist_map(ps).insert(ps[i].0, v));
    } else {
        assert(ps2.drop_last() =~= ps.drop_last().update(i, (ps[i].0, v)));
        assert(ps.drop_last()[i] == ps[i]);
        lemma_alist_map_update(ps.drop_last(), i, v);
        assert(ps[i].0 != ps.last().0);
        assert(alist_map(ps2) =~= alist_map(ps).insert(ps[i].0, v));
    }
}

/// Removing a listed key removes it from the map of the list.
pub proof fn lemma_alist_map_remove(ps: Seq<(Seq<char>, Seq<char>)>, i: int)
    requires
        alist_unique(ps),
        0 <= i < ps.len(),
    ensures
        alist_map(ps.remove(i)) == alist_map(ps).remove(ps[i].0),
    decreases ps.len(),
{
    let ps2 = ps.remove(i);
    lemma_alist_map_dom(ps);
    lemma_alist_map_dom(ps2);
    if i == ps.len() - 1 {
        assert(ps2 =~= ps.drop_last());
        assert forall|k: Seq<char>| #[trigger] alist_map(ps2).contains_key(k) implies k
            != ps[i].0 by {
            let j = choose|j: int| 0 <= j < ps2.len() && ps2[j].0 == k;
            assert(ps[j].0 == k);
        }
        assert(alist_map(ps2) =~= alist_map(ps).remove(ps[i].0));
    } else {
        assert(ps2.drop_last() =~= ps.drop_last().remove(i));
        assert(ps.drop_last()[i] == ps[i]);
        lemma_alist_map_remove(ps.drop_last(), i);
        assert(ps[i].0 != ps.last().0);
        assert(ps2.last() == ps.last());
        assert(alist_map(ps2) =~= alist_map(ps).remove(ps[i].0));
    }
}

/// A map from translation keys to translated strings, in insertion order,
/// each key held once.
#[derive(Debug)]
pub struct StrMap {
    pub pairs: Vec<(String, String)>,
}

impl StrMap {
    /// The sequence of entries, as character sequences.
    pub open spec fn entries(&self) -> Seq<(Seq<char>, Seq<char>)> {
        pairs_view(self.pairs@)
    }

    /// The finite map this container describes.
    pub open spec fn view(&self) -> Map<Seq<char>, Seq<char>> {
        alist_map(self.entries())
    }

    /// Each key is held at most once.
    pub open spec fn wf(&self) -> bool {
        alist_unique(self.entries())
    }

    pub fn new() -> (r: StrMap)
        ensures
            r.wf(),
            r@ == Map::<Seq<char>, Seq<char>>::empty(),
            r.pairs@.len() == 0,
    {
        StrMap { pairs: Vec::new() }
    }

    /// The position of the entry holding this key, if one does.
    pub fn index_of_key(&self, k: &String) -> (r: Option<usize>)
        ensures
            match r {
                Some(i) => i < self.entries().len() && self.entries()[i as int].0 == k@,
                None => !alist_has_key(self.entries(), k@),
            },
    {
        let n = self.pairs.len();
        let mut i: usize = 0;
        while i < n
            invariant
                n == self.pairs@.len(),
                i <= n,
                forall|j: int| 0 <= j < i ==> self.entries()[j].0 != k@,
            decreases n - i,
        {
            if self.pairs[i].0 == *k {
                assert(self.entries()[i as int].0 == k@);
                return Some(i);
            }
            i = i + 1;
        }
        None
    }

    pub fn contains_key(&self, k: &String) -> (r: bool)
        ensures
            r == self@.contains_key(k@),
    {
        proof {
            lemma_alist_map_dom(self.entries());
        }
        self.index_of_key(k).is_some()
    }

    pub fn get(&self, k: &String) -> (r: Option<&String>)
        requires
            self.wf(),
        ensures
            match r {
                Some(v) => self@.contains_key(k@) && self@[k@] == v@,
                None => !self@.contains_key(k@),
            },
    {
        proof {
            lemma_alist_map_dom(self.entries());
        }
        match self.index_of_key(k) {
            Some(i) => {
                proof {
                    lemma_alist_map_at(self.entries(), i as int);
                }
                Some(&self.pairs[i].1)
            },
            None => None,
        }
    }

    /// Binds the key to the value, overriding an earlier binding if one exists;
    /// a new key goes to the end.
    pub fn insert(&mut self, k: String, v: String)
        requires
            old(self).wf(),
        ensures
            final(self).wf(),
            final(self)@ == old(self)@.insert(k@, v@),
    {
        proof {
            lemma_alist_map_dom(self.entries());
        }
        match self.index_of_key(&k) {
            Some(i) => {
                proof {
                    lemma_alist_map_update(self.entries(), i as int, v@);
                }
                self.pairs[i] = (k, v);
                proof {
                    assert(self.entries() =~= pairs_view(old(self).pairs@).update(
                        i as int,
                        (pairs_view(old(self).pairs@)[i as int].0, v@),
                    ));
                }
            },
            None => {
                self.pairs.push((k, v));
                proof {
                    let ops = pairs_view(old(self).pairs@);
                    assert(self.entries().drop_last() =~= ops);
                    assert forall|a: int, b: int|
                        0 <= a < b < self.entries().len() implies self.entries()[a].0
                        != self.entries()[b].0 by {
                        assert(self.entries()[a] == ops[a]);
                        if b == self.entries().len() - 1 {
                            assert(self.entries()[b] == (k@, v@));
                            assert(!alist_has_key(ops, k@));
                            assert(ops[a].0 != k@);
                        } else {
                            assert(self.entries()[b] == ops[b]);
                        }
                    }
                }
            },
        }
    }

    /// Drops the binding for the key if one exists.
    pub fn remove(&mut self, k: &String)
        requires
            old(self).wf(),
        ensures
            final(self).wf(),
            final(self)@ == old(self)@.remove(k@),
    {
        proof {
            lemma_alist_map_dom(self.entries());
        }
        match self.index_of_key(k) {
            Some(i) => {
                proof {
                    lemma_alist_map_remove(self.entries(), i as int);
                }
                self.pairs.remove(i);
                proof {
                    let ops = pairs_view(old(self).pairs@);
                    assert(self.entries() =~= ops.remove(i as int));
                }
            },
            None => {
                proof {
                    assert(self@ =~= self@.remove(k@));
                }
            },
        }
    }

    pub fn len(&self) -> (r: usize)
        ensures
            r == self.entries().len(),
    {
        self.pairs.len()
    }
}

/// Some element of the sequence is this character sequence.
pub open spec fn strs_has(es: Seq<Seq<char>>, k: Seq<char>) -> bool {
    exists|i: int| 0 <= i < es.len() && es[i] == k
}

/// Every element appears at most once.
pub open spec fn strs_unique(es: Seq<Seq<char>>) -> bool {
    forall|i: int, j: int| 0 <= i < j < es.len() ==> es[i] != es[j]
}

/// A set of translation keys, in insertion order, each held once.
#[derive(Debug)]
pub struct StrSet {
    pub elems: Vec<String>,
}

impl StrSet {
    /// The sequence of elements, as character sequences.
    pub open spec fn seq(&self) -> Seq<Seq<char>> {
        strs_view(self.elems@)
    }

    /// The finite set this container describes.
    pub open spec fn view(&self) -> Set<Seq<char>> {
        self.seq().to_set()
    }

    pub open spec fn wf(&self) -> bool {
        strs_unique(self.seq())
    }

    pub fn new() -> (r: StrSet)
        ensures
            r.wf(),
            r@ == Set::<Seq<char>>::empty(),
            r.seq().len() == 0,
    {
        let r = StrSet { elems: Vec::new() };
        proof {
            assert(r@ =~= Set::<Seq<char>>::empty());
        }
        r
    }

    pub fn contains(&self, k: &String) -> (r: bool)
        ensures
            r == self@.contains(k@),
    {
        let n = self.elems.len();
        let mut i: usize = 0;
        while i < n
            invariant
                n == self.elems@.len(),
                i <= n,
                forall|j: int| 0 <= j < i ==> self.seq()[j] != k@,
            decreases n - i,
        {
            if self.elems[i] == *k {
                assert(self.seq()[i as int] == k@);
                return true;
            }
            i = i + 1;
        }
        assert(!self.seq().contains(k@));
        false
    }

    /// Adds the key unless it is already held.
    pub fn insert(&mut self, k: String)
        requires
            old(self).wf(),
        ensures
            final(self).wf(),
            final(self)@ == old(self)@.insert(k@),
    {
        if !self.contains(&k) {
            let ghost oes = strs_view(self.elems@);
            self.elems.push(k);
            proof {
                assert forall|a: int, b: int|
                    0 <= a < b < self.seq().len() implies self.seq()[a] != self.seq()[b] by {
                    assert(self.seq()[a] == oes[a]);
                    if b == self.seq().len() - 1 {
                        assert(self.seq()[b] == k@);
                        assert(!oes.to_set().contains(k@));
                        assert(oes[a] != k@);
                    } else {
                        assert(self.seq()[b] == oes[b]);
                    }
                }
                assert forall|x: Seq<char>| #[trigger] self@.contains(x) <==> old(
                    self,
                )@.insert(k@).contains(x) by {
                    if self@.contains(x) {
                        let i = choose|i: int| 0 <= i < self.seq().len() && self.seq()[i] == x;
                        if i < self.seq().len() - 1 {
                            assert(oes[i] == x);
                        }
                    }
                    if old(self)@.contains(x) {
                        let i = choose|i: int| 0 <= i < oes.len() && oes[i] == x;
                        assert(self.seq()[i] == x);
                    }
                    if x == k@ {
                        assert(self.seq()[self.seq().len() - 1] == x);
                    }
                }
                assert(self@ =~= old(self)@.insert(k@));
            }
        } else {
            proof {
                assert(self@ =~= old(self)@.insert(k@));
            }
        }
    }

    pub fn len(&self) -> (r: usize)
        ensures
            r == self.seq().len(),
    {
        self.elems.len()
    }
}


/// The map of a concatenation: the right list's bindings win.
pub proof fn lemma_alist_map_concat(a: Seq<(Seq<char>, Seq<char>)>, b: Seq<(Seq<char>, Seq<char>)>)
    ensures
        alist_map(a + b) == alist_map(a).union_prefer_right(alist_map(b)),
    decreases b.len(),
{
    if b.len() == 0 {
        assert(a + b =~= a);
        assert(alist_map(a).union_prefer_right(alist_map(b)) =~= alist_map(a));
    } else {
        lemma_alist_map_concat(a, b.drop_last());
        assert((a + b).drop_last() =~= a + b.drop_last());
        assert((a + b).last() == b.last());
        assert(alist_map(a).union_prefer_right(alist_map(b)) =~= alist_map(a).union_prefer_right(
            alist_map(b.drop_last()),
        ).insert(b.last().0, b.last().1));
    }
}

/// Membership after inserting one entry at any position.
pub proof fn lemma_alist_has_key_insert(
    s: Seq<(Seq<char>, Seq<char>)>,
    p: int,
    e: (Seq<char>, Seq<char>),
    k: Seq<char>,
)
    requires
        0 <= p <= s.len(),
    ensures
        alist_has_key(s.insert(p, e), k) <==> (alist_has_key(s, k) || k == e.0),
{
    let s2 = s.insert(p, e);
    if alist_has_key(s2, k) {
        let i = choose|i: int| 0 <= i < s2.len() && s2[i].0 == k;
        if i < p {
            assert(s[i].0 == k);
        } else if i > p {
            assert(s[i - 1].0 == k);
        }
    }
    if alist_has_key(s, k) {
        let i = choose|i: int| 0 <= i < s.len() && s[i].0 == k;
        if i < p {
            assert(s2[i].0 == k);
        } else {
            assert(s2[i + 1].0 == k);
        }
    }
    if k == e.0 {
        assert(s2[p].0 == k);
    }
}

/// Inserting an entry with a fresh key, at any position, inserts its binding
/// into the map and keeps keys unique.
pub proof fn lemma_alist_insert_fresh(
    s: Seq<(Seq<char>, Seq<char>)>,
    p: int,
    e: (Seq<char>, Seq<char>),
)
    requires
        0 <= p <= s.len(),
        !alist_has_key(s, e.0),
    ensures
        alist_map(s.insert(p, e)) == alist_map(s).insert(e.0, e.1),
        alist_unique(s) ==> alist_unique(s.insert(p, e)),
    decreases s.len(),
{
    let s2 = s.insert(p, e);
    if p == s.len() {
        assert(s2 =~= s.push(e));
        assert(s2.drop_last() =~= s);
        assert(alist_map(s2) == alist_map(s).insert(e.0, e.1));
    } else {
        assert(s.last().0 != e.0) by {
            assert(s[s.len() - 1].0 == s.last().0);
        }
        assert(!alist_has_key(s.drop_last(), e.0)) by {
            if alist_has_key(s.drop_last(), e.0) {
                let i = choose|i: int| 0 <= i < s.drop_last().len() && s.drop_last()[i].0 == e.0;
                assert(s[i].0 == e.0);
            }
        }
        lemma_alist_insert_fresh(s.drop_last(), p, e);
        assert(s2.drop_last() =~= s.drop_last().insert(p, e));
        assert(s2.last() == s.last());
        assert(alist_map(s2) == alist_map(s.drop_last()).insert(e.0, e.1).insert(
            s.last().0,
            s.last().1,
        ));
        assert(alist_map(s.drop_last()).insert(e.0, e.1).insert(s.last().0, s.last().1)
            =~= alist_map(s.drop_last()).insert(s.last().0, s.last().1).insert(e.0, e.1));
    }
    if alist_unique(s) {
        assert forall|a: int, b: int| 0 <= a < b < s2.len() implies s2[a].0 != s2[b].0 by {
            if a < p && b < p {
                assert(s2[a] == s[a] && s2[b] == s[b]);
            } else if a < p && b == p {
                assert(s2[a] == s[a] && s2[b] == e);
                assert(s[a].0 != e.0);
            } else if a < p && b > p {
                assert(s2[a] == s[a] && s2[b] == s[b - 1]);
            } else if a == p {
                assert(s2[a] == e && s2[b] == s[b - 1]);
                assert(s[b - 1].0 != e.0);
            } else {
                assert(s2[a] == s[a - 1] && s2[b] == s[b - 1]);
            }
        }
    }
}


/// Character-for-character equality of two string slices.
pub fn str_eq(a: &str, b: &str) -> (r: bool)
    ensures
        r == (a@ == b@),
{
    let na = a.unicode_len();
    let nb = b.unicode_len();
    if na != nb {
        return false;
    }
    let mut i: usize = 0;
    while i < na
        invariant
            na == a@.len(),
            nb == b@.len(),
            na == nb,
            i <= na,
            forall|t: int| 0 <= t < i ==> a@[t] == b@[t],
        decreases na - i,
    {
        if a.get_char(i) != b.get_char(i) {
            return false;
        }
        i = i + 1;
    }
    proof {
        assert(a@ =~= b@);
    }
    true
}

} // verus!
