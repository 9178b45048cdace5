use vstd::prelude::*;

verus! {

/// The map that a list of entries denotes; later entries shadow earlier ones.
pub open spec fn entries_map(es: Seq<(Seq<char>, Seq<char>)>) -> Map<Seq<char>, Seq<char>>
    decreases es.len(),
{
    if es.len() == 0 {
        Map::empty()
    } else {
        entries_map(es.drop_last()).insert(es.last().0, es.last().1)
    }
}

/// The character views of a key and its value.
pub open spec fn pair_view(e: (String, String)) -> (Seq<char>, Seq<char>) {
    (e.0@, e.1@)
}

/// The character views of a list of entries.
pub open spec fn pair_views(v: Seq<(String, String)>) -> Seq<(Seq<char>, Seq<char>)> {
    v.map_values(|e: (String, String)| pair_view(e))
}

/// The character views of a list of strings.
pub open spec fn string_views(v: Seq<String>) -> Seq<Seq<char>> {
    v.map_values(|s: String| s@)
}

/// The entries after setting `k` to `v`: in place where `k` is present,
/// else appended.
pub open spec fn upsert(es: Seq<(Seq<char>, Seq<char>)>, k: Seq<char>, v: Seq<char>) -> Seq<(Seq<char>, Seq<char>)> {
    if exists|i: int| 0 <= i < es.len() && es[i].0 == k {
        let i = choose|i: int| 0 <= i < es.len() && es[i].0 == k;
        es.update(i, (k, v))
    } else {
        es.push((k, v))
    }
}

/// The keys of a list of entries are pairwise distinct.
pub open spec fn keys_distinct(es: Seq<(Seq<char>, Seq<char>)>) -> bool {
    forall|i: int, j: int| 0 <= i < j < es.len() ==> (#[trigger] es[i]).0 != (#[trigger] es[j]).0
}

/// A string-to-string map that keeps its entries in insertion order.
#[derive(Clone, Debug)]
pub struct StrMap {
    pub entries: Vec<(String, String)>,
}

impl View for StrMap {
    type V = Map<Seq<char>, Seq<char>>;

    open spec fn view(&self) -> Map<Seq<char>, Seq<char>> {
        entries_map(self.entry_views())
    }
}

pub proof fn lemma_entries_map_domain(es: Seq<(Seq<char>, Seq<char>)>, k: Seq<char>)
    ensures
        entries_map(es).contains_key(k) <==> exists|i: int| 0 <= i < es.len() && es[i].0 == k,
    decreases es.len(),
{
    if es.len() > 0 {
        lemma_entries_map_domain(es.drop_last(), k);
        if entries_map(es).contains_key(k) && k != es.last().0 {
            let i = choose|i: int| 0 <= i < es.len() - 1 && es.drop_last()[i].0 == k;
            assert(es[i].0 == k);
        }
        if exists|i: int| 0 <= i < es.len() && es[i].0 == k {
            let i = choose|i: int| 0 <= i < es.len() && es[i].0 == k;
            if i < es.len() - 1 {
                assert(es.drop_last()[i].0 == k);
            }
        }
    }
}

pub proof fn lemma_entries_map_value(es: Seq<(Seq<char>, Seq<char>)>, i: int)
    requires
        keys_distinct(es),
        0 <= i < es.len(),
    ensures
        entries_map(es).contains_key(es[i].0),
        entries_map(es)[es[i].0] == es[i].1,
    decreases es.len(),
{
    if i < es.len() - 1 {
        assert(es.drop_last()[i] == es[i]);
        assert(keys_distinct(es.drop_last())) by {
            assert forall|a: int, b: int| 0 <= a < b < es.drop_last().len() implies
                (#[trigger] es.drop_last()[a]).0 != (#[trigger] es.drop_last()[b]).0 by {
                assert(es.drop_last()[a] == es[a]);
                assert(es.drop_last()[b] == es[b]);
            }
        }
        lemma_entries_map_value(es.drop_last(), i);
        assert(es[i].0 != es[es.len() - 1].0);
    }
}

impl StrMap {
    pub open spec fn entry_views(&self) -> Seq<(Seq<char>, Seq<char>)> {
        pair_views(self.entries@)
    }

    /// Keys are unique.
    pub open spec fn wf(&self) -> bool {
        keys_distinct(self.entry_views())
    }

    pub fn new() -> (r: StrMap)
        ensures
            r.wf(),
            r@ == Map::<Seq<char>, Seq<char>>::empty(),
            r.entry_views() == Seq::<(Seq<char>, Seq<char>)>::empty(),
    {
        let r = StrMap { entries: Vec::new() };
        assert(r.entry_views() =~= Seq::empty());
        r
    }

    /// An independent copy with the same entries.
    pub fn duplicate(&self) -> (r: StrMap)
        ensures
            r.entry_views() == self.entry_views(),
            r@ == self@,
    {
        let mut entries: Vec<(String, String)> = Vec::new();
        let mut i: usize = 0;
        while i < self.entries.len()
            invariant
                i <= self.entries.len(),
                entries@.len() == i,
                forall|a: int| 0 <= a < i ==> #[trigger] entries@[a] == self.entries@[a],
            decreases self.entries.len() - i,
        {
            let k = self.entries[i].0.clone();
            let v = self.entries[i].1.clone();
            entries.push((k, v));
            i = i + 1;
        }
        let r = StrMap { entries };
        assert(r.entries@ =~= self.entries@);
        r
    }

    pub fn len(&self) -> (r: usize)
        ensures
            r == self.entry_views().len(),
    {
        self.entries.len()
    }

    /// The entry at position `i`, in insertion order.
    pub fn entry(&self, i: usize) -> (r: (&String, &String))
        requires
            i < self.entry_views().len(),
        ensures
            (r.0@, r.1@) == self.entry_views()[i as int],
    {
        let e = &self.entries[i];
        (&e.0, &e.1)
    }

    fn position(&self, key: &String) -> (r: Option<usize>)
        ensures
            match r {
                Some(i) => i < self.entry_views().len() && self.entry_views()[i as int].0 == key@,
                None => forall|i: int|
                    0 <= i < self.entry_views().len() ==> (#[trigger] self.entry_views()[i]).0
                        != key@,
            },
    {
        let mut i: usize = 0;
        while i < self.entries.len()
            invariant
                i <= self.entries.len(),
                forall|j: int| 0 <= j < i ==> (#[trigger] self.entry_views()[j]).0 != key@,
            decreases self.entries.len() - i,
        {
            if self.entries[i].0 == *key {
                return Some(i);
            }
            i = i + 1;
        }
        None
    }

    /// Looks up the value stored under `key`.
    pub fn get(&self, key: &String) -> (r: Option<&String>)
        requires
            self.wf(),
        ensures
            match r {
                Some(v) => self@.contains_key(key@) && self@[key@] == v@,
                None => !self@.contains_key(key@),
            },
    {
        proof {
            lemma_entries_map_domain(self.entry_views(), key@);
        }
        match self.position(key) {
            Some(i) => {
                proof {
                    lemma_entries_map_value(self.entry_views(), i as int);
                }
                Some(&self.entries[i].1)
            },
            None => None,
        }
    }

    /// Sets `key` to `value`, replacing any earlier value.
    pub fn insert(&mut self, key: String, value: String)
        requires
            old(self).wf(),
        ensures
            final(self).wf(),
            final(self)@ == old(self)@.insert(key@, value@),
            final(self).entry_views() == upsert(old(self).entry_views(), key@, value@),
    {
        let ghost old_views = self.entry_views();
        match self.position(&key) {
            Some(i) => {
                self.entries.set(i, (key, value));
                proof {
                    let nv = self.entry_views();
                    assert(nv =~= old_views.update(i as int, (key@, value@)));
                    assert(keys_distinct(nv));
                    let j = choose|j: int| 0 <= j < old_views.len() && old_views[j].0 == key@;
                    assert(j == i);
                    assert forall|k: Seq<char>| #[trigger] self@.contains_key(k)
                        == old(self)@.insert(key@, value@).contains_key(k) by {
                        lemma_entries_map_domain(nv, k);
                        lemma_entries_map_domain(old_views, k);
                        if exists|j: int| 0 <= j < old_views.len() && old_views[j].0 == k {
                            let j = choose|j: int| 0 <= j < old_views.len() && old_views[j].0 == k;
                            assert(nv[j].0 == k);
                        }
                        if exists|j: int| 0 <= j < nv.len() && nv[j].0 == k {
                            let j = choose|j: int| 0 <= j < nv.len() && nv[j].0 == k;
                            if j != i {
                                assert(old_views[j].0 == k);
                            }
                        }
                    }
                    assert forall|k: Seq<char>| #[trigger] self@.contains_key(k) implies self@[k]
                        == old(self)@.insert(key@, value@)[k] by {
                        lemma_entries_map_domain(nv, k);
                        let j = choose|j: int| 0 <= j < nv.len() && nv[j].0 == k;
                        lemma_entries_map_value(nv, j);
                        if j != i {
                            lemma_entries_map_value(old_views, j);
                        }
                    }
                    assert(self@ =~= old(self)@.insert(key@, value@));
                }
            },
            None => {
                self.entries.push((key, value));
                proof {
                    let nv = self.entry_views();
                    assert(nv.drop_last() =~= old_views);
                    assert(keys_distinct(nv)) by {
                        assert forall|a: int, b: int| 0 <= a < b < nv.len() implies
                            (#[trigger] nv[a]).0 != (#[trigger] nv[b]).0 by {
                            if b == nv.len() - 1 {
                                assert(old_views[a] == nv[a]);
                            } else {
                                assert(old_views[a] == nv[a]);
                                assert(old_views[b] == nv[b]);
                            }
                        }
                    }
                }
            },
        }
    }

    /// Removes every entry whose key is one of `keys`.
    pub fn remove_keys(&mut self, keys: &[String])
        requires
            old(self).wf(),
        ensures
            final(self).wf(),
            final(self)@ == old(self)@.restrict(
                old(self)@.dom().filter(|k: Seq<char>| !string_views(keys@).contains(k)),
            ),
    {
        let ghost old_views = self.entry_views();
        let ghost ks = string_views(keys@);
        let ghost keep = |e: (Seq<char>, Seq<char>)| !ks.contains(e.0);
        let mut kept: Vec<(String, String)> = Vec::new();
        let mut i: usize = 0;
        while i < self.entries.len()
            invariant
                i <= self.entries.len(),
                self.entry_views() == old_views,
                ks == string_views(keys@),
                keep == (|e: (Seq<char>, Seq<char>)| !ks.contains(e.0)),
                pair_views(kept@) == old_views.subrange(0, i as int).filter(keep),
            decreases self.entries.len() - i,
        {
            let mut hit = false;
            let mut j: usize = 0;
            while j < keys.len()
                invariant
                    j <= keys.len(),
                    i < self.entries.len(),
                    ks == string_views(keys@),
                    hit == exists|a: int| 0 <= a < j && ks[a] == self.entries@[i as int].0@,
                decreases keys.len() - j,
            {
                proof {
                    assert(ks[j as int] == keys@[j as int]@);
                }
                if keys[j] == self.entries[i].0 {
                    hit = true;
                }
                j = j + 1;
            }
            let ghost prefix = old_views.subrange(0, i as int);
            let ghost next = old_views.subrange(0, i as int + 1);
            proof {
                reveal(Seq::filter);
                assert(next.drop_last() =~= prefix);
                assert(next.last() == old_views[i as int]);
                assert(old_views[i as int].0 == self.entries@[i as int].0@);
                if hit {
                    let a = choose|a: int| 0 <= a < j && ks[a] == self.entries@[i as int].0@;
                    assert(ks.contains(ks[a]));
                } else {
                    assert(!ks.contains(old_views[i as int].0));
                }
            }
            if !hit {
                let k = self.entries[i].0.clone();
                let v = self.entries[i].1.clone();
                let ghost before = kept@;
                kept.push((k, v));
                proof {
                    reveal(Seq::filter);
                    assert(kept@ == before.push((k, v)));
                    assert(old_views[i as int] == (k@, v@));
                    assert(pair_views(kept@) =~= next.filter(keep));
                }
            } else {
                proof {
                    reveal(Seq::filter);
                    assert(next.filter(keep) == prefix.filter(keep));
                }
            }
            i = i + 1;
        }
        proof {
            assert(old_views.subrange(0, i as int) =~= old_views);
            lemma_filter_keys_distinct(old_views, keep);
            lemma_filter_map(old_views, ks);
        }
        self.entries = kept;
        proof {
            assert(self.entry_views() =~= old_views.filter(keep));
            assert(self@ =~= old(self)@.restrict(old(self)@.dom().filter(|k: Seq<char>| !ks.contains(k))));
        }
    }
}

proof fn lemma_filter_member<A>(es: Seq<A>, p: spec_fn(A) -> bool, i: int)
    requires
        0 <= i < es.filter(p).len(),
    ensures
        exists|j: int| 0 <= j < es.len() && es[j] == es.filter(p)[i],
    decreases es.len(),
{
    reveal(Seq::filter);
    if es.len() > 0 {
        let sub = es.drop_last().filter(p);
        if i < sub.len() {
            lemma_filter_member(es.drop_last(), p, i);
            let j = choose|j: int| 0 <= j < es.drop_last().len() && es.drop_last()[j] == sub[i];
            assert(es[j] == es.filter(p)[i]);
        } else {
            assert(es[es.len() - 1] == es.filter(p)[i]);
        }
    }
}

proof fn lemma_filter_keys_distinct(
    es: Seq<(Seq<char>, Seq<char>)>,
    p: spec_fn((Seq<char>, Seq<char>)) -> bool,
)
    requires
        keys_distinct(es),
    ensures
        keys_distinct(es.filter(p)),
    decreases es.len(),
{
    reveal(Seq::filter);
    if es.len() > 0 {
        let rest = es.drop_last();
        assert(keys_distinct(rest)) by {
            assert forall|a: int, b: int| 0 <= a < b < rest.len() implies
                (#[trigger] rest[a]).0 != (#[trigger] rest[b]).0 by {
                assert(rest[a] == es[a] && rest[b] == es[b]);
            }
        }
        lemma_filter_keys_distinct(rest, p);
        let f = es.filter(p);
        let sub = rest.filter(p);
        if p(es.last()) {
            assert forall|a: int, b: int| 0 <= a < b < f.len() implies
                (#[trigger] f[a]).0 != (#[trigger] f[b]).0 by {
                if b == f.len() - 1 {
                    lemma_filter_member(rest, p, a);
                    let j = choose|j: int| 0 <= j < rest.len() && rest[j] == sub[a];
                    assert(es[j] == f[a]);
                    assert(f[b] == es[es.len() - 1]);
                } else {
                    assert(f[a] == sub[a] && f[b] == sub[b]);
                }
            }
        }
    }
}

proof fn lemma_filter_map(es: Seq<(Seq<char>, Seq<char>)>, ks: Seq<Seq<char>>)
    ensures
        entries_map(es.filter(|e: (Seq<char>, Seq<char>)| !ks.contains(e.0))) =~= entries_map(
            es,
        ).restrict(entries_map(es).dom().filter(|k: Seq<char>| !ks.contains(k))),
    decreases es.len(),
{
    reveal(Seq::filter);
    let keep = |e: (Seq<char>, Seq<char>)| !ks.contains(e.0);
    let pk = |k: Seq<char>| !ks.contains(k);
    if es.len() > 0 {
        let rest = es.drop_last();
        let x = es.last();
        lemma_filter_map(rest, ks);
        let f = es.filter(keep);
        let sub = rest.filter(keep);
        let m = entries_map(rest);
        if keep(x) {
            assert(f == sub.push(x));
            assert(f.drop_last() =~= sub);
            assert(entries_map(f) == entries_map(sub).insert(x.0, x.1));
            assert(entries_map(es) == m.insert(x.0, x.1));
            assert(entries_map(f) =~= m.insert(x.0, x.1).restrict(m.insert(x.0, x.1).dom().filter(pk)));
        } else {
            assert(f == sub);
            assert(entries_map(es) == m.insert(x.0, x.1));
            assert(entries_map(f) =~= m.insert(x.0, x.1).restrict(m.insert(x.0, x.1).dom().filter(pk)));
        }
    }
}

pub proof fn lemma_keys_distinct_same(a: Seq<(Seq<char>, Seq<char>)>, b: Seq<(Seq<char>, Seq<char>)>)
    requires
        a == b,
        keys_distinct(a),
    ensures
        keys_distinct(b),
{
}

} // verus!
