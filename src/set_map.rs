use vstd::prelude::*;

verus! {

/// Whether the string `s` occurs in `v`.
pub open spec fn has_str(v: Seq<String>, s: Seq<char>) -> bool {
    exists|j: int| 0 <= j < v.len() && #[trigger] v[j]@ == s
}

/// The set of strings held in `v`.
pub open spec fn str_set(v: Seq<String>) -> Set<Seq<char>> {
    Set::new(|s: Seq<char>| has_str(v, s))
}

/// No string occurs twice in `v`.
pub open spec fn distinct_strs(v: Seq<String>) -> bool {
    forall|i: int, j: int|
        0 <= i < v.len() && 0 <= j < v.len() && i != j ==> #[trigger] v[i]@ != #[trigger] v[j]@
}

/// The set stored under `k`, or the empty set when `k` has no entry.
pub open spec fn set_at(m: Map<Seq<char>, Set<Seq<char>>>, k: Seq<char>) -> Set<Seq<char>> {
    if m.contains_key(k) {
        m[k]
    } else {
        Set::empty()
    }
}

/// One entry of a `SetMap`: a key and the distinct strings filed under it.
pub struct Bucket {
    pub key: String,
    pub members: Vec<String>,
}

/// A map from strings to non-empty sets of strings, the shape of one table of the tag index.
///
/// A key whose set becomes empty is dropped, so every key present has at least one member.
pub struct SetMap {
    buckets: Vec<Bucket>,
    contents: Ghost<Map<Seq<char>, Set<Seq<char>>>>,
}

/// Copies the strings of `v`.
pub fn clone_strs(v: &Vec<String>) -> (r: Vec<String>)
    ensures
        r@ == v@,
{
    let mut r: Vec<String> = Vec::new();
    let mut i: usize = 0;
    while i < v.len()
        invariant
            i <= v@.len(),
            r@ == v@.subrange(0, i as int),
        decreases v@.len() - i,
    {
        r.push(v[i].clone());
        i = i + 1;
        assert(r@ =~= v@.subrange(0, i as int));
    }
    assert(r@ =~= v@);
    r
}

/// Position of `s` in `v`, if it occurs there.
pub fn position_of(v: &Vec<String>, s: &String) -> (r: Option<usize>)
    ensures
        r is Some ==> r->0 < v@.len() && v@[r->0 as int]@ == s@,
        r is None <==> !has_str(v@, s@),
{
    let mut i: usize = 0;
    while i < v.len()
        invariant
            i <= v@.len(),
            forall|j: int| 0 <= j < i ==> #[trigger] v@[j]@ != s@,
        decreases v@.len() - i,
    {
        if v[i] == *s {
            return Some(i);
        }
        i = i + 1;
    }
    None
}

/// Removing the one occurrence of a string from a list of distinct strings
/// removes exactly that string from the set it holds.
proof fn lemma_remove_distinct(v: Seq<String>, i: int)
    requires
        0 <= i < v.len(),
        distinct_strs(v),
    ensures
        str_set(v.remove(i)) == str_set(v).remove(v[i]@),
        distinct_strs(v.remove(i)),
{
    let w = v.remove(i);
    assert forall|s: Seq<char>| has_str(w, s) <==> (has_str(v, s) && s != v[i]@) by {
        if has_str(w, s) {
            let j = choose|j: int| 0 <= j < w.len() && #[trigger] w[j]@ == s;
            if j < i {
                assert(v[j]@ == s);
            } else {
                assert(v[j + 1]@ == s);
            }
        }
        if has_str(v, s) && s != v[i]@ {
            let j = choose|j: int| 0 <= j < v.len() && #[trigger] v[j]@ == s;
            if j < i {
                assert(w[j]@ == s);
            } else {
                assert(w[j - 1]@ == s);
            }
        }
    }
    assert(str_set(w) =~= str_set(v).remove(v[i]@));
    assert forall|a: int, b: int| 0 <= a < w.len() && 0 <= b < w.len() && a != b implies
        #[trigger] w[a]@ != #[trigger] w[b]@ by {
        let a2 = if a < i { a } else { a + 1 };
        let b2 = if b < i { b } else { b + 1 };
        assert(w[a] == v[a2]);
        assert(w[b] == v[b2]);
    }
}

/// Appending a string that is not yet present adds it to the set and keeps the list distinct.
proof fn lemma_push_fresh(v: Seq<String>, x: String)
    requires
        distinct_strs(v),
        !has_str(v, x@),
    ensures
        str_set(v.push(x)) == str_set(v).insert(x@),
        distinct_strs(v.push(x)),
{
    let w = v.push(x);
    assert forall|s: Seq<char>| has_str(w, s) <==> (has_str(v, s) || s == x@) by {
        if has_str(w, s) {
            let j = choose|j: int| 0 <= j < w.len() && #[trigger] w[j]@ == s;
            if j < v.len() {
                assert(v[j]@ == s);
            }
        }
        if has_str(v, s) {
            let j = choose|j: int| 0 <= j < v.len() && #[trigger] v[j]@ == s;
            assert(w[j]@ == s);
        }
        if s == x@ {
            assert(w[v.len() as int]@ == s);
        }
    }
    assert(str_set(w) =~= str_set(v).insert(x@));
    assert forall|a: int, b: int| 0 <= a < w.len() && 0 <= b < w.len() && a != b implies
        #[trigger] w[a]@ != #[trigger] w[b]@ by {
        if a == v.len() {
            assert(w[b] == v[b]);
        } else if b == v.len() {
            assert(w[a] == v[a]);
        } else {
            assert(w[a] == v[a]);
            assert(w[b] == v[b]);
        }
    }
}

/// A string occurs in the first `k + 1` entries exactly when it occurs in the first `k`
/// or is entry `k`.
pub proof fn lemma_has_str_prefix(v: Seq<String>, k: int, s: Seq<char>)
    requires
        0 <= k < v.len(),
    ensures
        has_str(v.subrange(0, k + 1), s) <==> (has_str(v.subrange(0, k), s) || v[k]@ == s),
        v.subrange(0, v.len() as int) == v,
{
    let pre = v.subrange(0, k);
    let post = v.subrange(0, k + 1);
    if has_str(post, s) {
        let j = choose|j: int| 0 <= j < post.len() && #[trigger] post[j]@ == s;
        if j < k {
            assert(pre[j] == post[j]);
        }
    }
    if has_str(pre, s) {
        let j = choose|j: int| 0 <= j < pre.len() && #[trigger] pre[j]@ == s;
        assert(post[j] == pre[j]);
    }
    if v[k]@ == s {
        assert(post[k] == v[k]);
    }
    assert(v.subrange(0, v.len() as int) =~= v);
}

/// Appends `s` unless it is already present.
pub fn push_unique(v: &mut Vec<String>, s: String)
    requires
        distinct_strs(old(v)@),
    ensures
        distinct_strs(final(v)@),
        str_set(final(v)@) == str_set(old(v)@).insert(s@),
{
    match position_of(v, &s) {
        Some(_) => {
            assert(str_set(v@).contains(s@));
            assert(str_set(v@) =~= str_set(v@).insert(s@));
        },
        None => {
            proof {
                lemma_push_fresh(v@, s);
            }
            v.push(s);
        },
    }
}

impl SetMap {
    /// The map from each key to its set.
    pub closed spec fn view(&self) -> Map<Seq<char>, Set<Seq<char>>> {
        self.contents@
    }

    /// The buckets agree with the map: one bucket per key, each holding that key's set
    /// as a non-empty list of distinct strings.
    pub closed spec fn wf(&self) -> bool {
        let b = self.buckets@;
        let m = self.contents@;
        &&& forall|i: int|
            0 <= i < b.len() ==> {
                &&& m.contains_key(#[trigger] b[i].key@)
                &&& m[b[i].key@] == str_set(b[i].members@)
                &&& b[i].members@.len() > 0
                &&& distinct_strs(b[i].members@)
            }
        &&& forall|i: int, j: int|
            0 <= i < b.len() && 0 <= j < b.len() && i != j ==> #[trigger] b[i].key@
                != #[trigger] b[j].key@
        &&& forall|k: Seq<char>|
            #[trigger] m.contains_key(k) ==> exists|i: int| 0 <= i < b.len() && #[trigger] b[i].key@ == k
    }

    /// A well-formed map has no key with an empty set.
    pub proof fn lemma_no_empty_sets(&self)
        requires
            self.wf(),
        ensures
            forall|k: Seq<char>| #[trigger] self@.contains_key(k) ==> self@[k] != Set::<Seq<char>>::empty(),
    {
        assert forall|k: Seq<char>| #[trigger] self@.contains_key(k) implies self@[k] != Set::<
            Seq<char>,
        >::empty() by {
            let i = choose|i: int| 0 <= i < self.buckets@.len() && #[trigger] self.buckets@[i].key@ == k;
            let mem = self.buckets@[i].members@;
            assert(has_str(mem, mem[0]@));
            assert(str_set(mem).contains(mem[0]@));
        }
    }

    pub fn new() -> (r: SetMap)
        ensures
            r.wf(),
            r@ == Map::<Seq<char>, Set<Seq<char>>>::empty(),
    {
        SetMap { buckets: Vec::new(), contents: Ghost(Map::empty()) }
    }

    fn find(&self, k: &String) -> (r: Option<usize>)
        requires
            self.wf(),
        ensures
            r is Some ==> r->0 < self.buckets@.len() && self.buckets@[r->0 as int].key@ == k@,
            r is None ==> !self@.contains_key(k@),
    {
        let mut i: usize = 0;
        while i < self.buckets.len()
            invariant
                self.wf(),
                i <= self.buckets@.len(),
                forall|j: int| 0 <= j < i ==> #[trigger] self.buckets@[j].key@ != k@,
            decreases self.buckets@.len() - i,
        {
            if self.buckets[i].key == *k {
                return Some(i);
            }
            i = i + 1;
        }
        None
    }

    /// The strings filed under `k`, each once; none when `k` has no entry.
    pub fn get(&self, k: &String) -> (r: Vec<String>)
        requires
            self.wf(),
        ensures
            str_set(r@) == set_at(self@, k@),
            distinct_strs(r@),
    {
        match self.find(k) {
            Some(i) => clone_strs(&self.buckets[i].members),
            None => {
                let r: Vec<String> = Vec::new();
                assert(str_set(r@) =~= Set::empty());
                r
            },
        }
    }

    /// Every key, each once.
    pub fn keys(&self) -> (r: Vec<String>)
        requires
            self.wf(),
        ensures
            str_set(r@) == self@.dom(),
            distinct_strs(r@),
    {
        let mut r: Vec<String> = Vec::new();
        let mut i: usize = 0;
        while i < self.buckets.len()
            invariant
                self.wf(),
                i <= self.buckets@.len(),
                r@.len() == i,
                forall|j: int| 0 <= j < i ==> #[trigger] r@[j]@ == self.buckets@[j].key@,
            decreases self.buckets@.len() - i,
        {
            r.push(self.buckets[i].key.clone());
            i = i + 1;
        }
        let ghost b = self.buckets@;
        assert forall|s: Seq<char>| has_str(r@, s) <==> self@.contains_key(s) by {
            if has_str(r@, s) {
                let j = choose|j: int| 0 <= j < r@.len() && #[trigger] r@[j]@ == s;
                assert(b[j].key@ == s);
            }
            if self@.contains_key(s) {
                let j = choose|j: int| 0 <= j < b.len() && #[trigger] b[j].key@ == s;
                assert(r@[j]@ == s);
            }
        }
        assert(str_set(r@) =~= self@.dom());
        assert forall|a: int, c: int| 0 <= a < r@.len() && 0 <= c < r@.len() && a != c implies
            #[trigger] r@[a]@ != #[trigger] r@[c]@ by {
            assert(r@[a]@ == b[a].key@);
            assert(r@[c]@ == b[c].key@);
        }
        r
    }

    /// Files `v` under `k`, creating the entry if needed.
    #[verifier::spinoff_prover]
    pub fn insert(&mut self, k: &String, v: &String)
        requires
            old(self).wf(),
        ensures
            final(self).wf(),
            final(self)@ == old(self)@.insert(k@, set_at(old(self)@, k@).insert(v@)),
            forall|kk: Seq<char>|
                #[trigger] set_at(final(self)@, kk) == if kk == k@ {
                    set_at(old(self)@, k@).insert(v@)
                } else {
                    set_at(old(self)@, kk)
                },
    {
        let ghost m0 = self.contents@;
        let ghost b0 = self.buckets@;
        match self.find(k) {
            Some(i) => {
                let mut b = self.buckets.remove(i);
                proof {
                    assert(b0[i as int] == b);
                    assert(m0[k@] == str_set(b.members@));
                }
                match position_of(&b.members, v) {
                    Some(_) => {
                        assert(str_set(b.members@).contains(v@));
                        assert(m0[k@].insert(v@) =~= m0[k@]);
                        assert(m0.insert(k@, m0[k@].insert(v@)) =~= m0);
                    },
                    None => {
                        let vc = v.clone();
                        proof {
                            lemma_push_fresh(b.members@, vc);
                        }
                        b.members.push(vc);
                    },
                }
                self.buckets.insert(i, b);
                self.contents = Ghost(m0.insert(k@, set_at(m0, k@).insert(v@)));
                assert(self.buckets@ == b0.update(i as int, b));
                proof {
                    let m = self.contents@;
                    let bs = self.buckets@;
                    assert forall|j: int| 0 <= j < bs.len() && j != i implies bs[j] == b0[j] by {}
                    assert(m[k@] == str_set(b.members@));
                    assert forall|x: int| 0 <= x < bs.len() implies {
                        &&& m.contains_key(#[trigger] bs[x].key@)
                        &&& m[bs[x].key@] == str_set(bs[x].members@)
                        &&& bs[x].members@.len() > 0
                        &&& distinct_strs(bs[x].members@)
                    } by {
                        if x != i {
                            assert(bs[x] == b0[x]);
                            assert(b0[x].key@ != k@);
                        }
                    }
                    assert forall|kk: Seq<char>| #[trigger] m.contains_key(kk) implies exists|j: int|
                        0 <= j < bs.len() && #[trigger] bs[j].key@ == kk by {
                        if kk == k@ {
                            assert(bs[i as int].key@ == kk);
                        } else {
                            let j = choose|j: int| 0 <= j < b0.len() && #[trigger] b0[j].key@ == kk;
                            assert(bs[j].key@ == kk);
                        }
                    }
                }
            },
            None => {
                let mut members: Vec<String> = Vec::new();
                members.push(v.clone());
                let b = Bucket { key: k.clone(), members };
                proof {
                    let mem = b.members@;
                    assert(has_str(mem, v@)) by {
                        assert(mem[0]@ == v@);
                    }
                    assert forall|s: Seq<char>| has_str(mem, s) <==> s == v@ by {
                        if has_str(mem, s) {
                            let j = choose|j: int| 0 <= j < mem.len() && #[trigger] mem[j]@ == s;
                            assert(j == 0);
                        }
                    }
                    assert(str_set(mem) =~= Set::<Seq<char>>::empty().insert(v@));
                }
                self.buckets.push(b);
                self.contents = Ghost(m0.insert(k@, set_at(m0, k@).insert(v@)));
                proof {
                    let m = self.contents@;
                    let bs = self.buckets@;
                    assert(bs == b0.push(b));
                    assert forall|kk: Seq<char>| #[trigger] m.contains_key(kk) implies exists|j: int|
                        0 <= j < bs.len() && #[trigger] bs[j].key@ == kk by {
                        if kk == k@ {
                            assert(bs[b0.len() as int].key@ == kk);
                        } else {
                            let j = choose|j: int| 0 <= j < b0.len() && #[trigger] b0[j].key@ == kk;
                            assert(bs[j].key@ == kk);
                        }
                    }
                    assert forall|x: int, y: int|
                        0 <= x < bs.len() && 0 <= y < bs.len() && x != y implies #[trigger] bs[x].key@
                        != #[trigger] bs[y].key@ by {
                        if x == b0.len() {
                            assert(bs[y] == b0[y]);
                        } else if y == b0.len() {
                            assert(bs[x] == b0[x]);
                        } else {
                            assert(bs[x] == b0[x]);
                            assert(bs[y] == b0[y]);
                        }
                    }
                }
            },
        }
    }

    /// Drops the bucket at `i`, and its key from the map.
    fn drop_bucket(&mut self, i: usize)
        requires
            old(self).wf(),
            i < old(self).buckets@.len(),
        ensures
            final(self).wf(),
            final(self)@ == old(self)@.remove(old(self).buckets@[i as int].key@),
            final(self).buckets@ == old(self).buckets@.remove(i as int),
    {
        let ghost m0 = self.contents@;
        let ghost b0 = self.buckets@;
        let ghost k = b0[i as int].key@;
        let _ = self.buckets.remove(i);
        self.contents = Ghost(m0.remove(k));
        proof {
            let m = self.contents@;
            let bs = self.buckets@;
            assert forall|j: int| 0 <= j < bs.len() implies #[trigger] bs[j] == b0[if j < i { j } else { j + 1 }] by {}
            assert forall|x: int| 0 <= x < bs.len() implies {
                &&& m.contains_key(#[trigger] bs[x].key@)
                &&& m[bs[x].key@] == str_set(bs[x].members@)
                &&& bs[x].members@.len() > 0
                &&& distinct_strs(bs[x].members@)
            } by {
                let x2 = if x < i { x } else { x + 1 };
                assert(bs[x] == b0[x2]);
                assert(b0[x2].key@ != k);
            }
            assert forall|x: int, y: int|
                0 <= x < bs.len() && 0 <= y < bs.len() && x != y implies #[trigger] bs[x].key@
                != #[trigger] bs[y].key@ by {
                let x2 = if x < i { x } else { x + 1 };
                let y2 = if y < i { y } else { y + 1 };
                assert(bs[x] == b0[x2]);
                assert(bs[y] == b0[y2]);
            }
            assert forall|kk: Seq<char>| #[trigger] m.contains_key(kk) implies exists|j: int|
                0 <= j < bs.len() && #[trigger] bs[j].key@ == kk by {
                let j = choose|j: int| 0 <= j < b0.len() && #[trigger] b0[j].key@ == kk;
                assert(j != i);
                let j2 = if j < i { j } else { j - 1 };
                assert(bs[j2] == b0[j]);
            }
        }
    }

    /// Removes `v` from the set under `k`; a key whose set becomes empty is dropped.
    #[verifier::spinoff_prover]
    pub fn remove(&mut self, k: &String, v: &String)
        requires
            old(self).wf(),
        ensures
            final(self).wf(),
            final(self)@ == (if set_at(old(self)@, k@).remove(v@).is_empty() {
                old(self)@.remove(k@)
            } else {
                old(self)@.insert(k@, set_at(old(self)@, k@).remove(v@))
            }),
            forall|kk: Seq<char>|
                #[trigger] set_at(final(self)@, kk) == if kk == k@ {
                    set_at(old(self)@, k@).remove(v@)
                } else {
                    set_at(old(self)@, kk)
                },
    {
        let ghost m0 = self.contents@;
        let ghost b0 = self.buckets@;
        match self.find(k) {
            Some(i) => {
                let ghost old_set = m0[k@];
                match position_of(&self.buckets[i].members, v) {
                    Some(p) => {
                        if self.buckets[i].members.len() == 1 {
                            proof {
                                lemma_remove_distinct(b0[i as int].members@, p as int);
                                assert(b0[i as int].members@.remove(p as int).len() == 0);
                                assert(str_set(b0[i as int].members@.remove(p as int)) =~= Set::empty());
                            }
                            self.drop_bucket(i);
                        } else {
                            let mut b = self.buckets.remove(i);
                            proof {
                                assert(b == b0[i as int]);
                                lemma_remove_distinct(b.members@, p as int);
                                let w = b.members@.remove(p as int);
                                assert(has_str(w, w[0]@));
                                assert(str_set(w).contains(w[0]@));
                            }
                            let _ = b.members.remove(p);
                            self.buckets.insert(i, b);
                            self.contents = Ghost(m0.insert(k@, old_set.remove(v@)));
                            assert(self.buckets@ == b0.update(i as int, b));
                            proof {
                                let m = self.contents@;
                                let bs = self.buckets@;
                                assert forall|j: int| 0 <= j < bs.len() && j != i implies bs[j] == b0[j] by {}
                                assert(m[k@] == str_set(b.members@));
                                assert forall|x: int| 0 <= x < bs.len() implies {
                                    &&& m.contains_key(#[trigger] bs[x].key@)
                                    &&& m[bs[x].key@] == str_set(bs[x].members@)
                                    &&& bs[x].members@.len() > 0
                                    &&& distinct_strs(bs[x].members@)
                                } by {
                                    if x != i {
                                        assert(bs[x] == b0[x]);
                                        assert(b0[x].key@ != k@);
                                    }
                                }
                                assert forall|kk: Seq<char>| #[trigger] m.contains_key(kk) implies exists|j: int|
                                    0 <= j < bs.len() && #[trigger] bs[j].key@ == kk by {
                                    if kk == k@ {
                                        assert(bs[i as int].key@ == kk);
                                    } else {
                                        let j = choose|j: int| 0 <= j < b0.len() && #[trigger] b0[j].key@ == kk;
                                        assert(bs[j].key@ == kk);
                                    }
                                }
                            }
                        }
                    },
                    None => {
                        proof {
                            assert(!old_set.contains(v@));
                            assert(old_set.remove(v@) =~= old_set);
                            self.lemma_no_empty_sets();
                            assert(m0.insert(k@, old_set) =~= m0);
                        }
                    },
                }
            },
            None => {
                proof {
                    assert(set_at(m0, k@).remove(v@) =~= Set::empty());
                    assert(m0.remove(k@) =~= m0);
                }
            },
        }
    }

    /// Drops the entry for `k` and hands back the strings it held.
    pub fn remove_key(&mut self, k: &String) -> (r: Vec<String>)
        requires
            old(self).wf(),
        ensures
            final(self).wf(),
            final(self)@ == old(self)@.remove(k@),
            str_set(r@) == set_at(old(self)@, k@),
            distinct_strs(r@),
    {
        let ghost m0 = self.contents@;
        match self.find(k) {
            Some(i) => {
                let r = clone_strs(&self.buckets[i].members);
                self.drop_bucket(i);
                r
            },
            None => {
                let r: Vec<String> = Vec::new();
                assert(str_set(r@) =~= Set::empty());
                assert(m0.remove(k@) =~= m0);
                r
            },
        }
    }
}

} // verus!
