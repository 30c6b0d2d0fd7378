use vstd::prelude::*;

use crate::errors::Apologize;
use crate::set_map::{clone_strs, distinct_strs, has_str, lemma_has_str_prefix, set_at, str_set, SetMap};

verus! {

/// An annotation record as the index keeps it: its identifier, the document it is
/// attached to, its body, the quoted passages and the tags it came with.
pub struct Annotation {
    pub id: String,
    pub uri: String,
    pub text: String,
    pub quotes: Vec<String>,
    pub tags: Vec<String>,
}

impl Annotation {
    /// The same record, field by field.
    pub open spec fn same_as(&self, other: &Annotation) -> bool {
        &&& self.id@ == other.id@
        &&& self.uri@ == other.uri@
        &&& self.text@ == other.text@
        &&& self.quotes@ == other.quotes@
        &&& self.tags@ == other.tags@
    }

    /// A copy of this record.
    pub fn duplicate(&self) -> (r: Annotation)
        ensures
            r.same_as(self),
    {
        Annotation {
            id: self.id.clone(),
            uri: self.uri.clone(),
            text: self.text.clone(),
            quotes: clone_strs(&self.quotes),
            tags: clone_strs(&self.tags),
        }
    }
}

/// Whether some record of `s` has the identifier `id`.
pub open spec fn has_record(s: Seq<Annotation>, id: Seq<char>) -> bool {
    exists|j: int| 0 <= j < s.len() && #[trigger] s[j].id@ == id
}

/// A record id occurs in the first `k + 1` records exactly when it occurs in the first
/// `k` or is the id of record `k`.
pub proof fn lemma_has_record_prefix(s: Seq<Annotation>, k: int, id: Seq<char>)
    requires
        0 <= k < s.len(),
    ensures
        has_record(s.subrange(0, k + 1), id) <==> (has_record(s.subrange(0, k), id) || s[k].id@ == id),
{
    let pre = s.subrange(0, k);
    let post = s.subrange(0, k + 1);
    if has_record(post, id) {
        let j = choose|j: int| 0 <= j < post.len() && #[trigger] post[j].id@ == id;
        if j < k {
            assert(pre[j] == post[j]);
        }
    }
    if has_record(pre, id) {
        let j = choose|j: int| 0 <= j < pre.len() && #[trigger] pre[j].id@ == id;
        assert(post[j] == pre[j]);
    }
    if s[k].id@ == id {
        assert(post[k] == s[k]);
    }
}

/// The tag index: tag → identifiers, identifier → tags, and the annotation records.
///
/// The two tables always describe the same relation, and neither keeps an empty entry.
pub struct TagIndex {
    tag_to_ids: SetMap,
    id_to_tags: SetMap,
    records: Vec<Annotation>,
}

impl TagIndex {
    /// The tags filed under the annotation `id`.
    pub closed spec fn tags_of_view(&self, id: Seq<char>) -> Set<Seq<char>> {
        set_at(self.id_to_tags@, id)
    }

    /// The annotations filed under `tag`.
    pub closed spec fn ids_with_tag_view(&self, tag: Seq<char>) -> Set<Seq<char>> {
        set_at(self.tag_to_ids@, tag)
    }

    /// The keys of the tag table.
    pub closed spec fn tag_set(&self) -> Set<Seq<char>> {
        self.tag_to_ids@.dom()
    }

    /// The annotation records, in the order they were stored.
    pub closed spec fn stored(&self) -> Seq<Annotation> {
        self.records@
    }

    /// The tagging relation as (annotation, tag) pairs.
    pub open spec fn view(&self) -> Set<(Seq<char>, Seq<char>)> {
        Set::new(|p: (Seq<char>, Seq<char>)| self.tags_of_view(p.0).contains(p.1))
    }

    pub closed spec fn wf(&self) -> bool {
        &&& self.tag_to_ids.wf()
        &&& self.id_to_tags.wf()
        &&& forall|id: Seq<char>, tag: Seq<char>|
            #[trigger] set_at(self.id_to_tags@, id).contains(tag) <==> #[trigger] set_at(
                self.tag_to_ids@,
                tag,
            ).contains(id)
        &&& forall|i: int, j: int|
            0 <= i < self.records@.len() && 0 <= j < self.records@.len() && i != j
                ==> #[trigger] self.records@[i].id@ != #[trigger] self.records@[j].id@
    }

    /// The two tables agree: a tag is filed under an annotation exactly when the
    /// annotation is filed under the tag.
    pub proof fn lemma_bidirectional(&self, id: Seq<char>, tag: Seq<char>)
        requires
            self.wf(),
        ensures
            self.tags_of_view(id).contains(tag) <==> self.ids_with_tag_view(tag).contains(id),
    {
    }

    /// Every listed tag has at least one annotation, and every tag that has one is listed.
    pub proof fn lemma_no_dangling_buckets(&self, tag: Seq<char>)
        requires
            self.wf(),
        ensures
            self.tag_set().contains(tag) <==> exists|id: Seq<char>|
                #[trigger] self.ids_with_tag_view(tag).contains(id),
    {
        self.tag_to_ids.lemma_no_empty_sets();
        if self.tag_set().contains(tag) {
            let s = self.ids_with_tag_view(tag);
            assert(s != Set::<Seq<char>>::empty());
            if forall|id: Seq<char>| !#[trigger] s.contains(id) {
                assert(s =~= Set::<Seq<char>>::empty());
            }
        }
    }

    /// Two well-formed indexes with the same tagging relation answer every lookup alike.
    pub proof fn lemma_same_relation(&self, other: &TagIndex)
        requires
            self.wf(),
            other.wf(),
            self@ == other@,
        ensures
            forall|id: Seq<char>| #[trigger] self.tags_of_view(id) == other.tags_of_view(id),
            forall|tag: Seq<char>| #[trigger] self.ids_with_tag_view(tag) == other.ids_with_tag_view(tag),
            self.tag_set() == other.tag_set(),
    {
        assert forall|id: Seq<char>| #[trigger] self.tags_of_view(id) == other.tags_of_view(id) by {
            assert forall|t: Seq<char>| self.tags_of_view(id).contains(t) <==> other.tags_of_view(id).contains(t) by {
                assert(self@.contains((id, t)) == self.tags_of_view(id).contains(t));
                assert(other@.contains((id, t)) == other.tags_of_view(id).contains(t));
            }
            assert(self.tags_of_view(id) =~= other.tags_of_view(id));
        }
        assert forall|tag: Seq<char>| #[trigger] self.ids_with_tag_view(tag) == other.ids_with_tag_view(tag) by {
            assert forall|x: Seq<char>| self.ids_with_tag_view(tag).contains(x) <==> other.ids_with_tag_view(tag).contains(x) by {
                assert(self@.contains((x, tag)) == self.tags_of_view(x).contains(tag));
                assert(other@.contains((x, tag)) == other.tags_of_view(x).contains(tag));
                self.lemma_bidirectional(x, tag);
                other.lemma_bidirectional(x, tag);
            }
            assert(self.ids_with_tag_view(tag) =~= other.ids_with_tag_view(tag));
        }
        assert forall|tag: Seq<char>| self.tag_set().contains(tag) <==> other.tag_set().contains(tag) by {
            self.lemma_no_dangling_buckets(tag);
            other.lemma_no_dangling_buckets(tag);
            if self.tag_set().contains(tag) {
                let x = choose|x: Seq<char>| #[trigger] self.ids_with_tag_view(tag).contains(x);
                assert(other.ids_with_tag_view(tag).contains(x));
            }
            if other.tag_set().contains(tag) {
                let x = choose|x: Seq<char>| #[trigger] other.ids_with_tag_view(tag).contains(x);
                assert(self.ids_with_tag_view(tag).contains(x));
            }
        }
        assert(self.tag_set() =~= other.tag_set());
    }

    /// Adding the same tag to the same annotation a second time leaves the index as the
    /// first addition left it.
    pub proof fn lemma_add_tag_idempotent(
        before: &TagIndex,
        once: &TagIndex,
        twice: &TagIndex,
        id: Seq<char>,
        tag: Seq<char>,
    )
        requires
            once.wf(),
            twice.wf(),
            once@ == before@.insert((id, tag)),
            twice@ == once@.insert((id, tag)),
        ensures
            twice@ == once@,
            forall|x: Seq<char>| #[trigger] twice.tags_of_view(x) == once.tags_of_view(x),
            forall|t: Seq<char>| #[trigger] twice.ids_with_tag_view(t) == once.ids_with_tag_view(t),
            twice.tag_set() == once.tag_set(),
    {
        assert(twice@ =~= once@);
        twice.lemma_same_relation(once);
    }

    /// Removing the same tag from the same annotation a second time leaves the index as
    /// the first removal left it.
    pub proof fn lemma_remove_tag_idempotent(
        before: &TagIndex,
        once: &TagIndex,
        twice: &TagIndex,
        id: Seq<char>,
        tag: Seq<char>,
    )
        requires
            once.wf(),
            twice.wf(),
            once@ == before@.remove((id, tag)),
            twice@ == once@.remove((id, tag)),
        ensures
            twice@ == once@,
            forall|x: Seq<char>| #[trigger] twice.tags_of_view(x) == once.tags_of_view(x),
            forall|t: Seq<char>| #[trigger] twice.ids_with_tag_view(t) == once.ids_with_tag_view(t),
            twice.tag_set() == once.tag_set(),
    {
        assert(twice@ =~= once@);
        twice.lemma_same_relation(once);
    }

    /// After an annotation is deleted it has no tags, and no tag it had still lists it.
    pub proof fn lemma_cascade(before: &TagIndex, after: &TagIndex, id: Seq<char>)
        requires
            before.wf(),
            after.wf(),
            after@ == Set::new(|p: (Seq<char>, Seq<char>)| before@.contains(p) && p.0 != id),
        ensures
            after.tags_of_view(id) == Set::<Seq<char>>::empty(),
            forall|t: Seq<char>|
                before.tags_of_view(id).contains(t) ==> !#[trigger] after.ids_with_tag_view(t).contains(id),
    {
        assert forall|t: Seq<char>| !after.tags_of_view(id).contains(t) by {
            assert(!after@.contains((id, t)));
        }
        assert(after.tags_of_view(id) =~= Set::<Seq<char>>::empty());
        assert forall|t: Seq<char>| !#[trigger] after.ids_with_tag_view(t).contains(id) by {
            after.lemma_bidirectional(id, t);
        }
    }

    /// Taking a tag off the last annotation that had it drops the tag from the tag list.
    pub proof fn lemma_last_id_drops_tag(before: &TagIndex, after: &TagIndex, id: Seq<char>, tag: Seq<char>)
        requires
            before.wf(),
            after.wf(),
            before.ids_with_tag_view(tag) == Set::<Seq<char>>::empty().insert(id),
            after@ == before@.remove((id, tag)),
        ensures
            !after.tag_set().contains(tag),
    {
        after.lemma_no_dangling_buckets(tag);
        assert forall|x: Seq<char>| !#[trigger] after.ids_with_tag_view(tag).contains(x) by {
            after.lemma_bidirectional(x, tag);
            before.lemma_bidirectional(x, tag);
            assert(after@.contains((x, tag)) ==> before@.contains((x, tag)) && x != id);
        }
    }

    pub fn new() -> (r: TagIndex)
        ensures
            r.wf(),
            r@ == Set::<(Seq<char>, Seq<char>)>::empty(),
            r.tag_set() == Set::<Seq<char>>::empty(),
            r.stored() == Seq::<Annotation>::empty(),
    {
        let r = TagIndex { tag_to_ids: SetMap::new(), id_to_tags: SetMap::new(), records: Vec::new() };
        assert(r@ =~= Set::<(Seq<char>, Seq<char>)>::empty());
        assert(r.tag_set() =~= Set::<Seq<char>>::empty());
        r
    }

    /// Every known tag, each once.
    pub fn all_tags(&self) -> (r: Vec<String>)
        requires
            self.wf(),
        ensures
            str_set(r@) == self.tag_set(),
            distinct_strs(r@),
    {
        self.tag_to_ids.keys()
    }

    /// The tags of the annotation `id`, each once; none when it has no entry.
    pub fn tags_of(&self, id: &String) -> (r: Vec<String>)
        requires
            self.wf(),
        ensures
            str_set(r@) == self.tags_of_view(id@),
            distinct_strs(r@),
    {
        self.id_to_tags.get(id)
    }

    /// The annotations tagged `tag`, each once; none when the tag is unknown.
    pub fn annotations_with_tag(&self, tag: &String) -> (r: Vec<String>)
        requires
            self.wf(),
        ensures
            str_set(r@) == self.ids_with_tag_view(tag@),
            distinct_strs(r@),
    {
        self.tag_to_ids.get(tag)
    }

    /// Strict lookup of the annotations tagged `tag`: an unknown tag is an error.
    pub fn annotations_with_known_tag(&self, tag: &String) -> (r: Result<Vec<String>, Apologize>)
        requires
            self.wf(),
        ensures
            self.tag_set().contains(tag@) <==> r is Ok,
            r is Ok ==> str_set(r->Ok_0@) == self.ids_with_tag_view(tag@) && distinct_strs(
                r->Ok_0@,
            ),
            r is Err ==> r->Err_0 == (Apologize::TagNotFound { tag: *tag }),
    {
        let ids = self.tag_to_ids.get(tag);
        if ids.len() == 0 {
            proof {
                self.tag_to_ids.lemma_no_empty_sets();
                assert(str_set(ids@) =~= Set::<Seq<char>>::empty());
            }
            Err(Apologize::TagNotFound { tag: tag.clone() })
        } else {
            proof {
                assert(str_set(ids@).contains(ids@[0]@)) by {
                    assert(has_str(ids@, ids@[0]@));
                }
            }
            Ok(ids)
        }
    }

    /// Files `tag` under the annotation `id` and `id` under `tag`.
    /// Adding a pair that is already present changes nothing.
    pub fn add_tag(&mut self, id: &String, tag: &String)
        requires
            old(self).wf(),
        ensures
            final(self).wf(),
            final(self)@ == old(self)@.insert((id@, tag@)),
            final(self).stored() == old(self).stored(),
    {
        self.tag_to_ids.insert(tag, id);
        self.id_to_tags.insert(id, tag);
        assert(self@ =~= old(self)@.insert((id@, tag@)));
    }

    /// Takes `tag` off the annotation `id`; a tag left with no annotation is dropped.
    /// Removing a pair that is not present changes nothing.
    pub fn remove_tag(&mut self, id: &String, tag: &String)
        requires
            old(self).wf(),
        ensures
            final(self).wf(),
            final(self)@ == old(self)@.remove((id@, tag@)),
            final(self).stored() == old(self).stored(),
    {
        self.tag_to_ids.remove(tag, id);
        self.id_to_tags.remove(id, tag);
        assert(self@ =~= old(self)@.remove((id@, tag@)));
    }

    fn find_record(&self, id: &String) -> (r: Option<usize>)
        requires
            self.wf(),
        ensures
            r is Some ==> r->0 < self.stored().len() && self.stored()[r->0 as int].id@ == id@,
            r is None <==> !has_record(self.stored(), id@),
    {
        let mut i: usize = 0;
        while i < self.records.len()
            invariant
                i <= self.records@.len(),
                forall|j: int| 0 <= j < i ==> #[trigger] self.records@[j].id@ != id@,
            decreases self.records@.len() - i,
        {
            if self.records[i].id == *id {
                return Some(i);
            }
            i = i + 1;
        }
        None
    }

    /// Strict lookup of the record of the annotation `id`: an unknown identifier is an error.
    pub fn get_annotation(&self, id: &String) -> (r: Result<Annotation, Apologize>)
        requires
            self.wf(),
        ensures
            has_record(self.stored(), id@) <==> r is Ok,
            r is Ok ==> exists|j: int|
                0 <= j < self.stored().len() && #[trigger] self.stored()[j].id@ == id@
                    && r->Ok_0.same_as(&self.stored()[j]),
            r is Err ==> r->Err_0 == (Apologize::AnnotationNotFound { id: *id }),
    {
        match self.find_record(id) {
            Some(i) => Ok(self.records[i].duplicate()),
            None => Err(Apologize::AnnotationNotFound { id: id.clone() }),
        }
    }

    /// Stores the record `a`, replacing a stored record with the same identifier.
    /// An annotation seen for the first time is tagged with the tags it came with.
    pub fn index_annotation(&mut self, a: Annotation)
        requires
            old(self).wf(),
        ensures
            final(self).wf(),
            has_record(old(self).stored(), a.id@) ==> final(self)@ == old(self)@ && exists|j: int|
                0 <= j < old(self).stored().len() && #[trigger] old(self).stored()[j].id@ == a.id@
                    && final(self).stored() == old(self).stored().update(j, a),
            !has_record(old(self).stored(), a.id@) ==> final(self)@ == old(self)@.union(
                Set::new(|p: (Seq<char>, Seq<char>)| p.0 == a.id@ && str_set(a.tags@).contains(p.1)),
            ) && final(self).stored() == old(self).stored().push(a),
    {
        let ghost r0 = self.records@;
        match self.find_record(&a.id) {
            Some(i) => {
                let _ = self.records.remove(i);
                self.records.insert(i, a);
                proof {
                    assert(self.records@ =~= r0.update(i as int, a));
                    let rs = self.records@;
                    assert forall|x: int, y: int|
                        0 <= x < rs.len() && 0 <= y < rs.len() && x != y implies #[trigger] rs[x].id@
                        != #[trigger] rs[y].id@ by {
                        if x != i {
                            assert(rs[x] == r0[x]);
                        }
                        if y != i {
                            assert(rs[y] == r0[y]);
                        }
                    }
                }
            },
            None => {
                let ghost v0 = self@;
                let ghost tags = a.tags@;
                let mut k: usize = 0;
                while k < a.tags.len()
                    invariant
                        self.wf(),
                        self.records@ == r0,
                        k <= tags.len(),
                        tags == a.tags@,
                        self@ == v0.union(
                            Set::new(|p: (Seq<char>, Seq<char>)|
                                p.0 == a.id@ && has_str(tags.subrange(0, k as int), p.1)),
                        ),
                    decreases tags.len() - k,
                {
                    self.add_tag(&a.id, &a.tags[k]);
                    proof {
                        assert forall|p: (Seq<char>, Seq<char>)| self@.contains(p) <==> (v0.contains(p) || (p.0
                            == a.id@ && has_str(tags.subrange(0, k + 1), p.1))) by {
                            lemma_has_str_prefix(tags, k as int, p.1);
                        }
                    }
                    k = k + 1;
                    assert(self@ =~= v0.union(
                        Set::new(|p: (Seq<char>, Seq<char>)|
                            p.0 == a.id@ && has_str(tags.subrange(0, k as int), p.1)),
                    ));
                }
                assert(tags.subrange(0, k as int) =~= tags);
                assert(self@ =~= v0.union(
                    Set::new(|p: (Seq<char>, Seq<char>)| p.0 == a.id@ && str_set(a.tags@).contains(p.1)),
                ));
                self.records.push(a);
                proof {
                    let rs = self.records@;
                    assert(rs == r0.push(a));
                    assert forall|x: int, y: int|
                        0 <= x < rs.len() && 0 <= y < rs.len() && x != y implies #[trigger] rs[x].id@
                        != #[trigger] rs[y].id@ by {
                        if x < r0.len() {
                            assert(rs[x] == r0[x]);
                        }
                        if y < r0.len() {
                            assert(rs[y] == r0[y]);
                        }
                    }
                }
            },
        }
    }

    /// Deletes the annotation `id`: it leaves every tag's entry it was filed under, its own
    /// entry goes, and so does its record. Deleting an unknown annotation changes nothing.
    pub fn remove_annotation(&mut self, id: &String)
        requires
            old(self).wf(),
        ensures
            final(self).wf(),
            final(self)@ == Set::new(
                |p: (Seq<char>, Seq<char>)| old(self)@.contains(p) && p.0 != id@,
            ),
            !has_record(final(self).stored(), id@),
            has_record(old(self).stored(), id@) ==> exists|j: int|
                0 <= j < old(self).stored().len() && #[trigger] old(self).stored()[j].id@ == id@
                    && final(self).stored() == old(self).stored().remove(j),
            !has_record(old(self).stored(), id@) ==> final(self).stored() == old(self).stored(),
            forall|a: Annotation|
                #[trigger] final(self).stored().contains(a) <==> (old(self).stored().contains(a) && a.id@ != id@),
    {
        let ghost t2i0 = self.tag_to_ids@;
        let ghost i2t0 = self.id_to_tags@;
        let ghost v0 = self@;
        let tags = self.id_to_tags.remove_key(id);
        let mut k: usize = 0;
        while k < tags.len()
            invariant
                self.tag_to_ids.wf(),
                self.id_to_tags.wf(),
                self.id_to_tags@ == i2t0.remove(id@),
                self.records == old(self).records,
                str_set(tags@) == set_at(i2t0, id@),
                k <= tags@.len(),
                forall|j: int| 0 <= j < k ==> !set_at(self.tag_to_ids@, #[trigger] tags@[j]@).contains(id@),
                forall|t: Seq<char>, x: Seq<char>|
                    x != id@ ==> (#[trigger] set_at(self.tag_to_ids@, t).contains(x) == set_at(t2i0, t).contains(x)),
                forall|t: Seq<char>|
                    #[trigger] set_at(self.tag_to_ids@, t).contains(id@) ==> set_at(t2i0, t).contains(id@),
            decreases tags@.len() - k,
        {
            self.tag_to_ids.remove(&tags[k], id);
            k = k + 1;
        }
        proof {
            assert forall|x: Seq<char>, t: Seq<char>|
                #[trigger] set_at(self.id_to_tags@, x).contains(t) <==> #[trigger] set_at(
                    self.tag_to_ids@,
                    t,
                ).contains(x) by {
                if x == id@ {
                    if set_at(self.tag_to_ids@, t).contains(x) {
                        assert(set_at(t2i0, t).contains(id@));
                        assert(set_at(i2t0, id@).contains(t));
                        assert(str_set(tags@).contains(t));
                        let j = choose|j: int| 0 <= j < tags@.len() && #[trigger] tags@[j]@ == t;
                        assert(!set_at(self.tag_to_ids@, tags@[j]@).contains(id@));
                    }
                } else {
                    assert(set_at(t2i0, t).contains(x) == set_at(i2t0, x).contains(t));
                }
            }
            assert(self@ =~= Set::new(|p: (Seq<char>, Seq<char>)| v0.contains(p) && p.0 != id@));
        }
        let ghost r0 = self.records@;
        match self.find_record(id) {
            Some(i) => {
                let _ = self.records.remove(i);
                proof {
                    let rs = self.records@;
                    assert(rs == r0.remove(i as int));
                    assert forall|x: int| 0 <= x < rs.len() implies #[trigger] rs[x] == r0[if x < i { x } else { x + 1 }] by {}
                    assert forall|x: int, y: int|
                        0 <= x < rs.len() && 0 <= y < rs.len() && x != y implies #[trigger] rs[x].id@
                        != #[trigger] rs[y].id@ by {
                        let x2 = if x < i { x } else { x + 1 };
                        let y2 = if y < i { y } else { y + 1 };
                        assert(rs[x] == r0[x2]);
                        assert(rs[y] == r0[y2]);
                    }
                    if has_record(rs, id@) {
                        let j = choose|j: int| 0 <= j < rs.len() && #[trigger] rs[j].id@ == id@;
                        let j2 = if j < i { j } else { j + 1 };
                        assert(rs[j] == r0[j2]);
                    }
                    assert forall|a: Annotation| rs.contains(a) <==> (r0.contains(a) && a.id@ != id@) by {
                        if rs.contains(a) {
                            let x = choose|x: int| 0 <= x < rs.len() && rs[x] == a;
                            assert(r0[if x < i { x } else { x + 1 }] == a);
                            assert(rs[x].id@ == a.id@);
                        }
                        if r0.contains(a) && a.id@ != id@ {
                            let y = choose|y: int| 0 <= y < r0.len() && r0[y] == a;
                            assert(y != i);
                            let y2 = if y < i { y } else { y - 1 };
                            assert(rs[y2] == r0[y]);
                        }
                    }
                }
            },
            None => {
                proof {
                    assert forall|a: Annotation| r0.contains(a) implies a.id@ != id@ by {
                        let y = choose|y: int| 0 <= y < r0.len() && r0[y] == a;
                        assert(r0[y].id@ == a.id@);
                    }
                }
            },
        }
    }
}

} // verus!
