use vstd::prelude::*;

use crate::order::{sort_strs, sorted_strs};
use crate::search::Gesture;
use crate::set_map::{distinct_strs, has_str, lemma_has_str_prefix, position_of, push_unique, str_set};
use crate::tag_index::{has_record, lemma_has_record_prefix, Annotation, TagIndex};

verus! {

/// The identifiers of the annotations in `anns` whose identifier is in `selected`.
pub open spec fn chosen_ids(anns: Seq<Annotation>, selected: Seq<String>) -> Set<Seq<char>> {
    Set::new(|id: Seq<char>| has_str(selected, id) && has_record(anns, id))
}

/// The URIs of the annotations in `anns` whose identifier is in `selected`.
pub open spec fn chosen_uris(anns: Seq<Annotation>, selected: Seq<String>) -> Set<Seq<char>> {
    Set::new(
        |u: Seq<char>|
            exists|j: int| 0 <= j < anns.len() && #[trigger] anns[j].uri@ == u && has_str(selected, anns[j].id@),
    )
}

/// Tags offered when adding to the annotations `ids`: every known tag except those that
/// all of them already have.
pub open spec fn add_candidates(idx: TagIndex, ids: Set<Seq<char>>) -> Set<Seq<char>> {
    Set::new(
        |t: Seq<char>|
            idx.tag_set().contains(t) && exists|id: Seq<char>|
                ids.contains(id) && !#[trigger] idx.tags_of_view(id).contains(t),
    )
}

/// Tags offered when removing from the annotations `ids`: those that at least one of them has.
pub open spec fn remove_candidates(idx: TagIndex, ids: Set<Seq<char>>) -> Set<Seq<char>> {
    Set::new(
        |t: Seq<char>| exists|id: Seq<char>| ids.contains(id) && #[trigger] idx.tags_of_view(id).contains(t),
    )
}

/// Every pair of an identifier of `ids` and a tag of `tags`.
pub open spec fn pairs_of(ids: Seq<String>, tags: Seq<String>) -> Set<(Seq<char>, Seq<char>)> {
    Set::new(|p: (Seq<char>, Seq<char>)| has_str(ids, p.0) && has_str(tags, p.1))
}

/// The identifiers of `anns`, each once.
pub fn record_ids(anns: &Vec<Annotation>) -> (r: Vec<String>)
    ensures
        distinct_strs(r@),
        str_set(r@) == Set::new(|id: Seq<char>| has_record(anns@, id)),
{
    let mut r: Vec<String> = Vec::new();
    let mut k: usize = 0;
    while k < anns.len()
        invariant
            k <= anns@.len(),
            distinct_strs(r@),
            str_set(r@) == Set::new(|id: Seq<char>| has_record(anns@.subrange(0, k as int), id)),
        decreases anns@.len() - k,
    {
        push_unique(&mut r, anns[k].id.clone());
        proof {
            assert forall|id: Seq<char>| str_set(r@).contains(id) <==> has_record(anns@.subrange(0, k + 1), id) by {
                lemma_has_record_prefix(anns@, k as int, id);
            }
        }
        k = k + 1;
        assert(str_set(r@) =~= Set::new(|id: Seq<char>| has_record(anns@.subrange(0, k as int), id)));
    }
    assert(anns@.subrange(0, k as int) =~= anns@);
    r
}

/// The identifiers of the annotations of `anns` that are in `selected`, each once.
pub fn selected_ids(anns: &Vec<Annotation>, selected: &Vec<String>) -> (r: Vec<String>)
    ensures
        distinct_strs(r@),
        str_set(r@) == chosen_ids(anns@, selected@),
{
    let mut r: Vec<String> = Vec::new();
    let mut k: usize = 0;
    while k < anns.len()
        invariant
            k <= anns@.len(),
            distinct_strs(r@),
            str_set(r@) == chosen_ids(anns@.subrange(0, k as int), selected@),
        decreases anns@.len() - k,
    {
        let found = position_of(selected, &anns[k].id);
        if found.is_some() {
            push_unique(&mut r, anns[k].id.clone());
        }
        proof {
            assert forall|id: Seq<char>| str_set(r@).contains(id) <==> chosen_ids(anns@.subrange(0, k + 1), selected@).contains(id) by {
                lemma_has_record_prefix(anns@, k as int, id);
            }
        }
        k = k + 1;
        assert(str_set(r@) =~= chosen_ids(anns@.subrange(0, k as int), selected@));
    }
    assert(anns@.subrange(0, k as int) =~= anns@);
    r
}

/// The URIs of the annotations of `anns` that are in `selected`, each once.
pub fn selected_uris(anns: &Vec<Annotation>, selected: &Vec<String>) -> (r: Vec<String>)
    ensures
        distinct_strs(r@),
        str_set(r@) == chosen_uris(anns@, selected@),
{
    let mut r: Vec<String> = Vec::new();
    let mut k: usize = 0;
    while k < anns.len()
        invariant
            k <= anns@.len(),
            distinct_strs(r@),
            str_set(r@) == chosen_uris(anns@.subrange(0, k as int), selected@),
        decreases anns@.len() - k,
    {
        let found = position_of(selected, &anns[k].id);
        if found.is_some() {
            push_unique(&mut r, anns[k].uri.clone());
        }
        proof {
            let pre = anns@.subrange(0, k as int);
            let post = anns@.subrange(0, k + 1);
            assert forall|u: Seq<char>| chosen_uris(post, selected@).contains(u) <==> (chosen_uris(pre, selected@).contains(u)
                || (anns@[k as int].uri@ == u && has_str(selected@, anns@[k as int].id@))) by {
                if chosen_uris(post, selected@).contains(u) {
                    let j = choose|j: int| 0 <= j < post.len() && #[trigger] post[j].uri@ == u && has_str(selected@, post[j].id@);
                    if j < k {
                        assert(pre[j] == post[j]);
                    }
                }
                if chosen_uris(pre, selected@).contains(u) {
                    let j = choose|j: int| 0 <= j < pre.len() && #[trigger] pre[j].uri@ == u && has_str(selected@, pre[j].id@);
                    assert(post[j] == pre[j]);
                }
                if anns@[k as int].uri@ == u && has_str(selected@, anns@[k as int].id@) {
                    assert(post[k as int] == anns@[k as int]);
                }
            }
        }
        k = k + 1;
        assert(str_set(r@) =~= chosen_uris(anns@.subrange(0, k as int), selected@));
    }
    assert(anns@.subrange(0, k as int) =~= anns@);
    r
}

/// What the caller does after a search window closed.
pub enum SearchAction {
    /// Nothing was selected, or the window was aborted.
    Nothing,
    /// Open the tag picker on `candidates`, then add (or remove) the chosen tags on `targets`.
    PickTags { add: bool, targets: Vec<String>, candidates: Vec<String> },
    /// The annotations `ids` were deleted from the index.
    Deleted { ids: Vec<String> },
    /// Print these URIs.
    PrintUris { uris: Vec<String> },
}

/// The tagging state and the decisions taken on it after each search window.
pub struct Gooseberry {
    pub index: TagIndex,
}

impl Gooseberry {
    pub open spec fn wf(&self) -> bool {
        self.index.wf()
    }

    pub fn new() -> (r: Gooseberry)
        ensures
            r.wf(),
            r.index@ == Set::<(Seq<char>, Seq<char>)>::empty(),
            r.index.tag_set() == Set::<Seq<char>>::empty(),
            r.index.stored() == Seq::<Annotation>::empty(),
    {
        Gooseberry { index: TagIndex::new() }
    }

    /// Whether every annotation of `ids` has `tag`.
    fn shared_by_all(&self, ids: &Vec<String>, tag: &String) -> (r: bool)
        requires
            self.wf(),
        ensures
            r == forall|j: int| 0 <= j < ids@.len() ==> #[trigger] self.index.tags_of_view(ids@[j]@).contains(tag@),
    {
        let mut k: usize = 0;
        while k < ids.len()
            invariant
                self.wf(),
                k <= ids@.len(),
                forall|j: int| 0 <= j < k ==> #[trigger] self.index.tags_of_view(ids@[j]@).contains(tag@),
            decreases ids@.len() - k,
        {
            let tags = self.index.tags_of(&ids[k]);
            if position_of(&tags, tag).is_none() {
                assert(!str_set(tags@).contains(tag@));
                return false;
            }
            k = k + 1;
        }
        true
    }

    /// The tags to offer in the tag picker for the annotations `ids`, each once, in
    /// lexicographic order.
    pub fn tag_candidates(&self, ids: &Vec<String>, add: bool) -> (r: Vec<String>)
        requires
            self.wf(),
        ensures
            distinct_strs(r@),
            sorted_strs(r@),
            add ==> str_set(r@) == add_candidates(self.index, str_set(ids@)),
            !add ==> str_set(r@) == remove_candidates(self.index, str_set(ids@)),
    {
        let mut r: Vec<String> = Vec::new();
        if add {
            let all = self.index.all_tags();
            let mut k: usize = 0;
            while k < all.len()
                invariant
                    self.wf(),
                    k <= all@.len(),
                    distinct_strs(r@),
                    str_set(all@) == self.index.tag_set(),
                    str_set(r@) == Set::new(|t: Seq<char>|
                        has_str(all@.subrange(0, k as int), t) && exists|id: Seq<char>|
                            str_set(ids@).contains(id) && !#[trigger] self.index.tags_of_view(id).contains(t)),
                decreases all@.len() - k,
            {
                let shared = self.shared_by_all(ids, &all[k]);
                if !shared {
                    proof {
                        let j = choose|j: int| 0 <= j < ids@.len() && !#[trigger] self.index.tags_of_view(ids@[j]@).contains(all@[k as int]@);
                        assert(str_set(ids@).contains(ids@[j]@));
                    }
                    push_unique(&mut r, all[k].clone());
                }
                proof {
                    assert forall|t: Seq<char>| str_set(r@).contains(t) <==> (has_str(all@.subrange(0, k + 1), t) && exists|id: Seq<char>|
                        str_set(ids@).contains(id) && !#[trigger] self.index.tags_of_view(id).contains(t)) by {
                        lemma_has_str_prefix(all@, k as int, t);
                        if shared && t == all@[k as int]@ {
                            assert forall|id: Seq<char>| str_set(ids@).contains(id) implies #[trigger] self.index.tags_of_view(id).contains(t) by {
                                let j = choose|j: int| 0 <= j < ids@.len() && #[trigger] ids@[j]@ == id;
                            }
                        }
                    }
                }
                k = k + 1;
                assert(str_set(r@) =~= Set::new(|t: Seq<char>|
                    has_str(all@.subrange(0, k as int), t) && exists|id: Seq<char>|
                        str_set(ids@).contains(id) && !#[trigger] self.index.tags_of_view(id).contains(t)));
            }
            proof {
                assert(all@.subrange(0, k as int) =~= all@);
                assert forall|t: Seq<char>| has_str(all@, t) <==> self.index.tag_set().contains(t) by {
                    assert(str_set(all@).contains(t) == has_str(all@, t));
                }
                assert(str_set(r@) =~= add_candidates(self.index, str_set(ids@)));
            }
        } else {
            let mut k: usize = 0;
            while k < ids.len()
                invariant
                    self.wf(),
                    k <= ids@.len(),
                    distinct_strs(r@),
                    str_set(r@) == remove_candidates(self.index, str_set(ids@.subrange(0, k as int))),
                decreases ids@.len() - k,
            {
                let tags = self.index.tags_of(&ids[k]);
                let ghost r0 = r@;
                let mut m: usize = 0;
                while m < tags.len()
                    invariant
                        k < ids@.len(),
                        m <= tags@.len(),
                        distinct_strs(r@),
                        str_set(r@) == str_set(r0).union(str_set(tags@.subrange(0, m as int))),
                    decreases tags@.len() - m,
                {
                    push_unique(&mut r, tags[m].clone());
                    proof {
                        assert forall|t: Seq<char>| str_set(r@).contains(t) <==> (str_set(r0).contains(t) || has_str(tags@.subrange(0, m + 1), t)) by {
                            lemma_has_str_prefix(tags@, m as int, t);
                        }
                    }
                    m = m + 1;
                    assert(str_set(r@) =~= str_set(r0).union(str_set(tags@.subrange(0, m as int))));
                }
                proof {
                    assert(tags@.subrange(0, m as int) =~= tags@);
                    let pre = str_set(ids@.subrange(0, k as int));
                    let post = str_set(ids@.subrange(0, k + 1));
                    assert forall|id: Seq<char>| post.contains(id) <==> (pre.contains(id) || id == ids@[k as int]@) by {
                        lemma_has_str_prefix(ids@, k as int, id);
                    }
                    assert forall|t: Seq<char>| str_set(r@).contains(t) <==> remove_candidates(self.index, post).contains(t) by {
                        if remove_candidates(self.index, post).contains(t) {
                            let id = choose|id: Seq<char>| post.contains(id) && #[trigger] self.index.tags_of_view(id).contains(t);
                            if id != ids@[k as int]@ {
                                assert(remove_candidates(self.index, pre).contains(t));
                            }
                        }
                        if str_set(r0).contains(t) {
                            let id = choose|id: Seq<char>| pre.contains(id) && #[trigger] self.index.tags_of_view(id).contains(t);
                            assert(post.contains(id));
                        }
                        if str_set(tags@).contains(t) {
                            assert(post.contains(ids@[k as int]@));
                        }
                    }
                    assert(str_set(r@) =~= remove_candidates(self.index, post));
                }
                k = k + 1;
            }
            assert(ids@.subrange(0, k as int) =~= ids@);
        }
        sort_strs(&r)
    }

    /// The tags to offer in the tag picker for `annotations`, each once: when adding, every
    /// known tag but those all of them have; when removing, those at least one of them has.
    /// They come in lexicographic order.
    pub fn search_tags(&self, annotations: &Vec<Annotation>, add: bool) -> (r: Vec<String>)
        requires
            self.wf(),
        ensures
            distinct_strs(r@),
            sorted_strs(r@),
            add ==> str_set(r@) == add_candidates(
                self.index,
                Set::new(|id: Seq<char>| has_record(annotations@, id)),
            ),
            !add ==> str_set(r@) == remove_candidates(
                self.index,
                Set::new(|id: Seq<char>| has_record(annotations@, id)),
            ),
    {
        let ids = record_ids(annotations);
        self.tag_candidates(&ids, add)
    }

    /// Adds (or removes) every tag of `tags` on every annotation of `ids`, one annotation
    /// at a time, in order.
    pub fn apply_tags(&mut self, ids: &Vec<String>, tags: &Vec<String>, add: bool)
        requires
            old(self).wf(),
        ensures
            final(self).wf(),
            add ==> final(self).index@ == old(self).index@.union(pairs_of(ids@, tags@)),
            !add ==> final(self).index@ == old(self).index@.difference(pairs_of(ids@, tags@)),
            final(self).index.stored() == old(self).index.stored(),
    {
        let ghost v0 = self.index@;
        let mut k: usize = 0;
        while k < ids.len()
            invariant
                self.wf(),
                k <= ids@.len(),
                self.index.stored() == old(self).index.stored(),
                add ==> self.index@ == v0.union(pairs_of(ids@.subrange(0, k as int), tags@)),
                !add ==> self.index@ == v0.difference(pairs_of(ids@.subrange(0, k as int), tags@)),
            decreases ids@.len() - k,
        {
            let ghost v1 = self.index@;
            let mut m: usize = 0;
            while m < tags.len()
                invariant
                    self.wf(),
                    k < ids@.len(),
                    m <= tags@.len(),
                    self.index.stored() == old(self).index.stored(),
                    add ==> self.index@ == v1.union(pairs_of(ids@.subrange(k as int, k + 1), tags@.subrange(0, m as int))),
                    !add ==> self.index@ == v1.difference(pairs_of(ids@.subrange(k as int, k + 1), tags@.subrange(0, m as int))),
                decreases tags@.len() - m,
            {
                let ghost before = self.index@;
                if add {
                    self.index.add_tag(&ids[k], &tags[m]);
                } else {
                    self.index.remove_tag(&ids[k], &tags[m]);
                }
                let ghost mm = m as int;
                m = m + 1;
                proof {
                    let one = ids@.subrange(k as int, k + 1);
                    let pre = pairs_of(one, tags@.subrange(0, mm));
                    let post = pairs_of(one, tags@.subrange(0, mm + 1));
                    let q = (ids@[k as int]@, tags@[mm]@);
                    assert(m as int == mm + 1);
                    assert forall|x: Seq<char>| has_str(one, x) <==> x == ids@[k as int]@ by {
                        if has_str(one, x) {
                            let j = choose|j: int| 0 <= j < one.len() && #[trigger] one[j]@ == x;
                            assert(j == 0);
                        }
                        if x == ids@[k as int]@ {
                            assert(one[0]@ == x);
                        }
                    }
                    assert forall|p: (Seq<char>, Seq<char>)| post.contains(p) <==> (pre.contains(p) || p == q) by {
                        lemma_has_str_prefix(tags@, mm, p.1);
                    }
                    if add {
                        assert(self.index@ == before.insert(q));
                        assert(self.index@ =~= v1.union(post));
                    } else {
                        assert(self.index@ == before.remove(q));
                        assert(self.index@ =~= v1.difference(post));
                    }
                }
            }
            proof {
                assert(tags@.subrange(0, m as int) =~= tags@);
                let one = ids@.subrange(k as int, k + 1);
                assert forall|x: Seq<char>| has_str(ids@.subrange(0, k + 1), x) <==> (has_str(ids@.subrange(0, k as int), x) || has_str(one, x)) by {
                    lemma_has_str_prefix(ids@, k as int, x);
                    if has_str(one, x) {
                        let j = choose|j: int| 0 <= j < one.len() && #[trigger] one[j]@ == x;
                        assert(j == 0);
                    }
                    if x == ids@[k as int]@ {
                        assert(one[0]@ == x);
                    }
                }
            }
            k = k + 1;
            proof {
                if add {
                    assert(self.index@ =~= v0.union(pairs_of(ids@.subrange(0, k as int), tags@)));
                } else {
                    assert(self.index@ =~= v0.difference(pairs_of(ids@.subrange(0, k as int), tags@)));
                }
            }
        }
        assert(ids@.subrange(0, k as int) =~= ids@);
    }

    /// Deletes every annotation of `ids` from the index, in order.
    pub fn delete(&mut self, ids: &Vec<String>)
        requires
            old(self).wf(),
        ensures
            final(self).wf(),
            final(self).index@ == Set::new(
                |p: (Seq<char>, Seq<char>)| old(self).index@.contains(p) && !has_str(ids@, p.0),
            ),
            forall|j: int| 0 <= j < ids@.len() ==> !has_record(final(self).index.stored(), #[trigger] ids@[j]@),
            forall|a: Annotation|
                #[trigger] final(self).index.stored().contains(a) <==> (old(self).index.stored().contains(a)
                    && !has_str(ids@, a.id@)),
    {
        let ghost v0 = self.index@;
        let mut k: usize = 0;
        while k < ids.len()
            invariant
                self.wf(),
                k <= ids@.len(),
                self.index@ == Set::new(
                    |p: (Seq<char>, Seq<char>)| v0.contains(p) && !has_str(ids@.subrange(0, k as int), p.0),
                ),
                forall|j: int| 0 <= j < k ==> !has_record(self.index.stored(), #[trigger] ids@[j]@),
                forall|a: Annotation|
                    #[trigger] self.index.stored().contains(a) <==> (old(self).index.stored().contains(a)
                        && !has_str(ids@.subrange(0, k as int), a.id@)),
            decreases ids@.len() - k,
        {
            let ghost s0 = self.index.stored();
            self.index.remove_annotation(&ids[k]);
            proof {
                let s1 = self.index.stored();
                assert forall|j: int| 0 <= j < k + 1 implies !has_record(s1, #[trigger] ids@[j]@) by {
                    if j < k && has_record(s1, ids@[j]@) {
                        let x = choose|x: int| 0 <= x < s1.len() && #[trigger] s1[x].id@ == ids@[j]@;
                        if has_record(s0, ids@[k as int]@) {
                            let i = choose|i: int| 0 <= i < s0.len() && #[trigger] s0[i].id@ == ids@[k as int]@ && s1 == s0.remove(i);
                            let x2 = if x < i { x } else { x + 1 };
                            assert(s1[x] == s0[x2]);
                        } else {
                            assert(s1[x] == s0[x]);
                        }
                    }
                }
                assert forall|x: Seq<char>| has_str(ids@.subrange(0, k + 1), x) <==> (has_str(ids@.subrange(0, k as int), x) || ids@[k as int]@ == x) by {
                    lemma_has_str_prefix(ids@, k as int, x);
                }
                assert forall|a: Annotation| s1.contains(a) <==> (old(self).index.stored().contains(a)
                    && !has_str(ids@.subrange(0, k + 1), a.id@)) by {
                    lemma_has_str_prefix(ids@, k as int, a.id@);
                    assert(s1.contains(a) == (s0.contains(a) && a.id@ != ids@[k as int]@));
                }
            }
            k = k + 1;
            assert(self.index@ =~= Set::new(
                |p: (Seq<char>, Seq<char>)| v0.contains(p) && !has_str(ids@.subrange(0, k as int), p.0),
            ));
        }
        assert(ids@.subrange(0, k as int) =~= ids@);
    }

    /// Acts on a closed search window: `selected` holds the identifiers the user picked
    /// among `annotations`, and `gesture` how the window was closed.
    ///
    /// With nothing selected, or on abort, nothing happens. Enter (or the add gesture)
    /// asks for the tag picker in adding mode, the remove gesture in removing mode; the
    /// delete gesture deletes the selected annotations; the export gesture hands back
    /// their URIs.
    pub fn search(&mut self, annotations: &Vec<Annotation>, selected: &Vec<String>, gesture: Gesture) -> (r: SearchAction)
        requires
            old(self).wf(),
        ensures
            final(self).wf(),
            ({
                let chosen = chosen_ids(annotations@, selected@);
                &&& (chosen.is_empty() || gesture == Gesture::Abort) ==> r is Nothing
                &&& (r is Nothing || r is PickTags || r is PrintUris) ==> final(self).index@ == old(self).index@
                    && final(self).index.stored() == old(self).index.stored()
                &&& !chosen.is_empty() && (gesture == Gesture::Accept || gesture == Gesture::AddTag) ==> r is PickTags
                    && r->add
                    && str_set(r->targets@) == chosen
                    && distinct_strs(r->candidates@)
                    && sorted_strs(r->candidates@)
                    && str_set(r->candidates@) == add_candidates(old(self).index, chosen)
                &&& !chosen.is_empty() && gesture == Gesture::RemoveTag ==> r is PickTags
                    && !r->add
                    && str_set(r->targets@) == chosen
                    && distinct_strs(r->candidates@)
                    && sorted_strs(r->candidates@)
                    && str_set(r->candidates@) == remove_candidates(old(self).index, chosen)
                &&& !chosen.is_empty() && gesture == Gesture::Delete ==> r is Deleted
                    && str_set(r->ids@) == chosen
                    && final(self).index@ == Set::new(
                        |p: (Seq<char>, Seq<char>)| old(self).index@.contains(p) && !chosen.contains(p.0),
                    )
                    && (forall|id: Seq<char>| chosen.contains(id) ==> !has_record(final(self).index.stored(), id))
                    && (forall|a: Annotation|
                        #[trigger] final(self).index.stored().contains(a) <==> (old(self).index.stored().contains(a)
                            && !chosen.contains(a.id@)))
                &&& !chosen.is_empty() && gesture == Gesture::Export ==> r is PrintUris
                    && distinct_strs(r->uris@)
                    && str_set(r->uris@) == chosen_uris(annotations@, selected@)
            }),
    {
        let ids = selected_ids(annotations, selected);
        if ids.len() == 0 {
            proof {
                assert(str_set(ids@) =~= Set::<Seq<char>>::empty());
            }
            return SearchAction::Nothing;
        }
        proof {
            assert(str_set(ids@).contains(ids@[0]@)) by {
                assert(has_str(ids@, ids@[0]@));
            }
        }
        match gesture {
            Gesture::Accept | Gesture::AddTag => {
                let candidates = self.tag_candidates(&ids, true);
                SearchAction::PickTags { add: true, targets: ids, candidates }
            },
            Gesture::RemoveTag => {
                let candidates = self.tag_candidates(&ids, false);
                SearchAction::PickTags { add: false, targets: ids, candidates }
            },
            Gesture::Delete => {
                self.delete(&ids);
                proof {
                    assert forall|id: Seq<char>| str_set(ids@).contains(id) implies !has_record(self.index.stored(), id) by {
                        let j = choose|j: int| 0 <= j < ids@.len() && #[trigger] ids@[j]@ == id;
                    }
                }
                SearchAction::Deleted { ids }
            },
            Gesture::Export => {
                let uris = selected_uris(annotations, selected);
                SearchAction::PrintUris { uris }
            },
            Gesture::Abort => SearchAction::Nothing,
        }
    }
}

} // verus!
