//! The tag catalog: tag identity (unique, case-folded names) and the
//! dependency graph between tags.
use vstd::prelude::*;

use crate::item_tag::{
    close_tag_set, closed_under_deps, closure, lemma_closure_is_closed, row_contains, tag_set_of,
    vec_contains_i64, ItemTag, LinkTable,
};
use crate::seqs::{
    lemma_filter_absorb, lemma_filter_all, lemma_filter_no_duplicates, lemma_filter_none,
    lemma_take_filter_step,
};
use crate::tag_tag::TagTag;
use crate::text::{ascii_lower, lemma_lower_idempotent, lower_seq, str_eq};
use crate::StoreError;

verus! {

/// One tag of the vocabulary. Names are stored in ASCII-lower-cased
/// normal form; `created_at` is the allocation stamp of the id.
pub struct Tag {
    pub id: i64,
    pub name: String,
    pub created_at: i64,
}

impl Tag {
    /// An exact copy. (A derived clone would tell the verifier nothing
    /// about the copied fields.)
    pub fn duplicate(&self) -> (r: Tag)
        ensures
            r == *self,
    {
        Tag { id: self.id, name: self.name.clone(), created_at: self.created_at }
    }
}

/// Some tag in the sequence carries this id.
pub open spec fn has_tag_id(tags: Seq<Tag>, id: i64) -> bool {
    exists|k: int| 0 <= k < tags.len() && (#[trigger] tags[k]).id == id
}

/// Some tag in the sequence carries this (normalized) name.
pub open spec fn has_tag_name(tags: Seq<Tag>, name: Seq<char>) -> bool {
    exists|k: int| 0 <= k < tags.len() && (#[trigger] tags[k]).name@ == name
}

/// The tag carrying this name; meaningful only when `has_tag_name` holds
/// and names are distinct.
pub open spec fn tag_with_name(tags: Seq<Tag>, name: Seq<char>) -> Tag {
    tags[choose|k: int| 0 <= k < tags.len() && (#[trigger] tags[k]).name@ == name]
}

/// The id of the tag carrying this name.
pub open spec fn id_of_name(tags: Seq<Tag>, name: Seq<char>) -> i64 {
    tag_with_name(tags, name).id
}

/// No two tags share an id.
pub open spec fn distinct_ids(tags: Seq<Tag>) -> bool {
    forall|i: int, j: int|
        0 <= i < j < tags.len() ==> (#[trigger] tags[i]).id != (#[trigger] tags[j]).id
}

/// No two tags share a name.
pub open spec fn distinct_names(tags: Seq<Tag>) -> bool {
    forall|i: int, j: int|
        0 <= i < j < tags.len() ==> (#[trigger] tags[i]).name@ != (#[trigger] tags[j]).name@
}

/// Every stored name is in case-folded normal form.
pub open spec fn normalized_names(tags: Seq<Tag>) -> bool {
    forall|k: int| 0 <= k < tags.len() ==> lower_seq((#[trigger] tags[k]).name@) == tags[k].name@
}

/// With distinct names, a member tag is the one its name selects.
pub proof fn lemma_name_pins_tag(tags: Seq<Tag>, t: Tag)
    requires
        distinct_names(tags),
        tags.contains(t),
    ensures
        has_tag_name(tags, t.name@),
        tag_with_name(tags, t.name@) == t,
        id_of_name(tags, t.name@) == t.id,
{
    let i = choose|i: int| 0 <= i < tags.len() && tags[i] == t;
    assert(tags[i].name@ == t.name@);
    let k = choose|k: int| 0 <= k < tags.len() && (#[trigger] tags[k]).name@ == t.name@;
    if k != i {
        assert(tags[k].name@ != tags[i].name@);
    }
}

/// The tag catalog: the vocabulary plus its dependency edges.
pub struct TagCatalog {
    pub tags: Vec<Tag>,
    pub edges: Vec<TagTag>,
    pub next_id: i64,
}

impl TagCatalog {
    /// Catalog invariant: ids are positive, fresh ids stay allocatable,
    /// names are unique in folded form, and every edge joins two distinct
    /// existing tags exactly once.
    pub open spec fn wf(self) -> bool {
        &&& 0 < self.next_id
        &&& forall|k: int|
            0 <= k < self.tags@.len() ==> 0 < (#[trigger] self.tags@[k]).id < self.next_id
        &&& distinct_ids(self.tags@)
        &&& distinct_names(self.tags@)
        &&& normalized_names(self.tags@)
        &&& forall|k: int|
            0 <= k < self.edges@.len() ==> ((#[trigger] self.edges@[k]).tag != self.edges@[k].dep
                && has_tag_id(self.tags@, self.edges@[k].tag) && has_tag_id(
                self.tags@,
                self.edges@[k].dep,
            ))
        &&& self.edges@.no_duplicates()
    }

    /// An empty catalog.
    pub fn new() -> (r: TagCatalog)
        ensures
            r.tags@ == Seq::<Tag>::empty(),
            r.edges@ == Seq::<TagTag>::empty(),
            r.next_id == 1,
            r.wf(),
    {
        TagCatalog { tags: Vec::new(), edges: Vec::new(), next_id: 1 }
    }

    /// Looks a tag up by id.
    pub fn find_by_id(&self, id: i64) -> (r: Result<Tag, StoreError>)
        ensures
            match r {
                Ok(t) => self.tags@.contains(t) && t.id == id,
                Err(e) => e == StoreError::NotFound && !has_tag_id(self.tags@, id),
            },
    {
        let mut i: usize = 0;
        while i < self.tags.len()
            invariant
                i <= self.tags@.len(),
                forall|j: int| 0 <= j < i ==> (#[trigger] self.tags@[j]).id != id,
            decreases self.tags@.len() - i,
        {
            if self.tags[i].id == id {
                assert(self.tags@.contains(self.tags@[i as int]));
                return Ok(self.tags[i].duplicate());
            }
            i = i + 1;
        }
        Err(StoreError::NotFound)
    }

    /// Looks a tag up by its exact stored name.
    pub fn find_by_name(&self, name: &str) -> (r: Result<Tag, StoreError>)
        ensures
            match r {
                Ok(t) => self.tags@.contains(t) && t.name@ == name@,
                Err(e) => e == StoreError::NotFound && !has_tag_name(self.tags@, name@),
            },
    {
        let mut i: usize = 0;
        while i < self.tags.len()
            invariant
                i <= self.tags@.len(),
                forall|j: int| 0 <= j < i ==> (#[trigger] self.tags@[j]).name@ != name@,
            decreases self.tags@.len() - i,
        {
            if str_eq(self.tags[i].name.as_str(), name) {
                assert(self.tags@.contains(self.tags@[i as int]));
                return Ok(self.tags[i].duplicate());
            }
            i = i + 1;
        }
        Err(StoreError::NotFound)
    }

    /// Case-folds the name (ASCII letters only; other characters are
    /// kept as they are) and returns the tag that carries it, creating
    /// the tag first when it is new. An empty name is rejected.
    pub fn find_or_create(&mut self, name: &str) -> (r: Result<Tag, StoreError>)
        requires
            old(self).wf(),
            old(self).next_id < i64::MAX,
        ensures
            final(self).wf(),
            final(self).edges@ == old(self).edges@,
            match r {
                Err(e) => {
                    &&& e == StoreError::Validation
                    &&& name@.len() == 0
                    &&& *final(self) == *old(self)
                },
                Ok(t) => {
                    &&& name@.len() > 0
                    &&& t.name@ == lower_seq(name@)
                    &&& final(self).tags@.contains(t)
                    &&& if has_tag_name(old(self).tags@, lower_seq(name@)) {
                        &&& *final(self) == *old(self)
                        &&& old(self).tags@.contains(t)
                    } else {
                        &&& final(self).tags@ == old(self).tags@.push(t)
                        &&& t.id == old(self).next_id
                        &&& final(self).next_id == old(self).next_id + 1
                    }
                },
            },
    {
        let norm = ascii_lower(name);
        if norm.as_str().is_empty() {
            assert(lower_seq(name@).len() == name@.len());
            return Err(StoreError::Validation);
        }
        let mut i: usize = 0;
        while i < self.tags.len()
            invariant
                i <= self.tags@.len(),
                self == old(self),
                self.wf(),
                self.next_id < i64::MAX,
                norm@ == lower_seq(name@),
                name@.len() > 0,
                forall|j: int| 0 <= j < i ==> (#[trigger] self.tags@[j]).name@ != norm@,
            decreases self.tags@.len() - i,
        {
            if str_eq(self.tags[i].name.as_str(), norm.as_str()) {
                assert(self.tags@.contains(self.tags@[i as int]));
                return Ok(self.tags[i].duplicate());
            }
            i = i + 1;
        }
        let id = self.next_id;
        let t = Tag { id, name: norm, created_at: id };
        let ghost prev = self.tags@;
        self.tags.push(t.duplicate());
        self.next_id = id + 1;
        proof {
            lemma_lower_idempotent(name@);
            assert(self.tags@ == prev.push(t));
            assert(self.tags@[prev.len() as int] == t);
            assert(self.tags@.contains(t));
            assert forall|i2: int, j2: int| 0 <= i2 < j2 < self.tags@.len() implies (
            #[trigger] self.tags@[i2]).id != (#[trigger] self.tags@[j2]).id by {
                if j2 == prev.len() {
                    assert(prev[i2].id < old(self).next_id);
                }
            };
            assert forall|i2: int, j2: int| 0 <= i2 < j2 < self.tags@.len() implies (
            #[trigger] self.tags@[i2]).name@ != (#[trigger] self.tags@[j2]).name@ by {
                if j2 == prev.len() {
                    assert(prev[i2].name@ != norm@);
                }
            };
            assert forall|k: int|
                0 <= k < self.edges@.len() implies ((#[trigger] self.edges@[k]).tag
                != self.edges@[k].dep && has_tag_id(self.tags@, self.edges@[k].tag) && has_tag_id(
                self.tags@,
                self.edges@[k].dep,
            )) by {
                let a = self.edges@[k].tag;
                let b = self.edges@[k].dep;
                let ka = choose|q: int| 0 <= q < prev.len() && (#[trigger] prev[q]).id == a;
                assert(self.tags@[ka].id == a);
                let kb = choose|q: int| 0 <= q < prev.len() && (#[trigger] prev[q]).id == b;
                assert(self.tags@[kb].id == b);
            };
            assert forall|k: int|
                0 <= k < self.tags@.len() implies 0 < (#[trigger] self.tags@[k]).id
                < self.next_id by {
                if k < prev.len() {
                    assert(prev[k].id < old(self).next_id);
                }
            };
            assert forall|k: int|
                0 <= k < self.tags@.len() implies lower_seq((#[trigger] self.tags@[k]).name@)
                == self.tags@[k].name@ by {
                if k < prev.len() {
                    assert(lower_seq(prev[k].name@) == prev[k].name@);
                }
            };
        }
        Ok(t)
    }

    /// The tags that one tag directly depends on.
    pub fn find_depend_tags(&self, id: i64) -> (r: Vec<Tag>)
        requires
            self.wf(),
        ensures
            forall|t: Tag|
                #[trigger] r@.contains(t) <==> (self.tags@.contains(t) && self.edges@.contains(
                    TagTag { tag: id, dep: t.id },
                )),
    {
        let mut out: Vec<Tag> = Vec::new();
        let mut k: usize = 0;
        while k < self.edges.len()
            invariant
                k <= self.edges@.len(),
                self.wf(),
                forall|t: Tag|
                    #[trigger] out@.contains(t) ==> (self.tags@.contains(t) && self.edges@.contains(
                        TagTag { tag: id, dep: t.id },
                    )),
                forall|j: int|
                    0 <= j < k && (#[trigger] self.edges@[j]).tag == id ==> exists|t: Tag|
                        #[trigger] out@.contains(t) && t.id == self.edges@[j].dep,
            decreases self.edges@.len() - k,
        {
            if self.edges[k].tag == id {
                let dep_id = self.edges[k].dep;
                assert(has_tag_id(self.tags@, dep_id));
                match self.find_by_id(dep_id) {
                    Ok(t) => {
                        let ghost prev = out@;
                        out.push(t.duplicate());
                        proof {
                            assert(out@[prev.len() as int] == t);
                            assert(out@.contains(t));
                            assert(self.edges@[k as int] == (TagTag { tag: id, dep: t.id }));
                            assert(self.edges@.contains(TagTag { tag: id, dep: t.id }));
                            assert forall|t2: Tag| prev.contains(t2) implies out@.contains(t2) by {
                                let j = choose|j: int| 0 <= j < prev.len() && prev[j] == t2;
                                assert(out@[j] == t2);
                            };
                            assert forall|t2: Tag| out@.contains(t2) implies prev.contains(t2) || t2
                                == t by {
                                let j = choose|j: int| 0 <= j < out@.len() && out@[j] == t2;
                                if j < prev.len() {
                                    assert(prev[j] == t2);
                                }
                            };
                            assert forall|t2: Tag| #[trigger] out@.contains(t2) implies (
                            self.tags@.contains(t2) && self.edges@.contains(
                                TagTag { tag: id, dep: t2.id },
                            )) by {
                                if !prev.contains(t2) {
                                    assert(t2 == t);
                                }
                            };
                            assert forall|j: int|
                                0 <= j < k + 1 && (#[trigger] self.edges@[j]).tag
                                    == id implies exists|t2: Tag|
                                #[trigger] out@.contains(t2) && t2.id == self.edges@[j].dep by {
                                if j == k {
                                    assert(out@.contains(t) && t.id == self.edges@[j].dep);
                                } else {
                                    let w = choose|w: Tag|
                                        #[trigger] prev.contains(w) && w.id == self.edges@[j].dep;
                                    assert(out@.contains(w));
                                }
                            };
                        }
                    },
                    Err(_) => {
                        proof {
                            assert(false);
                        }
                    },
                }
            }
            k = k + 1;
        }
        proof {
            assert forall|t: Tag|
                self.tags@.contains(t) && self.edges@.contains(
                    TagTag { tag: id, dep: t.id },
                ) implies #[trigger] out@.contains(t) by {
                let j = choose|j: int|
                    0 <= j < self.edges@.len() && self.edges@[j] == (TagTag { tag: id, dep: t.id });
                assert(self.edges@[j].tag == id);
                let w = choose|w: Tag| #[trigger] out@.contains(w) && w.id == self.edges@[j].dep;
                let iw = choose|q: int| 0 <= q < self.tags@.len() && self.tags@[q] == w;
                let it = choose|q: int| 0 <= q < self.tags@.len() && self.tags@[q] == t;
                if iw != it {
                    assert(self.tags@[iw].id != self.tags@[it].id);
                }
                assert(w == t);
            };
        }
        out
    }

    /// Removes every dependency edge whose source or target is this tag.
    fn remove_edges_touching(&mut self, id: i64)
        requires
            old(self).wf(),
        ensures
            final(self).tags@ == old(self).tags@,
            final(self).next_id == old(self).next_id,
            final(self).edges@ == old(self).edges@.filter(
                |e: TagTag| e.tag != id && e.dep != id,
            ),
            final(self).wf(),
    {
        let mut out: Vec<TagTag> = Vec::new();
        let mut k: usize = 0;
        while k < self.edges.len()
            invariant
                k <= self.edges@.len(),
                self == old(self),
                out@ == self.edges@.take(k as int).filter(|e: TagTag| e.tag != id && e.dep != id),
            decreases self.edges@.len() - k,
        {
            proof {
                lemma_take_filter_step(
                    self.edges@,
                    |e: TagTag| e.tag != id && e.dep != id,
                    k as int,
                );
            }
            if self.edges[k].tag != id && self.edges[k].dep != id {
                out.push(self.edges[k]);
            }
            k = k + 1;
        }
        proof {
            assert(self.edges@.take(self.edges@.len() as int) =~= self.edges@);
            lemma_filter_no_duplicates(
                old(self).edges@,
                |e: TagTag| e.tag != id && e.dep != id,
            );
            broadcast use vstd::seq_lib::group_filter_ensures;

        }
        self.edges = out;
        proof {
            assert forall|k2: int|
                0 <= k2 < self.edges@.len() implies ((#[trigger] self.edges@[k2]).tag
                != self.edges@[k2].dep && has_tag_id(self.tags@, self.edges@[k2].tag) && has_tag_id(
                self.tags@,
                self.edges@[k2].dep,
            )) by {
                let pred = |e: TagTag| e.tag != id && e.dep != id;
                assert(old(self).edges@.filter(pred).contains(self.edges@[k2]));
                old(self).edges@.lemma_filter_contains_rev(pred, self.edges@[k2]);
            };
        }
    }
}

/// Removes a tag everywhere: its item links, every dependency edge that
/// touches it, and finally its catalog row. Removing an unknown id is a
/// no-op.
pub fn delete_tag(catalog: &mut TagCatalog, links: &mut LinkTable, id: i64)
    requires
        old(catalog).wf(),
        old(links).wf(),
    ensures
        final(catalog).wf(),
        final(links).wf(),
        final(links).rows@ == old(links).rows@.filter(|row: ItemTag| row.tag != id),
        final(catalog).tags@ == old(catalog).tags@.filter(|t: Tag| t.id != id),
        final(catalog).edges@ == old(catalog).edges@.filter(
            |e: TagTag| e.tag != id && e.dep != id,
        ),
        final(catalog).next_id == old(catalog).next_id,
{
    links.delete_by_tag(id);
    catalog.remove_edges_touching(id);
    let mut out: Vec<Tag> = Vec::new();
    let mut i: usize = 0;
    while i < catalog.tags.len()
        invariant
            i <= catalog.tags@.len(),
            catalog.tags@ == old(catalog).tags@,
            out@ == catalog.tags@.take(i as int).filter(|t: Tag| t.id != id),
        decreases catalog.tags@.len() - i,
    {
        proof {
            lemma_take_filter_step(catalog.tags@, |t: Tag| t.id != id, i as int);
        }
        if catalog.tags[i].id != id {
            out.push(catalog.tags[i].duplicate());
        }
        i = i + 1;
    }
    proof {
        assert(catalog.tags@.take(catalog.tags@.len() as int) =~= catalog.tags@);
    }
    let ghost mid = *catalog;
    catalog.tags = out;
    proof {
        let pred = |t: Tag| t.id != id;
        broadcast use vstd::seq_lib::group_filter_ensures;

        assert forall|i2: int, j2: int| 0 <= i2 < j2 < catalog.tags@.len() implies (
        #[trigger] catalog.tags@[i2]).id != (#[trigger] catalog.tags@[j2]).id by {
            lemma_filter_distinct_pair(mid.tags@, pred, i2, j2);
        };
        assert forall|i2: int, j2: int| 0 <= i2 < j2 < catalog.tags@.len() implies (
        #[trigger] catalog.tags@[i2]).name@ != (#[trigger] catalog.tags@[j2]).name@ by {
            lemma_filter_distinct_pair(mid.tags@, pred, i2, j2);
        };
        assert forall|k: int|
            0 <= k < catalog.tags@.len() implies lower_seq((#[trigger] catalog.tags@[k]).name@)
            == catalog.tags@[k].name@ by {
            mid.tags@.lemma_filter_contains_rev(pred, catalog.tags@[k]);
            let q = choose|q: int| 0 <= q < mid.tags@.len() && mid.tags@[q] == catalog.tags@[k];
            assert(lower_seq(mid.tags@[q].name@) == mid.tags@[q].name@);
        };
        assert forall|k: int|
            0 <= k < catalog.edges@.len() implies ((#[trigger] catalog.edges@[k]).tag
            != catalog.edges@[k].dep && has_tag_id(catalog.tags@, catalog.edges@[k].tag)
            && has_tag_id(catalog.tags@, catalog.edges@[k].dep)) by {
            let a = catalog.edges@[k].tag;
            let b = catalog.edges@[k].dep;
            assert(a != id && b != id);
            lemma_surviving_id(mid.tags@, pred, a);
            lemma_surviving_id(mid.tags@, pred, b);
        };
        assert forall|k: int|
            0 <= k < catalog.tags@.len() implies 0 < (#[trigger] catalog.tags@[k]).id
            < catalog.next_id by {
            mid.tags@.lemma_filter_contains_rev(pred, catalog.tags@[k]);
            let q = choose|q: int| 0 <= q < mid.tags@.len() && mid.tags@[q] == catalog.tags@[k];
            assert(0 < mid.tags@[q].id < mid.next_id);
        };
    }
}

/// Two positions of a filtered sequence come from two distinct positions
/// of the original.
proof fn lemma_filter_distinct_pair(s: Seq<Tag>, pred: spec_fn(Tag) -> bool, i: int, j: int)
    requires
        distinct_ids(s),
        distinct_names(s),
        0 <= i < j < s.filter(pred).len(),
    ensures
        s.filter(pred)[i].id != s.filter(pred)[j].id,
        s.filter(pred)[i].name@ != s.filter(pred)[j].name@,
    decreases s.len(),
{
    reveal_with_fuel(Seq::filter, 2);
    broadcast use vstd::seq_lib::group_filter_ensures;

    if s.len() == 0 {
    } else {
        let rest = s.drop_last();
        let last = s.last();
        let f = s.filter(pred);
        let g = rest.filter(pred);
        assert forall|q: int| 0 <= q < rest.len() implies rest[q] == s[q] by {};
        if pred(last) {
            assert(f == g.push(last));
            if j < f.len() - 1 {
                lemma_filter_distinct_pair(rest, pred, i, j);
            } else {
                assert(f[j] == last);
                assert(f[i] == g[i]);
                rest.lemma_filter_contains_rev(pred, g[i]);
                let q = choose|q: int| 0 <= q < rest.len() && rest[q] == g[i];
                assert(s[q] == g[i]);
                assert(s[q].id != s[s.len() - 1].id);
                assert(s[q].name@ != s[s.len() - 1].name@);
            }
        } else {
            assert(f == g);
            lemma_filter_distinct_pair(rest, pred, i, j);
        }
    }
}

/// An id that the filter predicate never removes is still present after
/// filtering.
proof fn lemma_surviving_id(s: Seq<Tag>, pred: spec_fn(Tag) -> bool, a: i64)
    requires
        has_tag_id(s, a),
        forall|t: Tag| t.id == a ==> #[trigger] pred(t),
    ensures
        has_tag_id(s.filter(pred), a),
{
    broadcast use vstd::seq_lib::group_filter_ensures;

    let k = choose|k: int| 0 <= k < s.len() && (#[trigger] s[k]).id == a;
    assert(pred(s[k]));
    assert(s.filter(pred).contains(s[k]));
    let q = choose|q: int| 0 <= q < s.filter(pred).len() && s.filter(pred)[q] == s[k];
    assert(s.filter(pred)[q].id == a);
}

/// Appending new tags to a catalog never moves an existing name.
pub proof fn lemma_name_stable(small: Seq<Tag>, big: Seq<Tag>, n: Seq<char>)
    requires
        small.is_prefix_of(big),
        distinct_names(big),
        has_tag_name(small, n),
    ensures
        has_tag_name(big, n),
        tag_with_name(big, n) == tag_with_name(small, n),
        id_of_name(big, n) == id_of_name(small, n),
{
    let ks = choose|k: int| 0 <= k < small.len() && (#[trigger] small[k]).name@ == n;
    assert(big[ks] == small[ks]);
    assert(has_tag_name(big, n));
    let kb = choose|k: int| 0 <= k < big.len() && (#[trigger] big[k]).name@ == n;
    assert(big[kb].name@ == n);
    if kb != ks {
        assert(big[kb].name@ != big[ks].name@);
    }
    assert(tag_with_name(big, n) == big[kb]);
    assert(tag_with_name(small, n) == small[ks]);
}

/// The outcome of one batch tag assignment: the tag ids now linked, and
/// the requested names that could not be used (they were empty).
pub struct UpdateReport {
    pub linked: Vec<i64>,
    pub skipped: Vec<String>,
}

/// Some usable name among the first `upto` requested names selects tag
/// id `t` in this catalog.
pub open spec fn resolved_prefix(tags: Seq<Tag>, names: Seq<Seq<char>>, upto: int, t: i64) -> bool {
    exists|j: int|
        0 <= j < upto && j < names.len() && lower_seq(#[trigger] names[j]).len() > 0 && has_tag_name(
            tags,
            lower_seq(names[j]),
        ) && id_of_name(tags, lower_seq(names[j])) == t
}

/// The root ids that a batch of requested names selects in a catalog:
/// the id of every usable (non-empty) name, after case folding.
pub open spec fn requested_roots(tags: Seq<Tag>, names: Seq<Seq<char>>) -> Set<i64> {
    Set::new(|t: i64| resolved_prefix(tags, names, names.len() as int, t))
}

/// Every usable requested name already has a catalog entry.
pub open spec fn names_resolved(tags: Seq<Tag>, names: Seq<Seq<char>>) -> bool {
    forall|j: int|
        0 <= j < names.len() && lower_seq(#[trigger] names[j]).len() > 0 ==> has_tag_name(
            tags,
            lower_seq(names[j]),
        )
}

/// Replaces the link set of one item by the dependency closure of the
/// requested tag names.
///
/// Names are case-folded (ASCII letters only) and created on demand;
/// empty names are skipped
/// and reported, not fatal. The final link set is the smallest set that
/// contains the requested roots and, with every tag, all its
/// dependencies — so it is closed even on cyclic dependency graphs, and
/// requesting no names clears the item. Rows that stay linked are left
/// untouched, and repeating an identical request changes nothing.
pub fn update_item_tags(
    catalog: &mut TagCatalog,
    links: &mut LinkTable,
    item_id: i64,
    tag_names: &Vec<String>,
) -> (r: UpdateReport)
    requires
        old(catalog).wf(),
        old(links).wf(),
        old(catalog).next_id + tag_names@.len() <= i64::MAX,
    ensures
        final(catalog).wf(),
        final(links).wf(),
        final(catalog).edges@ == old(catalog).edges@,
        old(catalog).tags@.is_prefix_of(final(catalog).tags@),
        old(catalog).next_id <= final(catalog).next_id <= old(catalog).next_id + tag_names@.len(),
        names_resolved(final(catalog).tags@, tag_names.deep_view()),
        tag_set_of(final(links).rows@, item_id) == closure(
            old(catalog).edges@,
            requested_roots(final(catalog).tags@, tag_names.deep_view()),
        ),
        closed_under_deps(old(catalog).edges@, tag_set_of(final(links).rows@, item_id)),
        final(links).rows@.filter(|row: ItemTag| row.item != item_id) == old(
            links,
        ).rows@.filter(|row: ItemTag| row.item != item_id),
        r.linked@.no_duplicates(),
        r.linked@.to_set() == tag_set_of(final(links).rows@, item_id),
        r.skipped.deep_view() == tag_names.deep_view().filter(|n: Seq<char>| n.len() == 0),
        (names_resolved(old(catalog).tags@, tag_names.deep_view()) && tag_set_of(
            old(links).rows@,
            item_id,
        ) == closure(
            old(catalog).edges@,
            requested_roots(old(catalog).tags@, tag_names.deep_view()),
        )) ==> (*final(catalog) == *old(catalog) && final(links).rows@ == old(links).rows@),
{
    let ghost names = tag_names.deep_view();
    let ghost cat0 = *old(catalog);
    let ghost rows0 = old(links).rows@;
    proof {
        assert(names.len() == tag_names@.len());
        assert forall|j: int| 0 <= j < names.len() implies #[trigger] names[j]
            == tag_names@[j]@ by {};
    }
    let mut skipped: Vec<String> = Vec::new();
    let mut roots: Vec<i64> = Vec::new();
    let mut i: usize = 0;
    while i < tag_names.len()
        invariant
            i <= names.len(),
            names == tag_names.deep_view(),
            names.len() == tag_names@.len(),
            forall|j: int| 0 <= j < names.len() ==> #[trigger] names[j] == tag_names@[j]@,
            catalog.wf(),
            cat0.wf(),
            catalog.edges@ == cat0.edges@,
            cat0.tags@.is_prefix_of(catalog.tags@),
            catalog.next_id as int <= cat0.next_id + i,
            cat0.next_id <= catalog.next_id,
            cat0.next_id + names.len() <= i64::MAX,
            forall|j: int|
                0 <= j < i && lower_seq(#[trigger] names[j]).len() > 0 ==> has_tag_name(
                    catalog.tags@,
                    lower_seq(names[j]),
                ),
            forall|t: i64| #[trigger]
                roots@.contains(t) <==> resolved_prefix(catalog.tags@, names, i as int, t),
            skipped.deep_view() == names.take(i as int).filter(|n: Seq<char>| n.len() == 0),
            names_resolved(cat0.tags@, names) ==> *catalog == cat0,
        decreases names.len() - i,
    {
        let ghost catb = *catalog;
        let ghost prevroots = roots@;
        let ghost prevskip = skipped.deep_view();
        if tag_names[i].as_str().is_empty() {
            skipped.push(tag_names[i].clone());
            proof {
                lemma_take_filter_step(names, |n: Seq<char>| n.len() == 0, i as int);
                assert(skipped.deep_view() =~= prevskip.push(names[i as int]));
                assert forall|t: i64|
                    resolved_prefix(catalog.tags@, names, i + 1, t) implies resolved_prefix(
                    catalog.tags@,
                    names,
                    i as int,
                    t,
                ) by {
                    let j = choose|j: int|
                        0 <= j < i + 1 && j < names.len() && lower_seq(
                            #[trigger] names[j],
                        ).len() > 0 && has_tag_name(catalog.tags@, lower_seq(names[j]))
                            && id_of_name(catalog.tags@, lower_seq(names[j])) == t;
                    assert(j != i);
                };
            }
        } else {
            proof {
                assert(names[i as int].len() > 0);
            }
            match catalog.find_or_create(tag_names[i].as_str()) {
                Ok(t) => {
                    proof {
                        assert(catb.tags@.is_prefix_of(catalog.tags@));
                        assert forall|q: int|
                            0 <= q < cat0.tags@.len() implies cat0.tags@[q]
                            == catalog.tags@[q] by {
                            assert(cat0.tags@[q] == catb.tags@[q]);
                        };
                        assert(cat0.tags@.is_prefix_of(catalog.tags@));
                        assert(catalog.tags@.contains(t));
                        lemma_name_pins_tag(catalog.tags@, t);
                        assert forall|j: int|
                            0 <= j < i && lower_seq(#[trigger] names[j]).len()
                                > 0 implies has_tag_name(catalog.tags@, lower_seq(names[j]))
                            && id_of_name(catalog.tags@, lower_seq(names[j])) == id_of_name(
                            catb.tags@,
                            lower_seq(names[j]),
                        ) by {
                            lemma_name_stable(catb.tags@, catalog.tags@, lower_seq(names[j]));
                        };
                    }
                    roots.push(t.id);
                    proof {
                        assert forall|x: i64| prevroots.contains(x) implies roots@.contains(x) by {
                            let q = choose|q: int|
                                0 <= q < prevroots.len() && prevroots[q] == x;
                            assert(roots@[q] == x);
                        };
                        assert(roots@[roots@.len() - 1] == t.id);
                        assert forall|x: i64| roots@.contains(x) implies prevroots.contains(x) || x
                            == t.id by {
                            let q = choose|q: int| 0 <= q < roots@.len() && roots@[q] == x;
                            if q < prevroots.len() {
                                assert(prevroots[q] == x);
                            }
                        };
                        assert forall|x: i64| #[trigger]
                            roots@.contains(x) implies resolved_prefix(
                            catalog.tags@,
                            names,
                            i + 1,
                            x,
                        ) by {
                            if prevroots.contains(x) {
                                let j = choose|j: int|
                                    0 <= j < i && j < names.len() && lower_seq(
                                        #[trigger] names[j],
                                    ).len() > 0 && has_tag_name(catb.tags@, lower_seq(names[j]))
                                        && id_of_name(catb.tags@, lower_seq(names[j])) == x;
                                lemma_name_stable(catb.tags@, catalog.tags@, lower_seq(names[j]));
                            } else {
                                assert(x == t.id);
                                assert(lower_seq(names[i as int]) == t.name@);
                                assert(has_tag_name(catalog.tags@, lower_seq(names[i as int])));
                                assert(id_of_name(catalog.tags@, lower_seq(names[i as int]))
                                    == t.id);
                            }
                        };
                        assert forall|x: i64|
                            resolved_prefix(catalog.tags@, names, i + 1, x) implies #[trigger]
                        roots@.contains(x) by {
                            let j = choose|j: int|
                                0 <= j < i + 1 && j < names.len() && lower_seq(
                                    #[trigger] names[j],
                                ).len() > 0 && has_tag_name(catalog.tags@, lower_seq(names[j]))
                                    && id_of_name(catalog.tags@, lower_seq(names[j])) == x;
                            if j == i {
                                assert(x == t.id);
                            } else {
                                assert(has_tag_name(catb.tags@, lower_seq(names[j])));
                                lemma_name_stable(catb.tags@, catalog.tags@, lower_seq(names[j]));
                                assert(resolved_prefix(catb.tags@, names, i as int, x));
                                assert(prevroots.contains(x));
                            }
                        };
                        lemma_take_filter_step(names, |n: Seq<char>| n.len() == 0, i as int);
                        assert(skipped.deep_view() =~= names.take(i + 1).filter(
                            |n: Seq<char>| n.len() == 0,
                        ));
                        if names_resolved(cat0.tags@, names) {
                            assert(catb == cat0);
                            assert(has_tag_name(catb.tags@, lower_seq(names[i as int])));
                            assert(*catalog == catb);
                        }
                    }
                },
                Err(_) => {
                    proof {
                        assert(false);
                    }
                },
            }
        }
        i = i + 1;
    }
    proof {
        assert(names.take(names.len() as int) =~= names);
        assert forall|t: i64| roots@.to_set().contains(t) <==> requested_roots(
            catalog.tags@,
            names,
        ).contains(t) by {}
        assert(roots@.to_set() =~= requested_roots(catalog.tags@, names));
    }
    let closed = close_tag_set(&catalog.edges, &roots);
    let ghost closedset = closed@.to_set();
    let ghost keeppred = |row: ItemTag| row.item != item_id || closedset.contains(row.tag);
    let ghost otherpred = |row: ItemTag| row.item != item_id;
    let ghost misspred = |t: i64| !rows0.contains(ItemTag { item: item_id, tag: t });
    let ghost topair = |t: i64| ItemTag { item: item_id, tag: t };

    let mut kept: Vec<ItemTag> = Vec::new();
    let mut j: usize = 0;
    while j < links.rows.len()
        invariant
            j <= links.rows@.len(),
            links.rows@ == rows0,
            closedset == closed@.to_set(),
            keeppred == (|row: ItemTag| row.item != item_id || closedset.contains(row.tag)),
            kept@ == rows0.take(j as int).filter(keeppred),
        decreases links.rows@.len() - j,
    {
        proof {
            lemma_take_filter_step(rows0, keeppred, j as int);
        }
        let row = links.rows[j];
        if row.item != item_id {
            kept.push(row);
        } else {
            if vec_contains_i64(&closed, row.tag) {
                kept.push(row);
            }
        }
        j = j + 1;
    }
    proof {
        assert(rows0.take(rows0.len() as int) =~= rows0);
    }

    let mut add_rows: Vec<ItemTag> = Vec::new();
    let mut k: usize = 0;
    while k < closed.len()
        invariant
            k <= closed@.len(),
            links.rows@ == rows0,
            misspred == (|t: i64| !rows0.contains(ItemTag { item: item_id, tag: t })),
            topair == (|t: i64| ItemTag { item: item_id, tag: t }),
            add_rows@ == closed@.take(k as int).filter(misspred).map_values(topair),
        decreases closed@.len() - k,
    {
        proof {
            lemma_take_filter_step(closed@, misspred, k as int);
        }
        let ghost prevadd = add_rows@;
        if !row_contains(&links.rows, ItemTag { item: item_id, tag: closed[k] }) {
            add_rows.push(ItemTag { item: item_id, tag: closed[k] });
            proof {
                assert(add_rows@ =~= closed@.take(k + 1).filter(misspred).map_values(topair));
            }
        } else {
            proof {
                assert(add_rows@ =~= closed@.take(k + 1).filter(misspred).map_values(topair));
            }
        }
        k = k + 1;
    }
    proof {
        assert(closed@.take(closed@.len() as int) =~= closed@);
    }

    let ghost keptseq = rows0.filter(keeppred);
    let ghost addseq = closed@.filter(misspred).map_values(topair);
    kept.append(&mut add_rows);
    links.rows = kept;
    proof {
        broadcast use vstd::seq_lib::group_filter_ensures;

        assert(links.rows@ == keptseq + addseq);
        // the table stays duplicate-free
        lemma_filter_no_duplicates(rows0, keeppred);
        lemma_filter_no_duplicates(closed@, misspred);
        assert(vstd::relations::injective(topair)) by {
            assert forall|a: i64, b: i64| #[trigger] topair(a) == #[trigger] topair(b) implies a
                == b by {}
        };
        closed@.filter(misspred).lemma_no_duplicates_injective(topair);
        assert forall|p: int, q: int|
            0 <= p < keptseq.len() && 0 <= q < addseq.len() implies keptseq[p] != addseq[q] by {
            rows0.lemma_filter_contains_rev(keeppred, keptseq[p]);
            let m = closed@.filter(misspred);
            assert(addseq[q] == topair(m[q]));
            assert(misspred(m[q]));
        };
        vstd::seq_lib::lemma_no_dup_in_concat(keptseq, addseq);
        // the item's link set is exactly the closed tag set
        assert forall|t: i64| #[trigger]
            tag_set_of(links.rows@, item_id).contains(t) implies closedset.contains(t) by {
            let pair = ItemTag { item: item_id, tag: t };
            assert(links.rows@.contains(pair));
            let q = choose|q: int| 0 <= q < links.rows@.len() && links.rows@[q] == pair;
            if q < keptseq.len() {
                assert(keptseq[q] == pair);
                assert(keeppred(pair));
            } else {
                let m = closed@.filter(misspred);
                assert(addseq[q - keptseq.len()] == topair(m[q - keptseq.len()]));
                assert(m.contains(m[q - keptseq.len()]));
                closed@.lemma_filter_contains_rev(misspred, m[q - keptseq.len()]);
            }
        };
        assert forall|t: i64| closedset.contains(t) implies #[trigger]
        tag_set_of(links.rows@, item_id).contains(t) by {
            let pair = ItemTag { item: item_id, tag: t };
            if rows0.contains(pair) {
                let q = choose|q: int| 0 <= q < rows0.len() && rows0[q] == pair;
                assert(keeppred(rows0[q]));
                assert(keptseq.contains(pair));
                let w = choose|w: int| 0 <= w < keptseq.len() && keptseq[w] == pair;
                assert(links.rows@[w] == pair);
            } else {
                assert(closed@.contains(t));
                let q = choose|q: int| 0 <= q < closed@.len() && closed@[q] == t;
                assert(misspred(closed@[q]));
                assert(closed@.filter(misspred).contains(t));
                let m = closed@.filter(misspred);
                let w = choose|w: int| 0 <= w < m.len() && m[w] == t;
                assert(addseq[w] == pair);
                assert(links.rows@[keptseq.len() + w] == pair);
            }
            assert(links.rows@.contains(pair));
        };
        assert(tag_set_of(links.rows@, item_id) =~= closedset);
        // rows of other items are untouched
        Seq::<ItemTag>::filter_distributes_over_add(keptseq, addseq, otherpred);
        lemma_filter_absorb(rows0, keeppred, otherpred);
        assert forall|q: int| 0 <= q < addseq.len() implies !otherpred(#[trigger] addseq[q]) by {
            let m = closed@.filter(misspred);
            assert(addseq[q] == topair(m[q]));
        };
        lemma_filter_none(addseq, otherpred);
        assert(links.rows@.filter(otherpred) =~= rows0.filter(otherpred));
        assert(links.rows@.filter(|row: ItemTag| row.item != item_id) == rows0.filter(
            |row: ItemTag| row.item != item_id,
        ));
        // closure completeness of the final link set
        lemma_closure_is_closed(cat0.edges@, requested_roots(catalog.tags@, names));
        // idempotence
        if names_resolved(cat0.tags@, names) && tag_set_of(rows0, item_id) == closure(
            cat0.edges@,
            requested_roots(cat0.tags@, names),
        ) {
            assert(*catalog == cat0);
            assert(closedset == tag_set_of(rows0, item_id));
            assert forall|q: int| 0 <= q < rows0.len() implies keeppred(#[trigger] rows0[q]) by {
                let row = rows0[q];
                if row.item == item_id {
                    assert(rows0.contains(ItemTag { item: item_id, tag: row.tag }));
                    assert(tag_set_of(rows0, item_id).contains(row.tag));
                }
            };
            lemma_filter_all(rows0, keeppred);
            assert forall|q: int| 0 <= q < closed@.len() implies !misspred(
                #[trigger] closed@[q],
            ) by {
                assert(closedset.contains(closed@[q]));
                assert(tag_set_of(rows0, item_id).contains(closed@[q]));
            };
            lemma_filter_none(closed@, misspred);
            assert(addseq =~= Seq::<ItemTag>::empty());
            assert(links.rows@ =~= rows0);
        }
    }
    UpdateReport { linked: closed, skipped }
}

/// Some usable dependency name among the first `upto` requested ones
/// selects tag id `d`: it is non-empty, differs from the tag's own new
/// name, and does not resolve to the tag itself.
pub open spec fn dep_selected(
    tags: Seq<Tag>,
    names: Seq<Seq<char>>,
    upto: int,
    newname: Seq<char>,
    self_id: i64,
    d: i64,
) -> bool {
    exists|j: int|
        0 <= j < upto && j < names.len() && lower_seq(#[trigger] names[j]).len() > 0 && lower_seq(
            names[j],
        ) != newname && has_tag_name(tags, lower_seq(names[j])) && id_of_name(
            tags,
            lower_seq(names[j]),
        ) == d && d != self_id
}

/// The dependency ids a batch of names selects for one tag.
pub open spec fn dep_set(
    tags: Seq<Tag>,
    names: Seq<Seq<char>>,
    newname: Seq<char>,
    self_id: i64,
) -> Set<i64> {
    Set::new(|d: i64| dep_selected(tags, names, names.len() as int, newname, self_id, d))
}

/// Renames a tag and replaces its outgoing dependency edges by the
/// resolved dependency names.
///
/// Dependency names are case-folded (ASCII letters only) and created on
/// demand; empty names are skipped and reported; a name equal to the
/// tag's new name, or resolving to the tag itself, is dropped silently
/// (no self-loop). Renaming onto another tag's name is a conflict.
/// Edges of other tags are untouched, and every usable dependency name
/// has a catalog entry afterwards — except one equal to the tag's own
/// former name, which resolved to the tag itself and was freed by the
/// rename — so repeating the same edit resolves to the same tags.
#[verifier::rlimit(100)]
pub fn update_tag(
    catalog: &mut TagCatalog,
    id: i64,
    name: &str,
    dep_names: &Vec<String>,
) -> (r: Result<Vec<String>, StoreError>)
    requires
        old(catalog).wf(),
        old(catalog).next_id + dep_names@.len() <= i64::MAX,
    ensures
        final(catalog).wf(),
        match r {
            Err(e) => {
                &&& *final(catalog) == *old(catalog)
                &&& (e == StoreError::NotFound <==> !has_tag_id(old(catalog).tags@, id))
                &&& (e == StoreError::Validation <==> (has_tag_id(old(catalog).tags@, id)
                    && lower_seq(name@).len() == 0))
                &&& (e == StoreError::Conflict ==> exists|q: int|
                    0 <= q < old(catalog).tags@.len() && (#[trigger] old(catalog).tags@[q]).name@
                        == lower_seq(name@) && old(catalog).tags@[q].id != id)
                &&& (e == StoreError::NotFound || e == StoreError::Validation || e
                    == StoreError::Conflict)
            },
            Ok(skipped) => {
                &&& has_tag_id(old(catalog).tags@, id)
                &&& lower_seq(name@).len() > 0
                &&& skipped.deep_view() == dep_names.deep_view().filter(
                    |n: Seq<char>| n.len() == 0,
                )
                &&& final(catalog).tags@.len() >= old(catalog).tags@.len()
                &&& old(catalog).next_id <= final(catalog).next_id <= old(catalog).next_id
                    + dep_names@.len()
                &&& forall|q: int|
                    old(catalog).tags@.len() <= q < final(catalog).tags@.len() ==> (
                    #[trigger] final(catalog).tags@[q]).id >= old(catalog).next_id && exists|j: int|
                        0 <= j < dep_names@.len() && final(catalog).tags@[q].name@ == lower_seq(
                            #[trigger] dep_names.deep_view()[j],
                        )
                &&& forall|j: int, q: int|
                    #![trigger dep_names.deep_view()[j], old(catalog).tags@[q]]
                    0 <= j < dep_names@.len() && 0 <= q < old(catalog).tags@.len() && old(
                        catalog,
                    ).tags@[q].id == id && lower_seq(dep_names.deep_view()[j]).len() > 0
                        && lower_seq(dep_names.deep_view()[j]) != lower_seq(name@) && lower_seq(
                        dep_names.deep_view()[j],
                    ) != old(catalog).tags@[q].name@ ==> has_tag_name(
                        final(catalog).tags@,
                        lower_seq(dep_names.deep_view()[j]),
                    )
                &&& forall|q: int|
                    0 <= q < old(catalog).tags@.len() ==> (#[trigger] final(catalog).tags@[q]).id
                        == old(catalog).tags@[q].id && final(catalog).tags@[q].created_at == old(
                        catalog,
                    ).tags@[q].created_at
                &&& forall|q: int|
                    0 <= q < old(catalog).tags@.len() && (#[trigger] old(catalog).tags@[q]).id != id
                        ==> final(catalog).tags@[q] == old(catalog).tags@[q]
                &&& forall|q: int|
                    0 <= q < old(catalog).tags@.len() && (#[trigger] old(catalog).tags@[q]).id == id
                        ==> final(catalog).tags@[q].name@ == lower_seq(name@)
                &&& final(catalog).edges@.filter(|e: TagTag| e.tag != id) == old(
                    catalog,
                ).edges@.filter(|e: TagTag| e.tag != id)
                &&& forall|d: i64| #[trigger]
                    final(catalog).edges@.contains(TagTag { tag: id, dep: d }) <==> dep_set(
                        final(catalog).tags@,
                        dep_names.deep_view(),
                        lower_seq(name@),
                        id,
                    ).contains(d)
            },
        },
{
    let ghost cat0 = *old(catalog);
    let ghost dnames = dep_names.deep_view();
    proof {
        assert(dnames.len() == dep_names@.len());
        assert forall|j: int| 0 <= j < dnames.len() implies #[trigger] dnames[j]
            == dep_names@[j]@ by {};
    }
    // locate the tag row
    let mut idx: usize = 0;
    let mut found = false;
    while idx < catalog.tags.len() && !found
        invariant
            idx <= catalog.tags@.len(),
            *catalog == cat0,
            found ==> idx < catalog.tags@.len() && catalog.tags@[idx as int].id == id,
            !found ==> forall|q: int| 0 <= q < idx ==> (#[trigger] catalog.tags@[q]).id != id,
        decreases catalog.tags@.len() - idx + (if found {
            0int
        } else {
            1int
        }),
    {
        if catalog.tags[idx].id == id {
            found = true;
        } else {
            idx = idx + 1;
        }
    }
    if !found {
        return Err(StoreError::NotFound);
    }
    assert(has_tag_id(cat0.tags@, id));
    let norm = ascii_lower(name);
    if norm.as_str().is_empty() {
        return Err(StoreError::Validation);
    }
    // renaming onto another tag's name is a conflict
    let mut q: usize = 0;
    while q < catalog.tags.len()
        invariant
            q <= catalog.tags@.len(),
            *catalog == cat0,
            cat0.wf(),
            has_tag_id(cat0.tags@, id),
            norm@ == lower_seq(name@),
            norm@.len() > 0,
            forall|w: int|
                0 <= w < q && (#[trigger] catalog.tags@[w]).id != id ==> catalog.tags@[w].name@
                    != norm@,
        decreases catalog.tags@.len() - q,
    {
        if catalog.tags[q].id != id {
            if str_eq(catalog.tags[q].name.as_str(), norm.as_str()) {
                assert(catalog.tags@[q as int].name@ == lower_seq(name@));
                return Err(StoreError::Conflict);
            }
        }
        q = q + 1;
    }
    // resolve the dependency names against the current catalog
    let mut skipped: Vec<String> = Vec::new();
    let mut dep_ids: Vec<i64> = Vec::new();
    let mut i: usize = 0;
    while i < dep_names.len()
        invariant
            i <= dnames.len(),
            dnames == dep_names.deep_view(),
            dnames.len() == dep_names@.len(),
            forall|j: int| 0 <= j < dnames.len() ==> #[trigger] dnames[j] == dep_names@[j]@,
            catalog.wf(),
            cat0.wf(),
            catalog.edges@ == cat0.edges@,
            cat0.tags@.is_prefix_of(catalog.tags@),
            catalog.next_id as int <= cat0.next_id + i,
            cat0.next_id <= catalog.next_id,
            cat0.next_id + dnames.len() <= i64::MAX,
            norm@ == lower_seq(name@),
            norm@.len() > 0,
            idx < cat0.tags@.len() && cat0.tags@[idx as int].id == id,
            forall|q: int|
                cat0.tags@.len() <= q < catalog.tags@.len() ==> (#[trigger] catalog.tags@[q]).id
                    >= cat0.next_id && exists|j: int|
                    0 <= j < i && catalog.tags@[q].name@ == lower_seq(#[trigger] dnames[j]),
            forall|w: int|
                0 <= w < catalog.tags@.len() && (#[trigger] catalog.tags@[w]).id != id
                    ==> catalog.tags@[w].name@ != norm@,
            forall|j: int|
                0 <= j < i && lower_seq(#[trigger] dnames[j]).len() > 0 && lower_seq(dnames[j])
                    != norm@ ==> has_tag_name(catalog.tags@, lower_seq(dnames[j])),
            dep_ids@.no_duplicates(),
            forall|d: i64| #[trigger]
                dep_ids@.contains(d) <==> dep_selected(
                    catalog.tags@,
                    dnames,
                    i as int,
                    norm@,
                    id,
                    d,
                ),
            skipped.deep_view() == dnames.take(i as int).filter(|n: Seq<char>| n.len() == 0),
        decreases dnames.len() - i,
    {
        let ghost catb = *catalog;
        let ghost prevdep = dep_ids@;
        let ghost prevskip = skipped.deep_view();
        proof {
            lemma_take_filter_step(dnames, |n: Seq<char>| n.len() == 0, i as int);
        }
        if dep_names[i].as_str().is_empty() {
            skipped.push(dep_names[i].clone());
            proof {
                assert(skipped.deep_view() =~= prevskip.push(dnames[i as int]));
                assert forall|d: i64|
                    dep_selected(catalog.tags@, dnames, i + 1, norm@, id, d) implies dep_selected(
                    catalog.tags@,
                    dnames,
                    i as int,
                    norm@,
                    id,
                    d,
                ) by {
                    let j = choose|j: int|
                        0 <= j < i + 1 && j < dnames.len() && lower_seq(
                            #[trigger] dnames[j],
                        ).len() > 0 && lower_seq(dnames[j]) != norm@ && has_tag_name(
                            catalog.tags@,
                            lower_seq(dnames[j]),
                        ) && id_of_name(catalog.tags@, lower_seq(dnames[j])) == d && d != id;
                    assert(j != i);
                };
            }
        } else {
            let dep_norm = ascii_lower(dep_names[i].as_str());
            if str_eq(dep_norm.as_str(), norm.as_str()) {
                proof {
                    assert(lower_seq(dnames[i as int]) == norm@);
                    assert forall|d: i64|
                        dep_selected(
                            catalog.tags@,
                            dnames,
                            i + 1,
                            norm@,
                            id,
                            d,
                        ) implies dep_selected(catalog.tags@, dnames, i as int, norm@, id, d) by {
                        let j = choose|j: int|
                            0 <= j < i + 1 && j < dnames.len() && lower_seq(
                                #[trigger] dnames[j],
                            ).len() > 0 && lower_seq(dnames[j]) != norm@ && has_tag_name(
                                catalog.tags@,
                                lower_seq(dnames[j]),
                            ) && id_of_name(catalog.tags@, lower_seq(dnames[j])) == d && d != id;
                        assert(j != i);
                    };
                    assert(skipped.deep_view() =~= dnames.take(i + 1).filter(
                        |n: Seq<char>| n.len() == 0,
                    ));
                }
            } else {
                match catalog.find_or_create(dep_names[i].as_str()) {
                    Ok(t) => {
                        proof {
                            assert(catb.tags@.is_prefix_of(catalog.tags@));
                            assert forall|w: int|
                                0 <= w < cat0.tags@.len() implies cat0.tags@[w]
                                == catalog.tags@[w] by {
                                assert(cat0.tags@[w] == catb.tags@[w]);
                            };
                            assert(cat0.tags@.is_prefix_of(catalog.tags@));
                            assert(catalog.tags@.contains(t));
                            lemma_name_pins_tag(catalog.tags@, t);
                            assert(t.name@ == lower_seq(dnames[i as int]));
                            assert(t.name@ != norm@);
                            // the conflict guard survives: any created entry
                            // carries the dependency's folded name
                            assert forall|w: int|
                                0 <= w < catalog.tags@.len() && (#[trigger] catalog.tags@[w]).id
                                    != id implies catalog.tags@[w].name@ != norm@ by {
                                if w < catb.tags@.len() {
                                    assert(catb.tags@[w].name@ != norm@);
                                } else {
                                    assert(catalog.tags@[w] == t);
                                }
                            };
                            assert forall|j: int|
                                0 <= j < i && lower_seq(#[trigger] dnames[j]).len() > 0
                                    && lower_seq(dnames[j]) != norm@ implies has_tag_name(
                                catalog.tags@,
                                lower_seq(dnames[j]),
                            ) && id_of_name(catalog.tags@, lower_seq(dnames[j])) == id_of_name(
                                catb.tags@,
                                lower_seq(dnames[j]),
                            ) by {
                                lemma_name_stable(catb.tags@, catalog.tags@, lower_seq(dnames[j]));
                            };
                            assert forall|q: int|
                                cat0.tags@.len() <= q < catalog.tags@.len() implies (
                            #[trigger] catalog.tags@[q]).id >= cat0.next_id && exists|j: int|
                                0 <= j < i + 1 && catalog.tags@[q].name@ == lower_seq(
                                    #[trigger] dnames[j],
                                ) by {
                                if q < catb.tags@.len() {
                                    assert(catalog.tags@[q] == catb.tags@[q]);
                                    let j0 = choose|j0: int|
                                        0 <= j0 < i && catb.tags@[q].name@ == lower_seq(
                                            #[trigger] dnames[j0],
                                        );
                                    assert(catalog.tags@[q].name@ == lower_seq(dnames[j0]));
                                } else {
                                    assert(catalog.tags@[q] == t);
                                    assert(t.name@ == lower_seq(dnames[i as int]));
                                    assert(t.id == catb.next_id);
                                }
                            };
                        }
                        let keep = if t.id == id {
                            false
                        } else {
                            !vec_contains_i64(&dep_ids, t.id)
                        };
                        if keep {
                            dep_ids.push(t.id);
                            proof {
                                assert forall|x: i64| prevdep.contains(x) implies dep_ids@.contains(
                                    x,
                                ) by {
                                    let w = choose|w: int|
                                        0 <= w < prevdep.len() && prevdep[w] == x;
                                    assert(dep_ids@[w] == x);
                                };
                                assert(dep_ids@[dep_ids@.len() - 1] == t.id);
                                assert forall|x: i64| dep_ids@.contains(x) implies prevdep.contains(
                                    x,
                                ) || x == t.id by {
                                    let w = choose|w: int|
                                        0 <= w < dep_ids@.len() && dep_ids@[w] == x;
                                    if w < prevdep.len() {
                                        assert(prevdep[w] == x);
                                    }
                                };
                            }
                        }
                        proof {
                            assert forall|d: i64| #[trigger]
                                dep_ids@.contains(d) implies dep_selected(
                                catalog.tags@,
                                dnames,
                                i + 1,
                                norm@,
                                id,
                                d,
                            ) by {
                                if prevdep.contains(d) {
                                    let j = choose|j: int|
                                        0 <= j < i && j < dnames.len() && lower_seq(
                                            #[trigger] dnames[j],
                                        ).len() > 0 && lower_seq(dnames[j]) != norm@
                                            && has_tag_name(catb.tags@, lower_seq(dnames[j]))
                                            && id_of_name(catb.tags@, lower_seq(dnames[j])) == d
                                            && d != id;
                                    lemma_name_stable(
                                        catb.tags@,
                                        catalog.tags@,
                                        lower_seq(dnames[j]),
                                    );
                                } else {
                                    assert(d == t.id && t.id != id);
                                    assert(has_tag_name(
                                        catalog.tags@,
                                        lower_seq(dnames[i as int]),
                                    ));
                                    assert(id_of_name(catalog.tags@, lower_seq(dnames[i as int]))
                                        == t.id);
                                }
                            };
                            assert forall|d: i64|
                                dep_selected(
                                    catalog.tags@,
                                    dnames,
                                    i + 1,
                                    norm@,
                                    id,
                                    d,
                                ) implies #[trigger] dep_ids@.contains(d) by {
                                let j = choose|j: int|
                                    0 <= j < i + 1 && j < dnames.len() && lower_seq(
                                        #[trigger] dnames[j],
                                    ).len() > 0 && lower_seq(dnames[j]) != norm@ && has_tag_name(
                                        catalog.tags@,
                                        lower_seq(dnames[j]),
                                    ) && id_of_name(catalog.tags@, lower_seq(dnames[j])) == d && d
                                        != id;
                                if j == i {
                                    assert(d == t.id);
                                    if !prevdep.contains(d) {
                                        assert(dep_ids@[dep_ids@.len() - 1] == t.id);
                                    }
                                } else {
                                    assert(has_tag_name(catb.tags@, lower_seq(dnames[j])));
                                    lemma_name_stable(
                                        catb.tags@,
                                        catalog.tags@,
                                        lower_seq(dnames[j]),
                                    );
                                    assert(dep_selected(catb.tags@, dnames, i as int, norm@, id, d));
                                    assert(prevdep.contains(d));
                                }
                            };
                            assert(skipped.deep_view() =~= dnames.take(i + 1).filter(
                                |n: Seq<char>| n.len() == 0,
                            ));
                        }
                    },
                    Err(_) => {
                        proof {
                            assert(false);
                        }
                    },
                }
            }
        }
        i = i + 1;
    }
    proof {
        assert(dnames.take(dnames.len() as int) =~= dnames);
    }
    // rename the tag in place
    let ghost catd = *catalog;
    let created_at = catalog.tags[idx].created_at;
    catalog.tags[idx] = Tag { id, name: norm, created_at };
    proof {
        lemma_lower_idempotent(name@);
        assert(catalog.tags@ == catd.tags@.update(idx as int, catalog.tags@[idx as int]));
        assert(catalog.tags@[idx as int].id == id);
        assert forall|w: int|
            0 <= w < catalog.tags@.len() && w != idx implies catalog.tags@[w]
            == catd.tags@[w] by {};
        assert forall|a: i64| has_tag_id(catd.tags@, a) implies has_tag_id(catalog.tags@, a) by {
            let w = choose|w: int| 0 <= w < catd.tags@.len() && (#[trigger] catd.tags@[w]).id == a;
            assert(catalog.tags@[w].id == a);
        };
        assert forall|i2: int, j2: int| 0 <= i2 < j2 < catalog.tags@.len() implies (
        #[trigger] catalog.tags@[i2]).name@ != (#[trigger] catalog.tags@[j2]).name@ by {
            if i2 == idx {
                assert(catd.tags@[j2].id != id);
                assert(catd.tags@[j2].name@ != norm@);
            } else if j2 == idx {
                assert(catd.tags@[i2].id != id);
                assert(catd.tags@[i2].name@ != norm@);
            } else {
                assert(catd.tags@[i2].name@ != catd.tags@[j2].name@);
            }
        };
        // the resolved dependency ids still read the same on the renamed catalog
        assert forall|d: i64| #[trigger] dep_ids@.contains(d) implies dep_selected(
            catalog.tags@,
            dnames,
            dnames.len() as int,
            norm@,
            id,
            d,
        ) by {
            let j = choose|j: int|
                0 <= j < dnames.len() && lower_seq(#[trigger] dnames[j]).len() > 0 && lower_seq(
                    dnames[j],
                ) != norm@ && has_tag_name(catd.tags@, lower_seq(dnames[j])) && id_of_name(
                    catd.tags@,
                    lower_seq(dnames[j]),
                ) == d && d != id;
            let n = lower_seq(dnames[j]);
            let w = choose|w: int| 0 <= w < catd.tags@.len() && (#[trigger] catd.tags@[w]).name@
                == n;
            assert(tag_with_name(catd.tags@, n) == catd.tags@[w]) by {
                let w2 = choose|k: int|
                    0 <= k < catd.tags@.len() && (#[trigger] catd.tags@[k]).name@ == n;
                if w2 != w {
                    assert(catd.tags@[w2].name@ != catd.tags@[w].name@);
                }
            };
            assert(catd.tags@[w].id == d);
            assert(w != idx);
            assert(catalog.tags@[w] == catd.tags@[w]);
            assert(has_tag_name(catalog.tags@, n));
            lemma_name_pins_tag(catalog.tags@, catalog.tags@[w]);
            assert(catalog.tags@.contains(catalog.tags@[w]));
            assert(id_of_name(catalog.tags@, n) == d);
        };
        assert forall|d: i64|
            dep_selected(catalog.tags@, dnames, dnames.len() as int, norm@, id, d) implies
        #[trigger] dep_ids@.contains(d) by {
            let j = choose|j: int|
                0 <= j < dnames.len() && lower_seq(#[trigger] dnames[j]).len() > 0 && lower_seq(
                    dnames[j],
                ) != norm@ && has_tag_name(catalog.tags@, lower_seq(dnames[j])) && id_of_name(
                    catalog.tags@,
                    lower_seq(dnames[j]),
                ) == d && d != id;
            let n = lower_seq(dnames[j]);
            let w = choose|w: int|
                0 <= w < catalog.tags@.len() && (#[trigger] catalog.tags@[w]).name@ == n;
            assert(tag_with_name(catalog.tags@, n) == catalog.tags@[w]) by {
                let w2 = choose|k: int|
                    0 <= k < catalog.tags@.len() && (#[trigger] catalog.tags@[k]).name@ == n;
                if w2 != w {
                    assert(catalog.tags@[w2].name@ != catalog.tags@[w].name@);
                }
            };
            assert(catalog.tags@[w].id == d);
            assert(w != idx);
            assert(catd.tags@[w] == catalog.tags@[w]);
            assert(has_tag_name(catd.tags@, n));
            lemma_name_pins_tag(catd.tags@, catd.tags@[w]);
            assert(id_of_name(catd.tags@, n) == d);
            assert(dep_selected(catd.tags@, dnames, dnames.len() as int, norm@, id, d));
        };
        // appended rows keep their dependency names through the rename
        assert forall|q: int|
            cat0.tags@.len() <= q < catalog.tags@.len() implies (
        #[trigger] catalog.tags@[q]).id >= cat0.next_id && exists|j: int|
            0 <= j < dnames.len() && catalog.tags@[q].name@ == lower_seq(#[trigger] dnames[j]) by {
            assert(q != idx);
            assert(catalog.tags@[q] == catd.tags@[q]);
            let j0 = choose|j0: int|
                0 <= j0 < dnames.len() && catd.tags@[q].name@ == lower_seq(#[trigger] dnames[j0]);
            assert(catalog.tags@[q].name@ == lower_seq(dnames[j0]));
        };
        // usable dependency names other than the tag's former name survive
        // the rename: repeating the same edit resolves to the same tags
        assert forall|j: int, q: int|
            #![trigger dnames[j], cat0.tags@[q]]
            0 <= j < dnames.len() && 0 <= q < cat0.tags@.len() && cat0.tags@[q].id == id
                && lower_seq(dnames[j]).len() > 0 && lower_seq(dnames[j]) != norm@ && lower_seq(
                dnames[j],
            ) != cat0.tags@[q].name@ implies has_tag_name(
                catalog.tags@,
                lower_seq(dnames[j]),
            ) by {
            if q != idx {
                assert(cat0.tags@[q].id != cat0.tags@[idx as int].id);
            }
            let n = lower_seq(dnames[j]);
            assert(has_tag_name(catd.tags@, n));
            let w = choose|w: int| 0 <= w < catd.tags@.len() && (#[trigger] catd.tags@[w]).name@
                == n;
            if w == idx {
                assert(catd.tags@[idx as int] == cat0.tags@[idx as int]);
            }
            assert(w != idx);
            assert(catalog.tags@[w] == catd.tags@[w]);
            assert(catalog.tags@[w].name@ == n);
        };
    }
    // diff the outgoing dependency edges
    let ghost cate = *catalog;
    let ghost depset = dep_ids@.to_set();
    let ghost keeppred = |e: TagTag| e.tag != id || depset.contains(e.dep);
    let ghost otherpred = |e: TagTag| e.tag != id;
    let ghost misspred = |d: i64| !cate.edges@.contains(TagTag { tag: id, dep: d });
    let ghost topair = |d: i64| TagTag { tag: id, dep: d };
    let mut kept: Vec<TagTag> = Vec::new();
    let mut j: usize = 0;
    while j < catalog.edges.len()
        invariant
            j <= catalog.edges@.len(),
            *catalog == cate,
            depset == dep_ids@.to_set(),
            keeppred == (|e: TagTag| e.tag != id || depset.contains(e.dep)),
            kept@ == cate.edges@.take(j as int).filter(keeppred),
        decreases catalog.edges@.len() - j,
    {
        proof {
            lemma_take_filter_step(cate.edges@, keeppred, j as int);
        }
        let e = catalog.edges[j];
        if e.tag != id {
            kept.push(e);
        } else {
            if vec_contains_i64(&dep_ids, e.dep) {
                kept.push(e);
            }
        }
        j = j + 1;
    }
    proof {
        assert(cate.edges@.take(cate.edges@.len() as int) =~= cate.edges@);
    }
    let mut add_edges: Vec<TagTag> = Vec::new();
    let mut k: usize = 0;
    while k < dep_ids.len()
        invariant
            k <= dep_ids@.len(),
            *catalog == cate,
            misspred == (|d: i64| !cate.edges@.contains(TagTag { tag: id, dep: d })),
            topair == (|d: i64| TagTag { tag: id, dep: d }),
            add_edges@ == dep_ids@.take(k as int).filter(misspred).map_values(topair),
        decreases dep_ids@.len() - k,
    {
        proof {
            lemma_take_filter_step(dep_ids@, misspred, k as int);
        }
        let mut present = false;
        let mut w: usize = 0;
        let e = TagTag { tag: id, dep: dep_ids[k] };
        while w < catalog.edges.len()
            invariant
                w <= catalog.edges@.len(),
                *catalog == cate,
                present ==> cate.edges@.contains(e),
                !present ==> forall|v: int| 0 <= v < w ==> cate.edges@[v] != e,
            decreases catalog.edges@.len() - w,
        {
            if catalog.edges[w].tag == e.tag && catalog.edges[w].dep == e.dep {
                assert(cate.edges@[w as int] == e);
                present = true;
            }
            w = w + 1;
        }
        if !present {
            add_edges.push(e);
            proof {
                assert(add_edges@ =~= dep_ids@.take(k + 1).filter(misspred).map_values(topair));
            }
        } else {
            proof {
                assert(add_edges@ =~= dep_ids@.take(k + 1).filter(misspred).map_values(topair));
            }
        }
        k = k + 1;
    }
    proof {
        assert(dep_ids@.take(dep_ids@.len() as int) =~= dep_ids@);
    }
    let ghost keptseq = cate.edges@.filter(keeppred);
    let ghost addseq = dep_ids@.filter(misspred).map_values(topair);
    kept.append(&mut add_edges);
    catalog.edges = kept;
    proof {
        broadcast use vstd::seq_lib::group_filter_ensures;

        assert(catalog.edges@ == keptseq + addseq);
        lemma_filter_no_duplicates(cate.edges@, keeppred);
        lemma_filter_no_duplicates(dep_ids@, misspred);
        assert(vstd::relations::injective(topair)) by {
            assert forall|a: i64, b: i64| #[trigger] topair(a) == #[trigger] topair(b) implies a
                == b by {}
        };
        dep_ids@.filter(misspred).lemma_no_duplicates_injective(topair);
        assert forall|p: int, v: int|
            0 <= p < keptseq.len() && 0 <= v < addseq.len() implies keptseq[p] != addseq[v] by {
            cate.edges@.lemma_filter_contains_rev(keeppred, keptseq[p]);
            let m = dep_ids@.filter(misspred);
            assert(addseq[v] == topair(m[v]));
            assert(misspred(m[v]));
        };
        vstd::seq_lib::lemma_no_dup_in_concat(keptseq, addseq);
        // edge invariants: both endpoints exist, no self-loop
        assert forall|w: int|
            0 <= w < catalog.edges@.len() implies ((#[trigger] catalog.edges@[w]).tag
            != catalog.edges@[w].dep && has_tag_id(catalog.tags@, catalog.edges@[w].tag)
            && has_tag_id(catalog.tags@, catalog.edges@[w].dep)) by {
            let e = catalog.edges@[w];
            if w < keptseq.len() {
                cate.edges@.lemma_filter_contains_rev(keeppred, e);
                let v = choose|v: int| 0 <= v < cate.edges@.len() && cate.edges@[v] == e;
                assert(cate.edges@[v].tag != cate.edges@[v].dep);
            } else {
                let m = dep_ids@.filter(misspred);
                assert(e == topair(m[w - keptseq.len()]));
                assert(m.contains(m[w - keptseq.len()]));
                dep_ids@.lemma_filter_contains_rev(misspred, m[w - keptseq.len()]);
                let d = m[w - keptseq.len()];
                assert(dep_ids@.contains(d));
                assert(dep_selected(catalog.tags@, dnames, dnames.len() as int, norm@, id, d));
                assert(d != id);
                let j2 = choose|j2: int|
                    0 <= j2 < dnames.len() && lower_seq(#[trigger] dnames[j2]).len() > 0
                        && lower_seq(dnames[j2]) != norm@ && has_tag_name(
                        catalog.tags@,
                        lower_seq(dnames[j2]),
                    ) && id_of_name(catalog.tags@, lower_seq(dnames[j2])) == d && d != id;
                let n = lower_seq(dnames[j2]);
                let w2 = choose|w2: int|
                    0 <= w2 < catalog.tags@.len() && (#[trigger] catalog.tags@[w2]).name@ == n;
                assert(tag_with_name(catalog.tags@, n) == catalog.tags@[w2]) by {
                    let w3 = choose|k2: int|
                        0 <= k2 < catalog.tags@.len() && (#[trigger] catalog.tags@[k2]).name@ == n;
                    if w3 != w2 {
                        assert(catalog.tags@[w3].name@ != catalog.tags@[w2].name@);
                    }
                };
                assert(catalog.tags@[w2].id == d);
                assert(has_tag_id(catalog.tags@, d));
                assert(has_tag_id(catalog.tags@, id));
            }
        };
        // the outgoing edge set of the tag is exactly the resolved set
        assert forall|d: i64| #[trigger]
            catalog.edges@.contains(TagTag { tag: id, dep: d }) implies depset.contains(d) by {
            let pair = TagTag { tag: id, dep: d };
            let w = choose|w: int| 0 <= w < catalog.edges@.len() && catalog.edges@[w] == pair;
            if w < keptseq.len() {
                assert(keptseq[w] == pair);
                assert(keeppred(pair));
            } else {
                let m = dep_ids@.filter(misspred);
                assert(addseq[w - keptseq.len()] == topair(m[w - keptseq.len()]));
                assert(m.contains(m[w - keptseq.len()]));
                dep_ids@.lemma_filter_contains_rev(misspred, m[w - keptseq.len()]);
            }
        };
        assert forall|d: i64| depset.contains(d) implies #[trigger]
        catalog.edges@.contains(TagTag { tag: id, dep: d }) by {
            let pair = TagTag { tag: id, dep: d };
            if cate.edges@.contains(pair) {
                let w = choose|w: int| 0 <= w < cate.edges@.len() && cate.edges@[w] == pair;
                assert(keeppred(cate.edges@[w]));
                assert(keptseq.contains(pair));
                let v = choose|v: int| 0 <= v < keptseq.len() && keptseq[v] == pair;
                assert(catalog.edges@[v] == pair);
            } else {
                assert(dep_ids@.contains(d));
                let w = choose|w: int| 0 <= w < dep_ids@.len() && dep_ids@[w] == d;
                assert(misspred(dep_ids@[w]));
                assert(dep_ids@.filter(misspred).contains(d));
                let m = dep_ids@.filter(misspred);
                let v = choose|v: int| 0 <= v < m.len() && m[v] == d;
                assert(addseq[v] == pair);
                assert(catalog.edges@[keptseq.len() + v] == pair);
            }
            assert(catalog.edges@.contains(pair));
        };
        // edges of other tags are untouched
        Seq::<TagTag>::filter_distributes_over_add(keptseq, addseq, otherpred);
        lemma_filter_absorb(cate.edges@, keeppred, otherpred);
        assert forall|v: int| 0 <= v < addseq.len() implies !otherpred(#[trigger] addseq[v]) by {
            let m = dep_ids@.filter(misspred);
            assert(addseq[v] == topair(m[v]));
        };
        lemma_filter_none(addseq, otherpred);
        assert(catalog.edges@.filter(otherpred) =~= cate.edges@.filter(otherpred));
        assert(catalog.edges@.filter(|e: TagTag| e.tag != id) == cat0.edges@.filter(
            |e: TagTag| e.tag != id,
        ));
        assert forall|d: i64| #[trigger]
            catalog.edges@.contains(TagTag { tag: id, dep: d }) <==> dep_set(
                catalog.tags@,
                dnames,
                norm@,
                id,
            ).contains(d) by {}
    }
    Ok(skipped)
}

/// For every tag, the number of distinct items linked to it; zero is
/// included for unused tags.
pub struct TagCount {
    pub name: String,
    pub count: u64,
}

/// How many link rows carry this tag. Rows are unique (item, tag) pairs,
/// so this is the number of distinct items linked to the tag.
pub open spec fn usage_count(rows: Seq<ItemTag>, tag: i64) -> nat {
    rows.filter(|row: ItemTag| row.tag == tag).len()
}

/// Counts, for every tag of the catalog in catalog order, the items
/// linked to it.
pub fn count_tags(catalog: &TagCatalog, links: &LinkTable) -> (r: Vec<TagCount>)
    ensures
        r@.len() == catalog.tags@.len(),
        forall|k: int|
            0 <= k < r@.len() ==> (#[trigger] r@[k]).name@ == catalog.tags@[k].name@ && r@[k].count
                == usage_count(links.rows@, catalog.tags@[k].id),
{
    let mut out: Vec<TagCount> = Vec::new();
    let mut i: usize = 0;
    while i < catalog.tags.len()
        invariant
            i <= catalog.tags@.len(),
            out@.len() == i,
            forall|k: int|
                0 <= k < i ==> (#[trigger] out@[k]).name@ == catalog.tags@[k].name@ && out@[k].count
                    == usage_count(links.rows@, catalog.tags@[k].id),
        decreases catalog.tags@.len() - i,
    {
        let tag_id = catalog.tags[i].id;
        let mut c: u64 = 0;
        let mut j: usize = 0;
        while j < links.rows.len()
            invariant
                j <= links.rows@.len(),
                c == links.rows@.take(j as int).filter(|row: ItemTag| row.tag == tag_id).len(),
                c <= j,
            decreases links.rows@.len() - j,
        {
            proof {
                lemma_take_filter_step(links.rows@, |row: ItemTag| row.tag == tag_id, j as int);
            }
            if links.rows[j].tag == tag_id {
                c = c + 1;
            }
            j = j + 1;
        }
        proof {
            assert(links.rows@.take(links.rows@.len() as int) =~= links.rows@);
        }
        out.push(TagCount { name: catalog.tags[i].name.clone(), count: c });
        i = i + 1;
    }
    out
}

} // verus!
