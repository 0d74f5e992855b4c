//! The materialized (item, tag) link table — the only source of truth for
//! "what tags does this item have" — together with the dependency-closure
//! engine that keeps it transitively closed.
use vstd::prelude::*;

use crate::seqs::{lemma_filter_no_duplicates, lemma_take_filter_step};
use crate::tag_tag::TagTag;
use vstd::set_lib::{lemma_len_subset, lemma_len_union};

verus! {

/// One materialized link: `item` carries `tag`.
#[derive(Clone, Copy, Debug, PartialEq, Eq, Structural)]
pub struct ItemTag {
    pub item: i64,
    pub tag: i64,
}

/// The set of tag ids linked to `item` in a sequence of link rows.
pub open spec fn tag_set_of(rows: Seq<ItemTag>, item: i64) -> Set<i64> {
    Set::new(|t: i64| rows.contains(ItemTag { item, tag: t }))
}

/// The link table: a list of unique (item, tag) pairs.
pub struct LinkTable {
    pub rows: Vec<ItemTag>,
}

impl LinkTable {
    /// No (item, tag) pair appears twice.
    pub open spec fn wf(self) -> bool {
        self.rows@.no_duplicates()
    }

    /// An empty link table.
    pub fn new() -> (r: LinkTable)
        ensures
            r.rows@ == Seq::<ItemTag>::empty(),
            r.wf(),
    {
        LinkTable { rows: Vec::new() }
    }

    /// All link rows of one item, in table order.
    pub fn find_by_item(&self, item: i64) -> (r: Vec<ItemTag>)
        ensures
            r@ == self.rows@.filter(|row: ItemTag| row.item == item),
    {
        let mut out: Vec<ItemTag> = Vec::new();
        let mut i: usize = 0;
        while i < self.rows.len()
            invariant
                i <= self.rows@.len(),
                out@ == self.rows@.take(i as int).filter(|row: ItemTag| row.item == item),
            decreases self.rows@.len() - i,
        {
            proof {
                lemma_take_filter_step(self.rows@, |row: ItemTag| row.item == item, i as int);
            }
            if self.rows[i].item == item {
                out.push(self.rows[i]);
            }
            i = i + 1;
        }
        proof {
            assert(self.rows@.take(self.rows@.len() as int) =~= self.rows@);
        }
        out
    }

    /// Removes every link row of one item.
    pub fn delete_by_item(&mut self, item: i64)
        requires
            old(self).wf(),
        ensures
            final(self).rows@ == old(self).rows@.filter(|row: ItemTag| row.item != item),
            final(self).wf(),
    {
        let mut out: Vec<ItemTag> = Vec::new();
        let mut i: usize = 0;
        while i < self.rows.len()
            invariant
                i <= self.rows@.len(),
                self.rows@ == old(self).rows@,
                out@ == self.rows@.take(i as int).filter(|row: ItemTag| row.item != item),
            decreases self.rows@.len() - i,
        {
            proof {
                lemma_take_filter_step(self.rows@, |row: ItemTag| row.item != item, i as int);
            }
            if self.rows[i].item != item {
                out.push(self.rows[i]);
            }
            i = i + 1;
        }
        proof {
            assert(self.rows@.take(self.rows@.len() as int) =~= self.rows@);
            lemma_filter_no_duplicates(old(self).rows@, |row: ItemTag| row.item != item);
        }
        self.rows = out;
    }

    /// Removes every link row that carries one tag.
    pub fn delete_by_tag(&mut self, tag: i64)
        requires
            old(self).wf(),
        ensures
            final(self).rows@ == old(self).rows@.filter(|row: ItemTag| row.tag != tag),
            final(self).wf(),
    {
        let mut out: Vec<ItemTag> = Vec::new();
        let mut i: usize = 0;
        while i < self.rows.len()
            invariant
                i <= self.rows@.len(),
                self.rows@ == old(self).rows@,
                out@ == self.rows@.take(i as int).filter(|row: ItemTag| row.tag != tag),
            decreases self.rows@.len() - i,
        {
            proof {
                lemma_take_filter_step(self.rows@, |row: ItemTag| row.tag != tag, i as int);
            }
            if self.rows[i].tag != tag {
                out.push(self.rows[i]);
            }
            i = i + 1;
        }
        proof {
            assert(self.rows@.take(self.rows@.len() as int) =~= self.rows@);
            lemma_filter_no_duplicates(old(self).rows@, |row: ItemTag| row.tag != tag);
        }
        self.rows = out;
    }
}

/// Linear scan for a link row.
pub fn row_contains(rows: &Vec<ItemTag>, row: ItemTag) -> (r: bool)
    ensures
        r == rows@.contains(row),
{
    let mut i: usize = 0;
    while i < rows.len()
        invariant
            i <= rows@.len(),
            forall|j: int| 0 <= j < i ==> rows@[j] != row,
        decreases rows@.len() - i,
    {
        if rows[i].item == row.item && rows[i].tag == row.tag {
            assert(rows@[i as int] == row);
            return true;
        }
        i = i + 1;
    }
    false
}

/// A tag set is closed when it contains the target of every dependency
/// edge whose source it contains.
pub open spec fn closed_under_deps(edges: Seq<TagTag>, s: Set<i64>) -> bool {
    forall|k: int|
        0 <= k < edges.len() && s.contains((#[trigger] edges[k]).tag) ==> s.contains(edges[k].dep)
}

/// Membership in every closed superset of the roots.
pub open spec fn in_closure(edges: Seq<TagTag>, roots: Set<i64>, x: i64) -> bool {
    forall|s: Set<i64>|
        roots.subset_of(s) && closed_under_deps(edges, s) ==> #[trigger] s.contains(x)
}

/// The smallest tag set that contains the roots and is closed under the
/// dependency edges.
pub open spec fn closure(edges: Seq<TagTag>, roots: Set<i64>) -> Set<i64> {
    Set::new(|x: i64| in_closure(edges, roots, x))
}

/// Every root belongs to the closure.
pub proof fn lemma_closure_contains_roots(edges: Seq<TagTag>, roots: Set<i64>)
    ensures
        roots.subset_of(closure(edges, roots)),
{
    assert forall|x: i64| roots.contains(x) implies closure(edges, roots).contains(x) by {
        assert forall|s: Set<i64>|
            roots.subset_of(s) && closed_under_deps(edges, s) implies #[trigger] s.contains(x) by {
            assert(s.contains(x));
        };
    };
}

/// The closure is itself closed: linking a tag carries all its
/// dependencies along.
pub proof fn lemma_closure_is_closed(edges: Seq<TagTag>, roots: Set<i64>)
    ensures
        closed_under_deps(edges, closure(edges, roots)),
{
    let c = closure(edges, roots);
    assert forall|k: int|
        0 <= k < edges.len() && c.contains((#[trigger] edges[k]).tag) implies c.contains(
        edges[k].dep,
    ) by {
        let t = edges[k].tag;
        let d = edges[k].dep;
        assert forall|s: Set<i64>|
            roots.subset_of(s) && closed_under_deps(edges, s) implies #[trigger] s.contains(d) by {
            assert(in_closure(edges, roots, t));
            assert(s.contains(t));
        };
    };
}

/// The closure is the least such set: it lies inside every closed
/// superset of the roots.
pub proof fn lemma_closure_minimal(edges: Seq<TagTag>, roots: Set<i64>, s: Set<i64>)
    requires
        roots.subset_of(s),
        closed_under_deps(edges, s),
    ensures
        closure(edges, roots).subset_of(s),
{
    assert forall|x: i64| closure(edges, roots).contains(x) implies s.contains(x) by {
        assert(in_closure(edges, roots, x));
    };
}

/// Closing an already-closed set changes nothing: requesting the same
/// assignment twice settles on the same link set.
pub proof fn lemma_closure_idempotent(edges: Seq<TagTag>, roots: Set<i64>)
    ensures
        closure(edges, closure(edges, roots)) == closure(edges, roots),
{
    let c = closure(edges, roots);
    lemma_closure_contains_roots(edges, c);
    lemma_closure_is_closed(edges, roots);
    lemma_closure_minimal(edges, c, c);
    assert(closure(edges, c) =~= c);
}

/// Linear scan for a tag id.
pub fn vec_contains_i64(v: &Vec<i64>, x: i64) -> (r: bool)
    ensures
        r == v@.contains(x),
{
    let mut i: usize = 0;
    while i < v.len()
        invariant
            i <= v@.len(),
            forall|j: int| 0 <= j < i ==> v@[j] != x,
        decreases v@.len() - i,
    {
        if v[i] == x {
            assert(v@[i as int] == x);
            return true;
        }
        i = i + 1;
    }
    false
}

/// The targets of all dependency edges.
pub open spec fn dep_targets(edges: Seq<TagTag>) -> Set<i64> {
    edges.map_values(|e: TagTag| e.dep).to_set()
}

/// A duplicate-free worklist drawn from the roots and the edge targets
/// cannot outgrow them; this bounds the fixed-point iteration.
proof fn lemma_worklist_bound(s: Seq<i64>, roots: Seq<i64>, edges: Seq<TagTag>)
    requires
        s.no_duplicates(),
        forall|x: i64| s.contains(x) ==> roots.contains(x) || dep_targets(edges).contains(x),
    ensures
        s.len() <= roots.len() + edges.len(),
{
    broadcast use vstd::seq_lib::group_seq_properties;

    s.unique_seq_to_set();
    let targets = dep_targets(edges);
    let u = roots.to_set().union(targets);
    assert forall|x: i64| s.to_set().contains(x) implies u.contains(x) by {
        assert(s.contains(x));
    };
    assert(s.to_set().subset_of(u));
    roots.lemma_cardinality_of_set();
    let m = edges.map_values(|e: TagTag| e.dep);
    m.lemma_cardinality_of_set();
    lemma_len_union(roots.to_set(), targets);
    lemma_len_subset(s.to_set(), u);
}

/// Fixed-point expansion of a root set under the dependency edges.
///
/// The loop terminates purely on "no new tag added", never on a depth
/// bound, which is what makes it safe on cyclic dependency graphs.
pub fn close_tag_set(edges: &Vec<TagTag>, roots: &Vec<i64>) -> (r: Vec<i64>)
    ensures
        r@.no_duplicates(),
        r@.to_set() == closure(edges@, roots@.to_set()),
{
    let ghost rootset = roots@.to_set();
    let mut s: Vec<i64> = Vec::new();
    let mut i: usize = 0;
    while i < roots.len()
        invariant
            i <= roots@.len(),
            s@.no_duplicates(),
            forall|j: int| 0 <= j < i ==> s@.contains(roots@[j]),
            forall|x: i64| s@.contains(x) ==> roots@.contains(x),
        decreases roots@.len() - i,
    {
        if !vec_contains_i64(&s, roots[i]) {
            let ghost prev = s@;
            s.push(roots[i]);
            proof {
                assert forall|x: i64| prev.contains(x) implies s@.contains(x) by {
                    let j = choose|j: int| 0 <= j < prev.len() && prev[j] == x;
                    assert(s@[j] == x);
                };
                assert(s@[s@.len() - 1] == roots@[i as int]);
            }
        }
        i = i + 1;
    }
    proof {
        assert forall|x: i64| rootset.contains(x) implies s@.to_set().contains(x) by {
            let j = choose|j: int| 0 <= j < roots@.len() && roots@[j] == x;
            assert(s@.contains(roots@[j]));
        };
        lemma_closure_contains_roots(edges@, rootset);
        lemma_worklist_bound(s@, roots@, edges@);
    }

    let mut done = false;
    while !done
        invariant
            s@.no_duplicates(),
            rootset == roots@.to_set(),
            rootset.subset_of(s@.to_set()),
            forall|x: i64| s@.contains(x) ==> closure(edges@, rootset).contains(x),
            forall|x: i64| s@.contains(x) ==> roots@.contains(x) || dep_targets(edges@).contains(x),
            s@.len() <= roots@.len() + edges@.len(),
            done ==> closed_under_deps(edges@, s@.to_set()),
        decreases
                roots@.len() + edges@.len() - s@.len(),
                (if done {
                    0int
                } else {
                    1int
                }),
    {
        let mut found: Option<usize> = None;
        let mut k: usize = 0;
        while k < edges.len() && found.is_none()
            invariant
                k <= edges@.len(),
                match found {
                    Some(f) => f < edges@.len() && s@.contains(edges@[f as int].tag)
                        && !s@.contains(edges@[f as int].dep),
                    None => forall|j: int|
                        0 <= j < k ==> !(s@.contains((#[trigger] edges@[j]).tag) && !s@.contains(
                            edges@[j].dep,
                        )),
                },
            decreases edges@.len() - k,
        {
            if vec_contains_i64(&s, edges[k].tag) && !vec_contains_i64(&s, edges[k].dep) {
                found = Some(k);
            }
            k = k + 1;
        }
        match found {
            Some(f) => {
                let d = edges[f].dep;
                let ghost prev = s@;
                proof {
                    lemma_closure_is_closed(edges@, rootset);
                    assert(closure(edges@, rootset).contains(edges@[f as int].tag));
                    assert(closure(edges@, rootset).contains(d));
                    let m = edges@.map_values(|e: TagTag| e.dep);
                    assert(m[f as int] == d);
                    assert(m.contains(d));
                }
                s.push(d);
                proof {
                    assert forall|x: i64| prev.contains(x) implies s@.contains(x) by {
                        let j = choose|j: int| 0 <= j < prev.len() && prev[j] == x;
                        assert(s@[j] == x);
                    };
                    assert(s@[s@.len() - 1] == d);
                    assert forall|x: i64| s@.contains(x) implies prev.contains(x) || x == d by {
                        let j = choose|j: int| 0 <= j < s@.len() && s@[j] == x;
                        if j < prev.len() {
                            assert(prev[j] == x);
                        }
                    };
                    assert forall|x: i64| s@.contains(x) implies closure(
                        edges@,
                        rootset,
                    ).contains(x) by {
                        if !prev.contains(x) {
                            assert(x == d);
                        }
                    };
                    assert forall|x: i64| rootset.contains(x) implies s@.to_set().contains(x) by {
                        assert(prev.to_set().contains(x));
                    };
                    lemma_worklist_bound(s@, roots@, edges@);
                }
            },
            None => {
                done = true;
                proof {
                    assert(k == edges@.len());
                    assert forall|j: int|
                        0 <= j < edges@.len() && s@.to_set().contains(
                            (#[trigger] edges@[j]).tag,
                        ) implies s@.to_set().contains(edges@[j].dep) by {
                        assert(s@.contains(edges@[j].tag));
                    };
                }
            },
        }
    }
    proof {
        lemma_closure_minimal(edges@, rootset, s@.to_set());
        assert forall|x: i64| closure(edges@, rootset).contains(x) implies s@.to_set().contains(
            x,
        ) by {};
        assert(s@.to_set() =~= closure(edges@, rootset));
    }
    s
}

} // verus!
