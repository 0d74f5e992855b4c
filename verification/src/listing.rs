//! The listing query composer: ordered, paginated views over the item
//! store, with "series" folders listing their children by name.
use vstd::prelude::*;

use crate::StoreError;
use crate::item::{distinct_item_ids, has_item_id, item_with_id, FileType, Item, ItemStore};
use crate::item_tag::{ItemTag, LinkTable};
use crate::seqs::lemma_take_filter_step;
use crate::tag::{count_tags, usage_count, Tag, TagCatalog, TagCount};
use crate::text::{lemma_lex_antisym, lemma_lex_total, lemma_lex_trans, lex_leq, str_eq,
    str_lex_leq};
use vstd::relations::sorted_by;

verus! {

/// Name order on items: plain string order on the name, ties broken by
/// id so that rows with distinct ids are strictly ordered.
pub open spec fn leq_name(a: Item, b: Item) -> bool {
    if a.name@ == b.name@ {
        a.id <= b.id
    } else {
        lex_leq(a.name@, b.name@)
    }
}

/// Recency order on items: newest first, ties broken by id.
pub open spec fn leq_recent(a: Item, b: Item) -> bool {
    if a.created_at == b.created_at {
        a.id <= b.id
    } else {
        a.created_at > b.created_at
    }
}

/// The order a listing uses: by name for series folders, newest first
/// otherwise.
pub open spec fn item_leq(by_name: bool, a: Item, b: Item) -> bool {
    if by_name {
        leq_name(a, b)
    } else {
        leq_recent(a, b)
    }
}

/// Name order on tags, ties broken by id.
pub open spec fn tag_leq(a: Tag, b: Tag) -> bool {
    if a.name@ == b.name@ {
        a.id <= b.id
    } else {
        lex_leq(a.name@, b.name@)
    }
}

/// Any two items are comparable in either order.
pub proof fn lemma_item_leq_total(by_name: bool, a: Item, b: Item)
    ensures
        item_leq(by_name, a, b) || item_leq(by_name, b, a),
{
    if by_name && a.name@ != b.name@ {
        lemma_lex_total(a.name@, b.name@);
    }
}

/// Both orders are transitive.
pub proof fn lemma_item_leq_trans(by_name: bool, a: Item, b: Item, c: Item)
    requires
        item_leq(by_name, a, b),
        item_leq(by_name, b, c),
    ensures
        item_leq(by_name, a, c),
{
    if by_name {
        if a.name@ != b.name@ && b.name@ != c.name@ && a.name@ != c.name@ {
            lemma_lex_trans(a.name@, b.name@, c.name@);
        } else if a.name@ != b.name@ && b.name@ != c.name@ && a.name@ == c.name@ {
            lemma_lex_antisym(a.name@, b.name@);
        }
    }
}

/// Items below each other in either order share their id.
pub proof fn lemma_item_leq_ids(by_name: bool, a: Item, b: Item)
    requires
        item_leq(by_name, a, b),
        item_leq(by_name, b, a),
    ensures
        a.id == b.id,
{
    if by_name && a.name@ != b.name@ {
        lemma_lex_antisym(a.name@, b.name@);
    }
}

/// Any two tags are comparable by name.
pub proof fn lemma_tag_leq_total(a: Tag, b: Tag)
    ensures
        tag_leq(a, b) || tag_leq(b, a),
{
    if a.name@ != b.name@ {
        lemma_lex_total(a.name@, b.name@);
    }
}

/// The tag name order is transitive.
pub proof fn lemma_tag_leq_trans(a: Tag, b: Tag, c: Tag)
    requires
        tag_leq(a, b),
        tag_leq(b, c),
    ensures
        tag_leq(a, c),
{
    if a.name@ != b.name@ && b.name@ != c.name@ && a.name@ != c.name@ {
        lemma_lex_trans(a.name@, b.name@, c.name@);
    } else if a.name@ != b.name@ && b.name@ != c.name@ && a.name@ == c.name@ {
        lemma_lex_antisym(a.name@, b.name@);
    }
}

/// Tags below each other share name and id.
pub proof fn lemma_tag_leq_ids(a: Tag, b: Tag)
    requires
        tag_leq(a, b),
        tag_leq(b, a),
    ensures
        a.name@ == b.name@,
        a.id == b.id,
{
    if a.name@ != b.name@ {
        lemma_lex_antisym(a.name@, b.name@);
    }
}

/// Two sequences sorted by the same order and holding the same elements
/// are equal, provided the order never puts two distinct elements of
/// the sequence below each other.
pub proof fn lemma_sorted_unique_on<A>(x: Seq<A>, y: Seq<A>, leq: spec_fn(A, A) -> bool)
    requires
        sorted_by(x, leq),
        sorted_by(y, leq),
        x.to_multiset() == y.to_multiset(),
        vstd::relations::transitive(leq),
        vstd::relations::strongly_connected(leq),
        forall|a: A, b: A|
            x.to_multiset().contains(a) && x.to_multiset().contains(b) && #[trigger] leq(a, b)
                && #[trigger] leq(b, a) ==> a == b,
    ensures
        x =~= y,
    decreases x.len(), y.len(),
{
    broadcast use vstd::multiset::group_multiset_axioms;
    broadcast use vstd::seq_lib::group_to_multiset_ensures;

    if x.len() == 0 || y.len() == 0 {
        assert(x.to_multiset().len() == x.len());
        assert(y.to_multiset().len() == y.len());
        assert(x =~= y);
    } else {
        assert(x.to_multiset().contains(x[0]));
        assert(y.to_multiset().contains(y[0]));
        assert(x.to_multiset().contains(y[0]));
        let i = choose|i: int| #![trigger x.spec_index(i)] 0 <= i < x.len() && x[i] == y[0];
        assert(leq(x[0], x[i])) by {
            if i > 0 {
                assert(sorted_by(x, leq));
            }
        }
        let j = choose|j: int| #![trigger y.spec_index(j)] 0 <= j < y.len() && y[j] == x[0];
        assert(y.to_multiset().contains(x[0]));
        assert(leq(y[0], y[j])) by {
            if j > 0 {
                assert(sorted_by(y, leq));
            }
        }
        assert(leq(x[0], y[0]));
        assert(leq(y[0], x[0]));
        assert(x[0] == y[0]);
        assert(x.drop_first() =~= x.remove(0));
        assert(x.remove(0).to_multiset() =~= x.to_multiset().remove(x[0]));
        assert(y.drop_first() =~= y.remove(0));
        assert(y.remove(0).to_multiset() =~= y.to_multiset().remove(y[0]));
        assert(sorted_by(x.drop_first(), leq)) by {
            assert forall|p: int, q: int| 0 <= p < q < x.drop_first().len() implies leq(
                x.drop_first()[p],
                x.drop_first()[q],
            ) by {
                assert(x.drop_first()[p] == x[p + 1] && x.drop_first()[q] == x[q + 1]);
            };
        }
        assert(sorted_by(y.drop_first(), leq)) by {
            assert forall|p: int, q: int| 0 <= p < q < y.drop_first().len() implies leq(
                y.drop_first()[p],
                y.drop_first()[q],
            ) by {
                assert(y.drop_first()[p] == y[p + 1] && y.drop_first()[q] == y[q + 1]);
            };
        }
        assert forall|a: A, b: A|
            x.drop_first().to_multiset().contains(a) && x.drop_first().to_multiset().contains(b)
                && #[trigger] leq(a, b) && #[trigger] leq(b, a) implies a == b by {
            assert(x.to_multiset().contains(a));
            assert(x.to_multiset().contains(b));
        };
        lemma_sorted_unique_on(x.drop_first(), y.drop_first(), leq);
        assert(x =~= Seq::<A>::empty().push(x.first()).add(x.drop_first()));
        assert(y =~= Seq::<A>::empty().push(y.first()).add(y.drop_first()));
    }
}

/// Compares two items in the chosen listing order.
fn item_le(by_name: bool, a: &Item, b: &Item) -> (r: bool)
    ensures
        r == item_leq(by_name, *a, *b),
{
    if by_name {
        if str_eq(a.name.as_str(), b.name.as_str()) {
            a.id <= b.id
        } else {
            str_lex_leq(a.name.as_str(), b.name.as_str())
        }
    } else {
        if a.created_at == b.created_at {
            a.id <= b.id
        } else {
            a.created_at > b.created_at
        }
    }
}

/// Sorts items by the chosen listing order (insertion sort).
pub fn sort_items(v: &Vec<Item>, by_name: bool) -> (r: Vec<Item>)
    ensures
        r@.to_multiset() == v@.to_multiset(),
        sorted_by(r@, |a: Item, b: Item| item_leq(by_name, a, b)),
{
    broadcast use vstd::seq_lib::group_to_multiset_ensures;

    let ghost leq = |a: Item, b: Item| item_leq(by_name, a, b);
    let mut out: Vec<Item> = Vec::new();
    let mut i: usize = 0;
    proof {
        assert(v@.take(0).to_multiset() =~= Seq::<Item>::empty().to_multiset());
    }
    while i < v.len()
        invariant
            i <= v@.len(),
            leq == (|a: Item, b: Item| item_leq(by_name, a, b)),
            sorted_by(out@, leq),
            out@.to_multiset() == v@.take(i as int).to_multiset(),
        decreases v@.len() - i,
    {
        let x = v[i].duplicate();
        let mut p: usize = 0;
        while p < out.len() && item_le(by_name, &out[p], &x)
            invariant
                p <= out@.len(),
                leq == (|a: Item, b: Item| item_leq(by_name, a, b)),
                forall|j: int| 0 <= j < p ==> leq(out@[j], x),
            decreases out@.len() - p,
        {
            p = p + 1;
        }
        let ghost prevout = out@;
        out.insert(p, x);
        proof {
            assert(out@ == prevout.insert(p as int, x));
            assert(out@ =~= prevout.subrange(0, p as int) + seq![x] + prevout.subrange(
                p as int,
                prevout.len() as int,
            ));
            vstd::seq_lib::lemma_multiset_commutative(
                prevout.subrange(0, p as int) + seq![x],
                prevout.subrange(p as int, prevout.len() as int),
            );
            vstd::seq_lib::lemma_multiset_commutative(prevout.subrange(0, p as int), seq![x]);
            assert(prevout =~= prevout.subrange(0, p as int) + prevout.subrange(
                p as int,
                prevout.len() as int,
            ));
            vstd::seq_lib::lemma_multiset_commutative(
                prevout.subrange(0, p as int),
                prevout.subrange(p as int, prevout.len() as int),
            );
            crate::seqs::lemma_singleton_multiset(x);
            assert(out@.to_multiset() =~= prevout.to_multiset().insert(x));
            crate::seqs::lemma_take_push_multiset(v@, i as int);
            // the insertion point keeps the output sorted
            assert forall|a: int, b: int| 0 <= a < b < out@.len() implies leq(
                out@[a],
                out@[b],
            ) by {
                if b < p {
                    assert(out@[a] == prevout[a] && out@[b] == prevout[b]);
                } else if a < p && b == p {
                    assert(out@[a] == prevout[a] && out@[b] == x);
                } else if a < p && b > p {
                    assert(out@[a] == prevout[a] && out@[b] == prevout[b - 1]);
                    assert(leq(prevout[a], prevout[b - 1]));
                } else if a == p {
                    assert(out@[a] == x && out@[b] == prevout[b - 1]);
                    assert(p < prevout.len());
                    assert(!leq(prevout[p as int], x));
                    lemma_item_leq_total(by_name, prevout[p as int], x);
                    assert(leq(x, prevout[p as int]));
                    if b - 1 > p {
                        assert(leq(prevout[p as int], prevout[b - 1]));
                        lemma_item_leq_trans(by_name, x, prevout[p as int], prevout[b - 1]);
                    }
                } else {
                    assert(out@[a] == prevout[a - 1] && out@[b] == prevout[b - 1]);
                    assert(leq(prevout[a - 1], prevout[b - 1]));
                }
            };
        }
        i = i + 1;
    }
    proof {
        assert(v@.take(v@.len() as int) =~= v@);
    }
    out
}

/// Sorts tags by name (insertion sort).
pub fn sort_tags(v: &Vec<Tag>) -> (r: Vec<Tag>)
    ensures
        r@.to_multiset() == v@.to_multiset(),
        sorted_by(r@, |a: Tag, b: Tag| tag_leq(a, b)),
{
    broadcast use vstd::seq_lib::group_to_multiset_ensures;

    let ghost leq = |a: Tag, b: Tag| tag_leq(a, b);
    let mut out: Vec<Tag> = Vec::new();
    let mut i: usize = 0;
    proof {
        assert(v@.take(0).to_multiset() =~= Seq::<Tag>::empty().to_multiset());
    }
    while i < v.len()
        invariant
            i <= v@.len(),
            leq == (|a: Tag, b: Tag| tag_leq(a, b)),
            sorted_by(out@, leq),
            out@.to_multiset() == v@.take(i as int).to_multiset(),
        decreases v@.len() - i,
    {
        let x = v[i].duplicate();
        let mut p: usize = 0;
        while p < out.len() && tag_le(&out[p], &x)
            invariant
                p <= out@.len(),
                leq == (|a: Tag, b: Tag| tag_leq(a, b)),
                forall|j: int| 0 <= j < p ==> leq(out@[j], x),
            decreases out@.len() - p,
        {
            p = p + 1;
        }
        let ghost prevout = out@;
        out.insert(p, x);
        proof {
            assert(out@ == prevout.insert(p as int, x));
            assert(out@ =~= prevout.subrange(0, p as int) + seq![x] + prevout.subrange(
                p as int,
                prevout.len() as int,
            ));
            vstd::seq_lib::lemma_multiset_commutative(
                prevout.subrange(0, p as int) + seq![x],
                prevout.subrange(p as int, prevout.len() as int),
            );
            vstd::seq_lib::lemma_multiset_commutative(prevout.subrange(0, p as int), seq![x]);
            assert(prevout =~= prevout.subrange(0, p as int) + prevout.subrange(
                p as int,
                prevout.len() as int,
            ));
            vstd::seq_lib::lemma_multiset_commutative(
                prevout.subrange(0, p as int),
                prevout.subrange(p as int, prevout.len() as int),
            );
            crate::seqs::lemma_singleton_multiset(x);
            assert(out@.to_multiset() =~= prevout.to_multiset().insert(x));
            crate::seqs::lemma_take_push_multiset(v@, i as int);
            assert forall|a: int, b: int| 0 <= a < b < out@.len() implies leq(
                out@[a],
                out@[b],
            ) by {
                if b < p {
                    assert(out@[a] == prevout[a] && out@[b] == prevout[b]);
                } else if a < p && b == p {
                    assert(out@[a] == prevout[a] && out@[b] == x);
                } else if a < p && b > p {
                    assert(out@[a] == prevout[a] && out@[b] == prevout[b - 1]);
                    assert(leq(prevout[a], prevout[b - 1]));
                } else if a == p {
                    assert(out@[a] == x && out@[b] == prevout[b - 1]);
                    assert(p < prevout.len());
                    assert(!leq(prevout[p as int], x));
                    lemma_tag_leq_total(prevout[p as int], x);
                    assert(leq(x, prevout[p as int]));
                    if b - 1 > p {
                        assert(leq(prevout[p as int], prevout[b - 1]));
                        lemma_tag_leq_trans(x, prevout[p as int], prevout[b - 1]);
                    }
                } else {
                    assert(out@[a] == prevout[a - 1] && out@[b] == prevout[b - 1]);
                    assert(leq(prevout[a - 1], prevout[b - 1]));
                }
            };
        }
        i = i + 1;
    }
    proof {
        assert(v@.take(v@.len() as int) =~= v@);
    }
    out
}

/// Compares two tags by name.
fn tag_le(a: &Tag, b: &Tag) -> (r: bool)
    ensures
        r == tag_leq(*a, *b),
{
    if str_eq(a.name.as_str(), b.name.as_str()) {
        a.id <= b.id
    } else {
        str_lex_leq(a.name.as_str(), b.name.as_str())
    }
}

/// The item is linked to a tag named "series": its children are
/// episodic content, listed by name and kept out of the main grid.
pub open spec fn series_tagged(tags: Seq<Tag>, rows: Seq<ItemTag>, item: i64) -> bool {
    exists|t: Tag| #[trigger]
        tags.contains(t) && t.name@ == "series"@ && rows.contains(ItemTag { item, tag: t.id })
}

/// Some catalog tag named "series" carries this id.
pub open spec fn series_tag_id(tags: Seq<Tag>, id: i64) -> bool {
    exists|t: Tag| #[trigger] tags.contains(t) && t.name@ == "series"@ && t.id == id
}

/// Whether an item is linked to the "series" tag.
pub fn is_series_item(catalog: &TagCatalog, links: &LinkTable, item: i64) -> (r: bool)
    requires
        catalog.wf(),
    ensures
        r == series_tagged(catalog.tags@, links.rows@, item),
{
    let mut i: usize = 0;
    while i < links.rows.len()
        invariant
            i <= links.rows@.len(),
            catalog.wf(),
            forall|j: int|
                0 <= j < i && (#[trigger] links.rows@[j]).item == item ==> !series_tag_id(
                    catalog.tags@,
                    links.rows@[j].tag,
                ),
        decreases links.rows@.len() - i,
    {
        if links.rows[i].item == item {
            match catalog.find_by_id(links.rows[i].tag) {
                Ok(t) => {
                    if str_eq(t.name.as_str(), "series") {
                        proof {
                            assert(links.rows@[i as int] == (ItemTag { item, tag: t.id }));
                            assert(links.rows@.contains(ItemTag { item, tag: t.id }));
                        }
                        return true;
                    }
                    proof {
                        assert forall|t2: Tag|
                            catalog.tags@.contains(t2) && t2.name@ == "series"@ implies t2.id
                            != links.rows@[i as int].tag by {
                            if t2.id == links.rows@[i as int].tag {
                                let k1 = choose|k: int|
                                    0 <= k < catalog.tags@.len() && catalog.tags@[k] == t2;
                                let k2 = choose|k: int|
                                    0 <= k < catalog.tags@.len() && catalog.tags@[k] == t;
                                if k1 != k2 {
                                    assert(catalog.tags@[k1].id != catalog.tags@[k2].id);
                                }
                            }
                        };
                    }
                },
                Err(_) => {
                    proof {
                        assert forall|t2: Tag|
                            catalog.tags@.contains(t2) && t2.name@ == "series"@ implies t2.id
                            != links.rows@[i as int].tag by {
                            if t2.id == links.rows@[i as int].tag {
                                let k1 = choose|k: int|
                                    0 <= k < catalog.tags@.len() && catalog.tags@[k] == t2;
                                assert(crate::tag::has_tag_id(catalog.tags@, t2.id));
                            }
                        };
                    }
                },
            }
        }
        i = i + 1;
    }
    proof {
        if series_tagged(catalog.tags@, links.rows@, item) {
            let t = choose|t: Tag| #[trigger]
                catalog.tags@.contains(t) && t.name@ == "series"@ && links.rows@.contains(
                    ItemTag { item, tag: t.id },
                );
            let j = choose|j: int|
                0 <= j < links.rows@.len() && links.rows@[j] == (ItemTag { item, tag: t.id });
            assert(links.rows@[j].item == item);
            assert(series_tag_id(catalog.tags@, links.rows@[j].tag));
            assert(false);
        }
    }
    false
}

/// The sorted arrangement of a batch of items: the one sequence with
/// the same contents that is sorted in the chosen order. With distinct
/// ids the order is strict on the batch, so this is well defined.
pub open spec fn arranged_items(base: Seq<Item>, by_name: bool) -> Seq<Item> {
    choose|s: Seq<Item>|
        sorted_by(s, |a: Item, b: Item| item_leq(by_name, a, b)) && s.to_multiset()
            == base.to_multiset()
}

/// The sorted arrangement of a batch of tags, by name.
pub open spec fn arranged_tags(base: Seq<Tag>) -> Seq<Tag> {
    choose|s: Seq<Tag>|
        sorted_by(s, |a: Tag, b: Tag| tag_leq(a, b)) && s.to_multiset() == base.to_multiset()
}

/// The exec sort result is the one canonical sorted sequence of its
/// contents, as long as the rows carry distinct ids.
pub proof fn lemma_canonical_items(sorted: Seq<Item>, base: Seq<Item>, by_name: bool)
    requires
        sorted_by(sorted, |a: Item, b: Item| item_leq(by_name, a, b)),
        sorted.to_multiset() == base.to_multiset(),
        distinct_item_ids(base),
    ensures
        sorted == arranged_items(base, by_name),
{
    broadcast use vstd::seq_lib::group_to_multiset_ensures;

    let leq = |a: Item, b: Item| item_leq(by_name, a, b);
    assert(sorted_by(sorted, leq) && sorted.to_multiset() == base.to_multiset());
    let picked = arranged_items(base, by_name);
    assert(sorted_by(picked, leq) && picked.to_multiset() == base.to_multiset());
    assert(vstd::relations::transitive(leq)) by {
        assert forall|a: Item, b: Item, c: Item| #[trigger]
            leq(a, b) && #[trigger] leq(b, c) implies leq(a, c) by {
            lemma_item_leq_trans(by_name, a, b, c);
        };
    }
    assert(vstd::relations::strongly_connected(leq)) by {
        assert forall|a: Item, b: Item| true implies #[trigger] leq(a, b) || #[trigger] leq(
            b,
            a,
        ) by {
            lemma_item_leq_total(by_name, a, b);
        };
    }
    assert forall|a: Item, b: Item|
        sorted.to_multiset().contains(a) && sorted.to_multiset().contains(b) && #[trigger] leq(
            a,
            b,
        ) && #[trigger] leq(b, a) implies a == b by {
        lemma_item_leq_ids(by_name, a, b);
        assert(base.contains(a));
        assert(base.contains(b));
        let ka = choose|k: int| 0 <= k < base.len() && base[k] == a;
        let kb = choose|k: int| 0 <= k < base.len() && base[k] == b;
        if ka != kb {
            assert(base[ka].id != base[kb].id);
        }
    };
    lemma_sorted_unique_on(sorted, picked, leq);
}

/// The exec tag sort result is the one canonical sorted sequence of
/// its contents, as long as the tags carry distinct ids.
pub proof fn lemma_canonical_tags(sorted: Seq<Tag>, base: Seq<Tag>)
    requires
        sorted_by(sorted, |a: Tag, b: Tag| tag_leq(a, b)),
        sorted.to_multiset() == base.to_multiset(),
        crate::tag::distinct_ids(base),
    ensures
        sorted == arranged_tags(base),
{
    broadcast use vstd::seq_lib::group_to_multiset_ensures;

    let leq = |a: Tag, b: Tag| tag_leq(a, b);
    assert(sorted_by(sorted, leq) && sorted.to_multiset() == base.to_multiset());
    let picked = arranged_tags(base);
    assert(sorted_by(picked, leq) && picked.to_multiset() == base.to_multiset());
    assert(vstd::relations::transitive(leq)) by {
        assert forall|a: Tag, b: Tag, c: Tag| #[trigger] leq(a, b) && #[trigger] leq(b, c) implies leq(
            a,
            c,
        ) by {
            lemma_tag_leq_trans(a, b, c);
        };
    }
    assert(vstd::relations::strongly_connected(leq)) by {
        assert forall|a: Tag, b: Tag| true implies #[trigger] leq(a, b) || #[trigger] leq(b, a) by {
            lemma_tag_leq_total(a, b);
        };
    }
    assert forall|a: Tag, b: Tag|
        sorted.to_multiset().contains(a) && sorted.to_multiset().contains(b) && #[trigger] leq(
            a,
            b,
        ) && #[trigger] leq(b, a) implies a == b by {
        lemma_tag_leq_ids(a, b);
        assert(base.contains(a));
        assert(base.contains(b));
        let ka = choose|k: int| 0 <= k < base.len() && base[k] == a;
        let kb = choose|k: int| 0 <= k < base.len() && base[k] == b;
        if ka != kb {
            assert(base[ka].id != base[kb].id);
        }
    };
    lemma_sorted_unique_on(sorted, picked, leq);
}

/// Ids stay distinct on any filtered selection of rows.
proof fn lemma_item_filter_ids(items: Seq<Item>, pred: spec_fn(Item) -> bool)
    requires
        distinct_item_ids(items),
    ensures
        distinct_item_ids(items.filter(pred)),
{
    broadcast use vstd::seq_lib::group_filter_ensures;

    let f = items.filter(pred);
    assert forall|i: int, j: int| 0 <= i < j < items.len() implies items[i] != items[j] by {
        assert(items[i].id != items[j].id);
    };
    crate::seqs::lemma_filter_no_duplicates(items, pred);
    assert forall|i: int, j: int| 0 <= i < j < f.len() implies (#[trigger] f[i]).id != (
    #[trigger] f[j]).id by {
        assert(f[i] != f[j]);
        items.lemma_filter_contains_rev(pred, f[i]);
        items.lemma_filter_contains_rev(pred, f[j]);
        let ki = choose|k: int| 0 <= k < items.len() && items[k] == f[i];
        let kj = choose|k: int| 0 <= k < items.len() && items[k] == f[j];
        if ki < kj {
            assert(items[ki].id != items[kj].id);
        } else {
            assert(items[kj].id != items[ki].id);
        }
    };
}

/// Ids stay distinct on any filtered selection of tags.
proof fn lemma_tag_filter_ids(tags: Seq<Tag>, pred: spec_fn(Tag) -> bool)
    requires
        crate::tag::distinct_ids(tags),
    ensures
        crate::tag::distinct_ids(tags.filter(pred)),
{
    broadcast use vstd::seq_lib::group_filter_ensures;

    let f = tags.filter(pred);
    assert forall|i: int, j: int| 0 <= i < j < tags.len() implies tags[i] != tags[j] by {
        assert(tags[i].id != tags[j].id);
    };
    crate::seqs::lemma_filter_no_duplicates(tags, pred);
    assert forall|i: int, j: int| 0 <= i < j < f.len() implies (#[trigger] f[i]).id != (
    #[trigger] f[j]).id by {
        assert(f[i] != f[j]);
        tags.lemma_filter_contains_rev(pred, f[i]);
        tags.lemma_filter_contains_rev(pred, f[j]);
        let ki = choose|k: int| 0 <= k < tags.len() && tags[k] == f[i];
        let kj = choose|k: int| 0 <= k < tags.len() && tags[k] == f[j];
        if ki < kj {
            assert(tags[ki].id != tags[kj].id);
        } else {
            assert(tags[kj].id != tags[ki].id);
        }
    };
}

/// One page of an item's children plus their total count. A folder
/// linked to the "series" tag lists its children in plain string order
/// on the name; any other folder lists newest first.
pub fn find_by_parent(
    store: &ItemStore,
    catalog: &TagCatalog,
    links: &LinkTable,
    parent: i64,
    limit: usize,
    offset: usize,
) -> (r: (Vec<Item>, usize))
    requires
        store.wf(),
        catalog.wf(),
    ensures
        ({
            let children = store.items@.filter(|it: Item| it.parent == Some(parent));
            let by_name = series_tagged(catalog.tags@, links.rows@, parent);
            let full = arranged_items(children, by_name);
            &&& r.1 == children.len()
            &&& r.0@ == full.subrange(
                vstd::math::min(offset as int, full.len() as int),
                vstd::math::min(offset as int + limit as int, full.len() as int),
            )
        }),
{
    broadcast use vstd::seq_lib::group_to_multiset_ensures;

    let by_name = is_series_item(catalog, links, parent);
    let ghost pred = |it: Item| it.parent == Some(parent);
    let mut kids: Vec<Item> = Vec::new();
    let mut i: usize = 0;
    while i < store.items.len()
        invariant
            i <= store.items@.len(),
            pred == (|it: Item| it.parent == Some(parent)),
            kids@ == store.items@.take(i as int).filter(pred),
        decreases store.items@.len() - i,
    {
        proof {
            lemma_take_filter_step(store.items@, pred, i as int);
        }
        let keep = match store.items[i].parent {
            Some(p) => p == parent,
            None => false,
        };
        if keep {
            kids.push(store.items[i].duplicate());
        }
        i = i + 1;
    }
    proof {
        assert(store.items@.take(store.items@.len() as int) =~= store.items@);
    }
    let count = kids.len();
    let sorted = sort_items(&kids, by_name);
    proof {
        lemma_item_filter_ids(store.items@, pred);
        lemma_canonical_items(sorted@, kids@, by_name);
        assert(sorted@.to_multiset().len() == sorted@.len());
        assert(kids@.to_multiset().len() == kids@.len());
    }
    let page = page_slice(&sorted, offset, limit);
    (page, count)
}

/// Every requested name resolves to a tag that the item carries:
/// intersection semantics for tag search.
pub open spec fn matches_all_tags(
    tags: Seq<Tag>,
    rows: Seq<ItemTag>,
    names: Seq<Seq<char>>,
    it: Item,
) -> bool {
    forall|j: int|
        0 <= j < names.len() ==> crate::tag::has_tag_name(
            tags,
            crate::text::lower_seq(#[trigger] names[j]),
        ) && rows.contains(
            ItemTag {
                item: it.id,
                tag: crate::tag::id_of_name(tags, crate::text::lower_seq(names[j])),
            },
        )
}

/// One page of the items linked to every one of the requested tag
/// names (case-folded), newest first, plus their total count. An item
/// must match all names; an unknown name matches nothing.
pub fn find_by_tag(
    store: &ItemStore,
    catalog: &TagCatalog,
    links: &LinkTable,
    names: &Vec<String>,
    limit: usize,
    offset: usize,
) -> (r: (Vec<Item>, usize))
    requires
        store.wf(),
        catalog.wf(),
        links.wf(),
    ensures
        ({
            let selected = store.items@.filter(
                |it: Item| matches_all_tags(catalog.tags@, links.rows@, names.deep_view(), it),
            );
            let full = arranged_items(selected, false);
            &&& r.1 == selected.len()
            &&& r.0@ == full.subrange(
                vstd::math::min(offset as int, full.len() as int),
                vstd::math::min(offset as int + limit as int, full.len() as int),
            )
        }),
{
    broadcast use vstd::seq_lib::group_to_multiset_ensures;

    let ghost dnames = names.deep_view();
    proof {
        assert(dnames.len() == names@.len());
        assert forall|j: int| 0 <= j < dnames.len() implies #[trigger] dnames[j]
            == names@[j]@ by {};
    }
    let ghost pred = |it: Item| matches_all_tags(catalog.tags@, links.rows@, dnames, it);
    // resolve every requested name; a miss selects nothing
    let mut tids: Vec<i64> = Vec::new();
    let mut i: usize = 0;
    while i < names.len()
        invariant
            i <= dnames.len(),
            dnames == names.deep_view(),
            dnames.len() == names@.len(),
            forall|j: int| 0 <= j < dnames.len() ==> #[trigger] dnames[j] == names@[j]@,
            catalog.wf(),
            store.wf(),
            pred == (|it: Item| matches_all_tags(catalog.tags@, links.rows@, dnames, it)),
            tids@.len() == i,
            forall|j: int|
                0 <= j < i ==> crate::tag::has_tag_name(
                    catalog.tags@,
                    crate::text::lower_seq(#[trigger] dnames[j]),
                ) && tids@[j] == crate::tag::id_of_name(
                    catalog.tags@,
                    crate::text::lower_seq(dnames[j]),
                ),
        decreases dnames.len() - i,
    {
        let norm = crate::text::ascii_lower(names[i].as_str());
        match catalog.find_by_name(norm.as_str()) {
            Ok(t) => {
                proof {
                    crate::tag::lemma_name_pins_tag(catalog.tags@, t);
                }
                tids.push(t.id);
            },
            Err(_) => {
                // the name selects nothing: the whole search is empty
                proof {
                    assert forall|q: int| 0 <= q < store.items@.len() implies !pred(
                        #[trigger] store.items@[q],
                    ) by {
                        assert(!crate::tag::has_tag_name(
                            catalog.tags@,
                            crate::text::lower_seq(dnames[i as int]),
                        ));
                    };
                    crate::seqs::lemma_filter_none(store.items@, pred);
                    let selected = store.items@.filter(pred);
                }
                let empty_page: Vec<Item> = Vec::new();
                proof {
                    broadcast use vstd::seq_lib::group_to_multiset_ensures;

                    let selected = store.items@.filter(pred);
                    lemma_canonical_items(empty_page@, selected, false);
                    let full = arranged_items(selected, false);
                    assert(full.len() == 0);
                    assert(empty_page@ =~= full.subrange(
                        vstd::math::min(offset as int, full.len() as int),
                        vstd::math::min(offset as int + limit as int, full.len() as int),
                    ));
                }
                return (empty_page, 0);
            },
        }
        i = i + 1;
    }
    // select the items linked to every resolved tag
    let mut kids: Vec<Item> = Vec::new();
    let mut q: usize = 0;
    while q < store.items.len()
        invariant
            q <= store.items@.len(),
            links.wf(),
            pred == (|it: Item| matches_all_tags(catalog.tags@, links.rows@, dnames, it)),
            tids@.len() == dnames.len(),
            forall|j: int|
                0 <= j < dnames.len() ==> crate::tag::has_tag_name(
                    catalog.tags@,
                    crate::text::lower_seq(#[trigger] dnames[j]),
                ) && tids@[j] == crate::tag::id_of_name(
                    catalog.tags@,
                    crate::text::lower_seq(dnames[j]),
                ),
            kids@ == store.items@.take(q as int).filter(pred),
        decreases store.items@.len() - q,
    {
        proof {
            lemma_take_filter_step(store.items@, pred, q as int);
        }
        let mut all = true;
        let mut j: usize = 0;
        let item_id = store.items[q].id;
        while j < tids.len() && all
            invariant
                j <= tids@.len(),
                all ==> forall|w: int|
                    0 <= w < j ==> links.rows@.contains(
                        ItemTag { item: item_id, tag: #[trigger] tids@[w] },
                    ),
                !all ==> exists|w: int|
                    0 <= w < tids@.len() && !links.rows@.contains(
                        ItemTag { item: item_id, tag: #[trigger] tids@[w] },
                    ),
            decreases tids@.len() - j + (if all {
                1int
            } else {
                0int
            }),
        {
            if !crate::item_tag::row_contains(
                &links.rows,
                ItemTag { item: item_id, tag: tids[j] },
            ) {
                proof {
                    assert(!links.rows@.contains(ItemTag { item: item_id, tag: tids@[j as int] }));
                }
                all = false;
            }
            j = j + 1;
        }
        proof {
            if all {
                assert(pred(store.items@[q as int])) by {
                    assert forall|w: int|
                        0 <= w < dnames.len() implies crate::tag::has_tag_name(
                        catalog.tags@,
                        crate::text::lower_seq(#[trigger] dnames[w]),
                    ) && links.rows@.contains(
                        ItemTag {
                            item: store.items@[q as int].id,
                            tag: crate::tag::id_of_name(
                                catalog.tags@,
                                crate::text::lower_seq(dnames[w]),
                            ),
                        },
                    ) by {
                        assert(links.rows@.contains(ItemTag { item: item_id, tag: tids@[w] }));
                    };
                }
            } else {
                assert(!pred(store.items@[q as int])) by {
                    let w = choose|w: int|
                        0 <= w < tids@.len() && !links.rows@.contains(
                            ItemTag { item: item_id, tag: #[trigger] tids@[w] },
                        );
                    assert(tids@[w] == crate::tag::id_of_name(
                        catalog.tags@,
                        crate::text::lower_seq(dnames[w]),
                    ));
                };
            }
        }
        if all {
            kids.push(store.items[q].duplicate());
        }
        q = q + 1;
    }
    proof {
        assert(store.items@.take(store.items@.len() as int) =~= store.items@);
    }
    let count = kids.len();
    let sorted = sort_items(&kids, false);
    proof {
        lemma_item_filter_ids(store.items@, pred);
        lemma_canonical_items(sorted@, kids@, false);
        assert(sorted@.to_multiset().len() == sorted@.len());
        assert(kids@.to_multiset().len() == kids@.len());
    }
    let page = page_slice(&sorted, offset, limit);
    (page, count)
}

/// The default grid keeps an item unless its parent folder is linked
/// to the "series" tag.
pub open spec fn outside_series(
    tags: Seq<Tag>,
    rows: Seq<ItemTag>,
    it: Item,
) -> bool {
    match it.parent {
        Some(p) => !series_tagged(tags, rows, p),
        None => true,
    }
}

/// One page of the default listing, newest first: items whose parent
/// is not a series folder (episodic content is browsed through its
/// folder page instead), plus their total count.
pub fn find_not_in_series(
    store: &ItemStore,
    catalog: &TagCatalog,
    links: &LinkTable,
    limit: usize,
    offset: usize,
) -> (r: (Vec<Item>, usize))
    requires
        store.wf(),
        catalog.wf(),
    ensures
        ({
            let selected = store.items@.filter(
                |it: Item| outside_series(catalog.tags@, links.rows@, it),
            );
            let full = arranged_items(selected, false);
            &&& r.1 == selected.len()
            &&& r.0@ == full.subrange(
                vstd::math::min(offset as int, full.len() as int),
                vstd::math::min(offset as int + limit as int, full.len() as int),
            )
        }),
{
    broadcast use vstd::seq_lib::group_to_multiset_ensures;

    let ghost pred = |it: Item| outside_series(catalog.tags@, links.rows@, it);
    let mut kids: Vec<Item> = Vec::new();
    let mut i: usize = 0;
    while i < store.items.len()
        invariant
            i <= store.items@.len(),
            catalog.wf(),
            pred == (|it: Item| outside_series(catalog.tags@, links.rows@, it)),
            kids@ == store.items@.take(i as int).filter(pred),
        decreases store.items@.len() - i,
    {
        proof {
            lemma_take_filter_step(store.items@, pred, i as int);
        }
        let keep = match store.items[i].parent {
            Some(p) => !is_series_item(catalog, links, p),
            None => true,
        };
        if keep {
            kids.push(store.items[i].duplicate());
        }
        i = i + 1;
    }
    proof {
        assert(store.items@.take(store.items@.len() as int) =~= store.items@);
    }
    let count = kids.len();
    let sorted = sort_items(&kids, false);
    proof {
        lemma_item_filter_ids(store.items@, pred);
        lemma_canonical_items(sorted@, kids@, false);
        assert(sorted@.to_multiset().len() == sorted@.len());
        assert(kids@.to_multiset().len() == kids@.len());
    }
    let page = page_slice(&sorted, offset, limit);
    (page, count)
}

/// A tag linked to at least one of the given items.
pub open spec fn linked_to_any(rows: Seq<ItemTag>, ids: Seq<i64>, t: Tag) -> bool {
    exists|j: int| 0 <= j < ids.len() && rows.contains(ItemTag { item: #[trigger] ids[j], tag: t.id })
}

/// The canonical facet list for a set of items: the union of their
/// tags, sorted by name.
pub open spec fn tags_of_items_spec(tags: Seq<Tag>, rows: Seq<ItemTag>, ids: Seq<i64>) -> Seq<Tag> {
    arranged_tags(tags.filter(|t: Tag| linked_to_any(rows, ids, t)))
}

/// The tags linked to any of the given items, sorted by name.
pub fn find_by_items(catalog: &TagCatalog, links: &LinkTable, ids: &Vec<i64>) -> (r: Vec<Tag>)
    requires
        catalog.wf(),
    ensures
        r@ == tags_of_items_spec(catalog.tags@, links.rows@, ids@),
{
    broadcast use vstd::seq_lib::group_to_multiset_ensures;

    let ghost pred = |t: Tag| linked_to_any(links.rows@, ids@, t);
    let mut picked: Vec<Tag> = Vec::new();
    let mut i: usize = 0;
    while i < catalog.tags.len()
        invariant
            i <= catalog.tags@.len(),
            pred == (|t: Tag| linked_to_any(links.rows@, ids@, t)),
            picked@ == catalog.tags@.take(i as int).filter(pred),
        decreases catalog.tags@.len() - i,
    {
        proof {
            lemma_take_filter_step(catalog.tags@, pred, i as int);
        }
        let mut hit = false;
        let mut j: usize = 0;
        let tag_id = catalog.tags[i].id;
        while j < ids.len()
            invariant
                j <= ids@.len(),
                hit ==> exists|w: int|
                    0 <= w < ids@.len() && links.rows@.contains(
                        ItemTag { item: #[trigger] ids@[w], tag: tag_id },
                    ),
                !hit ==> forall|w: int|
                    0 <= w < j ==> !links.rows@.contains(
                        ItemTag { item: #[trigger] ids@[w], tag: tag_id },
                    ),
            decreases ids@.len() - j,
        {
            if crate::item_tag::row_contains(&links.rows, ItemTag { item: ids[j], tag: tag_id }) {
                proof {
                    assert(links.rows@.contains(ItemTag { item: ids@[j as int], tag: tag_id }));
                }
                hit = true;
            }
            j = j + 1;
        }
        proof {
            assert(hit == pred(catalog.tags@[i as int]));
        }
        if hit {
            picked.push(catalog.tags[i].duplicate());
        }
        i = i + 1;
    }
    proof {
        assert(catalog.tags@.take(catalog.tags@.len() as int) =~= catalog.tags@);
    }
    let sorted = sort_tags(&picked);
    proof {
        lemma_tag_filter_ids(catalog.tags@, pred);
        lemma_canonical_tags(sorted@, picked@);
    }
    sorted
}

/// Every catalog tag, sorted by name.
pub fn find_all(catalog: &TagCatalog) -> (r: Vec<Tag>)
    requires
        catalog.wf(),
    ensures
        r@ == arranged_tags(catalog.tags@),
{
    let sorted = sort_tags(&catalog.tags);
    proof {
        lemma_canonical_tags(sorted@, catalog.tags@);
    }
    sorted
}

/// The number of pages a count fills: the smallest number of pages of
/// the given size that holds every item.
pub open spec fn spec_total_pages(count: int, page_size: int) -> int {
    if count % page_size == 0 {
        count / page_size
    } else {
        count / page_size + 1
    }
}

/// Computes the page count, `ceil(count / page_size)`.
pub fn total_pages(count: usize, page_size: usize) -> (r: usize)
    requires
        page_size > 0,
    ensures
        r == spec_total_pages(count as int, page_size as int),
        r * page_size >= count,
        count > 0 ==> (r - 1) * page_size < count,
{
    let full = count / page_size;
    let r = if count % page_size != 0 {
        proof {
            vstd::arithmetic::div_mod::lemma_fundamental_div_mod(count as int, page_size as int);
            assert(full < count) by (nonlinear_arith)
                requires
                    0 < page_size,
                    full == count as int / page_size as int,
                    count % page_size != 0,
                    0 <= count % page_size < page_size,
                    count == page_size * (count as int / page_size as int) + count % page_size,
            ;
        }
        full + 1
    } else {
        full
    };
    proof {
        assert(count == page_size * (count / page_size) + count % page_size) by {
            vstd::arithmetic::div_mod::lemma_fundamental_div_mod(
                count as int,
                page_size as int,
            );
        }
        assert(r * page_size >= count) by (nonlinear_arith)
            requires
                count == page_size * (count as int / page_size as int) + count % page_size,
                0 < page_size,
                0 <= count % page_size < page_size,
                r == (if count % page_size != 0 {
                    count as int / page_size as int + 1
                } else {
                    count as int / page_size as int
                }),
        ;
        assert(count > 0 ==> (r - 1) * page_size < count) by (nonlinear_arith)
            requires
                count == page_size * (count as int / page_size as int) + count % page_size,
                0 < page_size,
                0 <= count % page_size < page_size,
                r == (if count % page_size != 0 {
                    count as int / page_size as int + 1
                } else {
                    count as int / page_size as int
                }),
        ;
    }
    r
}

/// The element offset of a 1-indexed page; page numbers below 1 are
/// treated as the first page.
pub fn page_offset(page: u32, page_size: usize) -> (r: usize)
    requires
        (page as int - 1) * (page_size as int) <= usize::MAX,
    ensures
        page >= 1 ==> r == (page - 1) * page_size,
        page < 1 ==> r == 0,
{
    let p = if page < 1 {
        1
    } else {
        page
    };
    proof {
        assert((p as int - 1) * (page_size as int) >= 0) by (nonlinear_arith)
            requires
                p >= 1,
                page_size >= 0,
        ;
    }
    (p as usize - 1) * page_size
}

/// One page of a sorted sequence: the elements from `offset` on, at
/// most `limit` of them.
pub fn page_slice(v: &Vec<Item>, offset: usize, limit: usize) -> (r: Vec<Item>)
    ensures
        r@ == v@.subrange(
            vstd::math::min(offset as int, v@.len() as int),
            vstd::math::min(offset as int + limit as int, v@.len() as int),
        ),
{
    let mut out: Vec<Item> = Vec::new();
    let start = if offset > v.len() {
        v.len()
    } else {
        offset
    };
    let mut i: usize = start;
    while i < v.len() && i - start < limit
        invariant
            start <= i <= v@.len(),
            start == vstd::math::min(offset as int, v@.len() as int),
            i - start <= limit,
            out@ == v@.subrange(start as int, i as int),
        decreases v@.len() - i,
    {
        let ghost prev = out@;
        out.push(v[i].duplicate());
        proof {
            assert(out@ =~= v@.subrange(start as int, i + 1));
        }
        i = i + 1;
    }
    proof {
        assert(out@ =~= v@.subrange(
            vstd::math::min(offset as int, v@.len() as int),
            vstd::math::min(offset as int + limit as int, v@.len() as int),
        ));
    }
    out
}

/// One listing request, as the presentation layer hands it over.
pub struct QueryInfo {
    pub page: Option<u32>,
    pub id: Option<i64>,
    pub view: Option<String>,
    pub tags: Option<String>,
    pub file_name: Option<String>,
    pub real_file_name: Option<String>,
    pub md5: Option<String>,
    pub raw: Option<u8>,
}

/// One composed listing page, ready for rendering: the page of items,
/// the pagination numbers, the focused item if the request named one,
/// the tags of the shown items, and the global usage counts.
pub struct Listing {
    pub items: Vec<Item>,
    pub count: usize,
    pub page: u32,
    pub total_pages: usize,
    pub single: Option<Item>,
    pub page_tags: Vec<Tag>,
    pub tag_counts: Vec<TagCount>,
}

/// The 1-indexed page a request asks for; anything below 1 is the
/// first page.
pub open spec fn spec_page(q: QueryInfo) -> u32 {
    match q.page {
        Some(p) => if p < 1 {
            1
        } else {
            p
        },
        None => 1,
    }
}

/// The tag names a request searches for: the whitespace-separated
/// words of its tag string.
pub open spec fn spec_query_words(q: QueryInfo) -> Seq<Seq<char>> {
    match q.tags {
        Some(s) => crate::text::words_from(s@, 0),
        None => Seq::empty(),
    }
}

/// The item a request drills into, if it names a positive id.
pub open spec fn id_request(q: QueryInfo) -> Option<i64> {
    match q.id {
        Some(id) => if id > 0 {
            Some(id)
        } else {
            None
        },
        None => None,
    }
}

/// Composes one listing page. A request either drills into one item by
/// id (a folder shows a page of its children; anything else is a
/// single-item view), filters by tag names, or shows the default
/// series-excluded grid; the result always carries the facet tags of
/// the shown items and every tag's usage count.
#[verifier::rlimit(30)]
pub fn compose(
    store: &ItemStore,
    catalog: &TagCatalog,
    links: &LinkTable,
    query: &QueryInfo,
    ipp: usize,
) -> (r: Result<Listing, StoreError>)
    requires
        store.wf(),
        catalog.wf(),
        links.wf(),
        ipp > 0,
        (spec_page(*query) as int) * (ipp as int) <= usize::MAX,
    ensures
        match r {
            Err(e) => {
                &&& e == StoreError::NotFound
                &&& match id_request(*query) {
                    Some(id) => !has_item_id(store.items@, id),
                    None => false,
                }
            },
            Ok(l) => {
                &&& l.page == spec_page(*query)
                &&& l.total_pages == spec_total_pages(l.count as int, ipp as int)
                &&& l.tag_counts@.len() == catalog.tags@.len()
                &&& forall|k: int|
                    0 <= k < l.tag_counts@.len() ==> (#[trigger] l.tag_counts@[k]).name@
                        == catalog.tags@[k].name@ && l.tag_counts@[k].count == usage_count(
                        links.rows@,
                        catalog.tags@[k].id,
                    )
                &&& match id_request(*query) {
                    Some(id) => {
                        &&& has_item_id(store.items@, id)
                        &&& l.single == Some(item_with_id(store.items@, id))
                        &&& l.page_tags@ == tags_of_items_spec(
                            catalog.tags@,
                            links.rows@,
                            seq![id],
                        )
                        &&& if item_with_id(store.items@, id).file_type == FileType::Folder {
                            let children = store.items@.filter(
                                |it: Item| it.parent == Some(id),
                            );
                            let by_name = series_tagged(catalog.tags@, links.rows@, id);
                            let full = arranged_items(children, by_name);
                            &&& l.count == children.len()
                            &&& l.items@ == full.subrange(
                                vstd::math::min(
                                    (spec_page(*query) - 1) * ipp as int,
                                    full.len() as int,
                                ),
                                vstd::math::min(
                                    (spec_page(*query) - 1) * ipp as int + ipp as int,
                                    full.len() as int,
                                ),
                            )
                        } else {
                            &&& l.items@.len() == 0
                            &&& l.count == 0
                        }
                    },
                    None => {
                        let words = spec_query_words(*query);
                        let selected = if words.len() > 0 {
                            store.items@.filter(
                                |it: Item| matches_all_tags(
                                    catalog.tags@,
                                    links.rows@,
                                    words,
                                    it,
                                ),
                            )
                        } else {
                            store.items@.filter(
                                |it: Item| outside_series(catalog.tags@, links.rows@, it),
                            )
                        };
                        let full = arranged_items(selected, false);
                        &&& l.single is None
                        &&& l.count == selected.len()
                        &&& l.items@ == full.subrange(
                            vstd::math::min(
                                (spec_page(*query) - 1) * ipp as int,
                                full.len() as int,
                            ),
                            vstd::math::min(
                                (spec_page(*query) - 1) * ipp as int + ipp as int,
                                full.len() as int,
                            ),
                        )
                        &&& l.page_tags@ == tags_of_items_spec(
                            catalog.tags@,
                            links.rows@,
                            l.items@.map_values(|it: Item| it.id),
                        )
                    },
                }
            },
        },
{
    let page = match query.page {
        Some(p) => if p < 1 {
            1
        } else {
            p
        },
        None => 1u32,
    };
    proof {
        assert((page as int - 1) * (ipp as int) <= (page as int) * (ipp as int))
            by (nonlinear_arith)
            requires
                page >= 1,
                ipp >= 1,
        ;
    }
    let offset = page_offset(page, ipp);
    let tag_counts = count_tags(catalog, links);

    let id_req: Option<i64> = match query.id {
        Some(id) => if id > 0 {
            Some(id)
        } else {
            None
        },
        None => None,
    };
    match id_req {
        Some(id) => {
            let it = match store.find_by_id(id) {
                Ok(it) => it,
                Err(_) => {
                    return Err(StoreError::NotFound);
                },
            };
            proof {
                crate::item::lemma_item_pins(store.items@, it);
            }
            let mut one_id: Vec<i64> = Vec::new();
            one_id.push(id);
            proof {
                assert(one_id@ =~= seq![id]);
            }
            let page_tags = find_by_items(catalog, links, &one_id);
            if matches!(it.file_type, FileType::Folder) {
                let (items, count) = find_by_parent(store, catalog, links, id, ipp, offset);
                let tp = total_pages(count, ipp);
                Ok(
                    Listing {
                        items,
                        count,
                        page,
                        total_pages: tp,
                        single: Some(it),
                        page_tags,
                        tag_counts,
                    },
                )
            } else {
                let tp = total_pages(0, ipp);
                Ok(
                    Listing {
                        items: Vec::new(),
                        count: 0,
                        page,
                        total_pages: tp,
                        single: Some(it),
                        page_tags,
                        tag_counts,
                    },
                )
            }
        },
        None => {
            let words: Vec<String> = match &query.tags {
                Some(s) => crate::text::split_words(s.as_str()),
                None => Vec::new(),
            };
            proof {
                assert(words.deep_view() == spec_query_words(*query)) by {
                    match query.tags {
                        Some(_) => {},
                        None => {
                            assert(words.deep_view() =~= Seq::<Seq<char>>::empty());
                        },
                    }
                }
            }
            let (items, count) = if words.len() > 0 {
                find_by_tag(store, catalog, links, &words, ipp, offset)
            } else {
                find_not_in_series(store, catalog, links, ipp, offset)
            };
            let mut shown_ids: Vec<i64> = Vec::new();
            let mut k: usize = 0;
            while k < items.len()
                invariant
                    k <= items@.len(),
                    shown_ids@ == items@.take(k as int).map_values(|it: Item| it.id),
                decreases items@.len() - k,
            {
                shown_ids.push(items[k].id);
                proof {
                    assert(shown_ids@ =~= items@.take(k + 1).map_values(|it: Item| it.id));
                }
                k = k + 1;
            }
            proof {
                assert(items@.take(items@.len() as int) =~= items@);
            }
            let page_tags = find_by_items(catalog, links, &shown_ids);
            let tp = total_pages(count, ipp);
            Ok(
                Listing {
                    items,
                    count,
                    page,
                    total_pages: tp,
                    single: None,
                    page_tags,
                    tag_counts,
                },
            )
        },
    }
}

} // verus!
