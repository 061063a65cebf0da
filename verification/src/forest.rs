//! Forests as mathematical values: that the forest of given tags is one and
//! only one, how it grows when a tag joins the tags, and what follows for its
//! counts.

use crate::path::{join_path, lemma_join_split, lemma_split_join_prefix, split_path};
use crate::text::{
    lemma_lex_lt_asymmetric, lemma_lex_lt_irreflexive, lemma_lex_lt_total,
    lemma_lex_lt_transitive, lex_lt,
};
use crate::tree::{
    covers, forest_total, has_name, is_forest_of, is_node_of, live_tags, names_ascend,
    node_total, on_some_path, runs_through, NodeView,
};
use vstd::multiset::Multiset;
use vstd::prelude::*;

verus! {

/// A tag whose path begins with the segments `p`, joined, has exactly the
/// path `p`.
pub proof fn lemma_path_of_joined(tags: Multiset<Seq<char>>, p: Seq<Seq<char>>)
    requires
        on_some_path(tags, p),
        p.len() >= 1,
    ensures
        split_path(join_path(p)) == p,
{
    let t = choose|t: Seq<char>| tags.count(t) > 0 && #[trigger] runs_through(t, p);
    lemma_split_join_prefix(t, p);
}

/// A forest below segments that the path of `t` does not pass through stays
/// the forest when `t` joins the tags.
pub proof fn lemma_forest_off_path(
    forest: Seq<NodeView>,
    prefix: Seq<Seq<char>>,
    tags: Multiset<Seq<char>>,
    t: Seq<char>,
)
    requires
        is_forest_of(forest, prefix, tags),
        !(prefix.is_prefix_of(split_path(t)) && prefix.len() < split_path(t).len()),
    ensures
        is_forest_of(forest, prefix, tags.insert(t)),
    decreases forest,
{
    let more = tags.insert(t);
    assert forall|name: Seq<char>| #[trigger]
        on_some_path(more, prefix.push(name)) implies has_name(forest, name) by {
        let p = prefix.push(name);
        let w = choose|w: Seq<char>| more.count(w) > 0 && #[trigger] runs_through(w, p);
        if w == t {
            assert(prefix =~= p.take(prefix.len() as int));
            assert(prefix.is_prefix_of(split_path(t)));
        } else {
            assert(tags.count(w) > 0);
            assert(runs_through(w, p));
            assert(on_some_path(tags, p));
        }
    }
    assert forall|i: int| 0 <= i < forest.len() implies is_node_of(
        #[trigger] forest[i],
        prefix,
        more,
    ) by {
        lemma_node_off_path(forest[i], prefix, tags, t);
    }
}

/// A node whose path the path of `t` does not begin with stays a node of the
/// forest when `t` joins the tags.
pub proof fn lemma_node_off_path(
    node: NodeView,
    prefix: Seq<Seq<char>>,
    tags: Multiset<Seq<char>>,
    t: Seq<char>,
)
    requires
        is_node_of(node, prefix, tags),
        !prefix.push(node.name).is_prefix_of(split_path(t)),
    ensures
        is_node_of(node, prefix, tags.insert(t)),
    decreases node,
{
    let more = tags.insert(t);
    let p = prefix.push(node.name);
    let w = choose|w: Seq<char>| tags.count(w) > 0 && #[trigger] runs_through(w, p);
    assert(more.count(w) > 0 && runs_through(w, p));
    if node.full_path == t {
        lemma_path_of_joined(tags, p);
        assert(p.is_prefix_of(split_path(t)));
    }
    lemma_forest_off_path(node.children, p, tags, t);
}

/// Where no node has the name `name`, no tag runs through the path that ends
/// with it, and nothing stands below that path.
pub proof fn lemma_nothing_below(
    forest: Seq<NodeView>,
    prefix: Seq<Seq<char>>,
    tags: Multiset<Seq<char>>,
    name: Seq<char>,
)
    requires
        covers(forest, prefix, tags),
        !has_name(forest, name),
    ensures
        !on_some_path(tags, prefix.push(name)),
        is_forest_of(Seq::<NodeView>::empty(), prefix.push(name), tags),
{
    let p = prefix.push(name);
    assert forall|below: Seq<char>| #[trigger] on_some_path(tags, p.push(below)) implies has_name(
        Seq::<NodeView>::empty(),
        below,
    ) by {
        let w = choose|w: Seq<char>| tags.count(w) > 0 && #[trigger] runs_through(w, p.push(below));
        assert(p =~= p.push(below).take(p.len() as int));
        assert(runs_through(w, p));
        assert(on_some_path(tags, prefix.push(name)));
    }
}

/// A name that belongs between two neighbours, after every name before `pos`
/// and before the name at `pos`, is the name of no node.
pub proof fn lemma_name_is_absent(forest: Seq<NodeView>, pos: int, name: Seq<char>)
    requires
        names_ascend(forest),
        0 <= pos <= forest.len(),
        forall|i: int| 0 <= i < pos ==> lex_lt((#[trigger] forest[i]).name, name),
        pos == forest.len() || lex_lt(name, forest[pos].name),
    ensures
        !has_name(forest, name),
{
    assert forall|i: int| 0 <= i < forest.len() implies (#[trigger] forest[i]).name != name by {
        if forest[i].name == name {
            lemma_lex_lt_irreflexive(name);
            if i > pos {
                assert(lex_lt(forest[pos].name, forest[i].name));
                lemma_lex_lt_transitive(name, forest[pos].name, forest[i].name);
            }
        }
    }
}

/// The node `node` stands in `after` where `forest` had the node of its name
/// at `pos`, or is put in at `pos`, its place in the order, where `forest` had
/// none of that name.
pub open spec fn is_put_at(
    forest: Seq<NodeView>,
    after: Seq<NodeView>,
    pos: int,
    found: bool,
    node: NodeView,
) -> bool {
    &&& 0 <= pos <= forest.len()
    &&& forall|i: int| 0 <= i < pos ==> lex_lt((#[trigger] forest[i]).name, node.name)
    &&& found ==> pos < forest.len() && forest[pos].name == node.name
    &&& !found ==> pos == forest.len() || lex_lt(node.name, forest[pos].name)
    &&& after == (if found {
        forest.update(pos, node)
    } else {
        forest.insert(pos, node)
    })
}

/// The index in `forest` of the node that stands at `k` in `after`, for a
/// node other than the one that was put.
pub open spec fn index_before(pos: int, found: bool, k: int) -> int {
    if found || k < pos {
        k
    } else {
        k - 1
    }
}

/// Every node of `after` but the one that was put is a node of `forest`, and
/// has another name than the one that was put.
pub proof fn lemma_put_others(
    forest: Seq<NodeView>,
    after: Seq<NodeView>,
    pos: int,
    found: bool,
    node: NodeView,
)
    requires
        names_ascend(forest),
        is_put_at(forest, after, pos, found, node),
    ensures
        after.len() == (if found {
            forest.len()
        } else {
            forest.len() + 1
        }),
        after[pos] == node,
        forall|k: int|
            0 <= k < after.len() && k != pos ==> 0 <= index_before(pos, found, k) < forest.len()
                && #[trigger] after[k] == forest[index_before(pos, found, k)] && after[k].name
                != node.name,
        !found ==> !has_name(forest, node.name),
{
    assert forall|i: int| 0 <= i < forest.len() && !(found && i == pos) implies (
    #[trigger] forest[i]).name != node.name by {
        if forest[i].name == node.name {
            lemma_lex_lt_irreflexive(node.name);
            if i < pos {
            } else if found {
                assert(lex_lt(forest[pos].name, forest[i].name));
            } else if i > pos {
                assert(lex_lt(forest[pos].name, forest[i].name));
                lemma_lex_lt_transitive(node.name, forest[pos].name, forest[i].name);
            }
        }
    }
    assert forall|k: int| 0 <= k < after.len() && k != pos implies 0 <= index_before(
        pos,
        found,
        k,
    ) < forest.len() && #[trigger] after[k] == forest[index_before(pos, found, k)] && after[k].name
        != node.name by {
        let i = index_before(pos, found, k);
        assert(after[k] == forest[i]);
        assert(forest[i].name != node.name);
    }
}

/// The names still ascend when a node is put at its place.
pub proof fn lemma_put_ascends(
    forest: Seq<NodeView>,
    after: Seq<NodeView>,
    pos: int,
    found: bool,
    node: NodeView,
)
    requires
        names_ascend(forest),
        is_put_at(forest, after, pos, found, node),
    ensures
        names_ascend(after),
{
    assert forall|i: int, j: int| 0 <= i < j < after.len() implies lex_lt(
        (#[trigger] after[i]).name,
        (#[trigger] after[j]).name,
    ) by {
        if found {
            assert(after[i].name == forest[i].name);
            assert(after[j].name == forest[j].name);
        } else if j < pos {
            assert(after[i] == forest[i] && after[j] == forest[j]);
        } else if j == pos {
            assert(after[i] == forest[i]);
        } else if i < pos {
            assert(after[i] == forest[i] && after[j] == forest[j - 1]);
            if j - 1 > pos {
                assert(lex_lt(forest[pos].name, forest[j - 1].name));
                lemma_lex_lt_transitive(node.name, forest[pos].name, forest[j - 1].name);
            }
            lemma_lex_lt_transitive(forest[i].name, node.name, forest[j - 1].name);
        } else if i == pos {
            assert(after[j] == forest[j - 1]);
            if j - 1 > pos {
                assert(lex_lt(forest[pos].name, forest[j - 1].name));
                lemma_lex_lt_transitive(node.name, forest[pos].name, forest[j - 1].name);
            }
        } else {
            assert(after[i] == forest[i - 1] && after[j] == forest[j - 1]);
        }
    }
}

/// Every segment that some tag asks for has its node, when the node for the
/// segment of `t` is put.
pub proof fn lemma_put_covers(
    forest: Seq<NodeView>,
    after: Seq<NodeView>,
    prefix: Seq<Seq<char>>,
    tags: Multiset<Seq<char>>,
    t: Seq<char>,
    pos: int,
    found: bool,
    node: NodeView,
)
    requires
        names_ascend(forest),
        covers(forest, prefix, tags),
        prefix.len() < split_path(t).len(),
        node.name == split_path(t)[prefix.len() as int],
        is_put_at(forest, after, pos, found, node),
    ensures
        covers(after, prefix, tags.insert(t)),
{
    let more = tags.insert(t);
    let d = prefix.len() as int;
    lemma_put_others(forest, after, pos, found, node);
    assert forall|name: Seq<char>| #[trigger]
        on_some_path(more, prefix.push(name)) implies has_name(after, name) by {
        let q = prefix.push(name);
        let w = choose|w: Seq<char>| more.count(w) > 0 && #[trigger] runs_through(w, q);
        if w == t {
            assert(q[d] == split_path(t)[d]);
            assert(after[pos].name == name);
        } else {
            assert(tags.count(w) > 0 && runs_through(w, q));
            assert(on_some_path(tags, q));
            let i = choose|i: int| 0 <= i < forest.len() && (#[trigger] forest[i]).name == name;
            if found || i < pos {
                assert(after[i].name == name);
            } else {
                assert(after[i + 1] == forest[i]);
            }
        }
    }
}

/// The node that is put for the segment of `t` is a node of the forest of the
/// tags with `t`.
pub proof fn lemma_put_node(
    forest: Seq<NodeView>,
    prefix: Seq<Seq<char>>,
    tags: Multiset<Seq<char>>,
    t: Seq<char>,
    pos: int,
    found: bool,
    node: NodeView,
)
    requires
        covers(forest, prefix, tags),
        prefix.is_prefix_of(split_path(t)),
        prefix.len() < split_path(t).len(),
        node.name == split_path(t)[prefix.len() as int],
        node.full_path == join_path(prefix.push(node.name)),
        found ==> 0 <= pos < forest.len() && forest[pos].name == node.name && is_node_of(
            forest[pos],
            prefix,
            tags,
        ),
        !found ==> !has_name(forest, node.name),
        node.direct_count == (if found {
            forest[pos].direct_count
        } else {
            0
        }) + (if prefix.len() + 1 == split_path(t).len() {
            1nat
        } else {
            0nat
        }),
        is_forest_of(node.children, prefix.push(node.name), tags.insert(t)),
    ensures
        is_node_of(node, prefix, tags.insert(t)),
{
    let path = split_path(t);
    let d = prefix.len() as int;
    let p = prefix.push(node.name);
    assert(p =~= path.take(d + 1));
    assert(runs_through(t, p));
    if path.len() == d + 1 {
        assert(p =~= path);
        lemma_join_split(t);
    } else if join_path(p) == t {
        lemma_split_join_prefix(t, p);
    }
    if !found {
        lemma_nothing_below(forest, prefix, tags, node.name);
        if tags.count(join_path(p)) > 0 {
            lemma_split_join_prefix(t, p);
            assert(runs_through(join_path(p), p));
        }
    }
}

/// One step of recording the path of `t`: the node for the segment that
/// follows `prefix` is put in place of the one with that name, or put in at
/// its place in the order where there was none.
pub proof fn lemma_record_step(
    forest: Seq<NodeView>,
    after: Seq<NodeView>,
    prefix: Seq<Seq<char>>,
    tags: Multiset<Seq<char>>,
    t: Seq<char>,
    pos: int,
    found: bool,
    node: NodeView,
)
    requires
        is_forest_of(forest, prefix, tags),
        prefix.is_prefix_of(split_path(t)),
        prefix.len() < split_path(t).len(),
        is_put_at(forest, after, pos, found, node),
        node.name == split_path(t)[prefix.len() as int],
        node.full_path == join_path(prefix.push(node.name)),
        node.direct_count == (if found {
            forest[pos].direct_count
        } else {
            0
        }) + (if prefix.len() + 1 == split_path(t).len() {
            1nat
        } else {
            0nat
        }),
        is_forest_of(node.children, prefix.push(node.name), tags.insert(t)),
    ensures
        is_forest_of(after, prefix, tags.insert(t)),
{
    let more = tags.insert(t);
    let d = prefix.len() as int;
    lemma_put_others(forest, after, pos, found, node);
    lemma_put_ascends(forest, after, pos, found, node);
    lemma_put_covers(forest, after, prefix, tags, t, pos, found, node);
    if found {
        assert(is_node_of(forest[pos], prefix, tags));
    }
    lemma_put_node(forest, prefix, tags, t, pos, found, node);
    assert forall|k: int| 0 <= k < after.len() implies is_node_of(
        #[trigger] after[k],
        prefix,
        more,
    ) by {
        if k != pos {
            let i = index_before(pos, found, k);
            assert(after[k] == forest[i]);
            assert(is_node_of(forest[i], prefix, tags));
            let q = prefix.push(forest[i].name);
            if q.is_prefix_of(split_path(t)) {
                assert(q[d] == split_path(t)[d]);
            }
            lemma_node_off_path(forest[i], prefix, tags, t);
        }
    }
}

/// Putting a node into a forest adds the node's total to the forest's.
pub proof fn lemma_total_insert(forest: Seq<NodeView>, i: int, node: NodeView)
    requires
        0 <= i <= forest.len(),
    ensures
        forest_total(forest.insert(i, node)) == forest_total(forest) + node_total(node),
    decreases forest.len(),
{
    let after = forest.insert(i, node);
    if i == forest.len() {
        assert(after.drop_last() =~= forest);
    } else {
        assert(after.drop_last() =~= forest.drop_last().insert(i, node));
        assert(after.last() == forest.last());
        lemma_total_insert(forest.drop_last(), i, node);
    }
}

/// Putting a node in place of another changes the forest's total by the
/// difference of the two.
pub proof fn lemma_total_update(forest: Seq<NodeView>, i: int, node: NodeView)
    requires
        0 <= i < forest.len(),
    ensures
        forest_total(forest.update(i, node)) + node_total(forest[i]) == forest_total(forest)
            + node_total(node),
    decreases forest.len(),
{
    let after = forest.update(i, node);
    if i == forest.len() - 1 {
        assert(after.drop_last() =~= forest.drop_last());
    } else {
        assert(after.drop_last() =~= forest.drop_last().update(i, node));
        assert(after.last() == forest.last());
        lemma_total_update(forest.drop_last(), i, node);
    }
}

/// The tags that count among the first `k + 1` are those among the first `k`,
/// and the tag at `k` where it is not the empty text.
pub proof fn lemma_live_tags_step(tags: Seq<Seq<char>>, k: int)
    requires
        0 <= k < tags.len(),
    ensures
        tags[k].len() > 0 ==> live_tags(tags.take(k + 1)) == live_tags(tags.take(k)).insert(tags[k]),
        tags[k].len() == 0 ==> live_tags(tags.take(k + 1)) == live_tags(tags.take(k)),
{
    broadcast use vstd::seq_lib::group_to_multiset_ensures;

    let live = |t: Seq<char>| t.len() > 0;
    assert(tags.take(k + 1) =~= tags.take(k).push(tags[k]));
    let before = tags.take(k).to_multiset();
    let after = tags.take(k + 1).to_multiset();
    assert(after =~= before.insert(tags[k]));
    assert forall|t: Seq<char>| #[trigger]
        after.filter(live).count(t) == (if tags[k].len() > 0 {
            before.filter(live).insert(tags[k])
        } else {
            before.filter(live)
        }).count(t) by {
        vstd::multiset::axiom_filter_count(after, live, t);
        vstd::multiset::axiom_filter_count(before, live, t);
    }
    if tags[k].len() > 0 {
        assert(after.filter(live) =~= before.filter(live).insert(tags[k]));
    } else {
        assert(after.filter(live) =~= before.filter(live));
    }
}

/// Of no tags none counts.
pub proof fn lemma_no_live_tags()
    ensures
        live_tags(Seq::<Seq<char>>::empty()) == Multiset::<Seq<char>>::empty(),
{
    broadcast use vstd::seq_lib::group_to_multiset_ensures;

    let live = |t: Seq<char>| t.len() > 0;
    let none = Seq::<Seq<char>>::empty().to_multiset();
    assert forall|t: Seq<char>| #[trigger] none.filter(live).count(t) == 0 by {
        vstd::multiset::axiom_filter_count(none, live, t);
        assert(!Seq::<Seq<char>>::empty().contains(t));
    }
    assert(none.filter(live) =~= Multiset::<Seq<char>>::empty());
}

/// Where no tag is the empty text, every tag counts.
pub proof fn lemma_all_live(tags: Seq<Seq<char>>)
    requires
        forall|i: int| 0 <= i < tags.len() ==> (#[trigger] tags[i]).len() > 0,
    ensures
        live_tags(tags) == tags.to_multiset(),
        live_tags(tags).len() == tags.len(),
{
    broadcast use vstd::seq_lib::group_to_multiset_ensures;

    let live = |t: Seq<char>| t.len() > 0;
    assert forall|t: Seq<char>| #[trigger]
        tags.to_multiset().filter(live).count(t) == tags.to_multiset().count(t) by {
        vstd::multiset::axiom_filter_count(tags.to_multiset(), live, t);
        if tags.to_multiset().count(t) > 0 {
            assert(tags.contains(t));
        }
    }
    assert(tags.to_multiset().filter(live) =~= tags.to_multiset());
}

/// Two forests of the same tags below the same segments are the same forest.
pub proof fn lemma_forest_is_unique(
    a: Seq<NodeView>,
    b: Seq<NodeView>,
    prefix: Seq<Seq<char>>,
    tags: Multiset<Seq<char>>,
)
    requires
        is_forest_of(a, prefix, tags),
        is_forest_of(b, prefix, tags),
    ensures
        a == b,
    decreases a,
{
    lemma_same_names(a, b, prefix, tags, a.len() as int);
    lemma_same_names(b, a, prefix, tags, b.len() as int);
    assert forall|i: int| 0 <= i < a.len() implies a[i] == b[i] by {
        lemma_same_names(a, b, prefix, tags, i + 1);
        assert(is_node_of(a[i], prefix, tags));
        assert(is_node_of(b[i], prefix, tags));
        lemma_forest_is_unique(a[i].children, b[i].children, prefix.push(a[i].name), tags);
    }
    assert(a =~= b);
}

/// Of two forests of the same tags, the second has at least the first `k`
/// nodes of the first, each with the name the first gives it.
pub proof fn lemma_same_names(
    a: Seq<NodeView>,
    b: Seq<NodeView>,
    prefix: Seq<Seq<char>>,
    tags: Multiset<Seq<char>>,
    k: int,
)
    requires
        is_forest_of(a, prefix, tags),
        is_forest_of(b, prefix, tags),
        0 <= k <= a.len(),
    ensures
        k <= b.len(),
        forall|i: int| 0 <= i < k ==> (#[trigger] a[i]).name == b[i].name,
    decreases k,
{
    if k > 0 {
        lemma_same_names(a, b, prefix, tags, k - 1);
        let i = k - 1;
        // The node of `a` at `i` has its like in `b`, at `j`.
        assert(is_node_of(a[i], prefix, tags));
        assert(has_name(b, a[i].name));
        let j = choose|j: int| 0 <= j < b.len() && (#[trigger] b[j]).name == a[i].name;
        if j < i {
            assert(a[j].name == b[j].name);
            assert(lex_lt(a[j].name, a[i].name));
            lemma_lex_lt_irreflexive(a[i].name);
        } else if j > i {
            // Then the node of `b` at `i` has its like in `a`, after `i`.
            assert(is_node_of(b[i], prefix, tags));
            assert(has_name(a, b[i].name));
            let m = choose|m: int| 0 <= m < a.len() && (#[trigger] a[m]).name == b[i].name;
            assert(lex_lt(b[i].name, b[j].name));
            if m < i {
                assert(a[m].name == b[m].name);
                assert(lex_lt(b[m].name, b[i].name));
                lemma_lex_lt_irreflexive(b[i].name);
            } else if m == i {
                lemma_lex_lt_irreflexive(a[i].name);
            } else {
                assert(lex_lt(a[i].name, a[m].name));
                lemma_lex_lt_asymmetric(a[i].name, a[m].name);
            }
        }
    }
}

/// The forest does not depend on the order of the tags: of two sequences with
/// the same tags, each as often in one as in the other, the forests are the
/// same.
pub proof fn law_order_of_tags_is_immaterial(
    first: Seq<Seq<char>>,
    second: Seq<Seq<char>>,
    a: Seq<NodeView>,
    b: Seq<NodeView>,
)
    requires
        first.to_multiset() == second.to_multiset(),
        is_forest_of(a, Seq::<Seq<char>>::empty(), live_tags(first)),
        is_forest_of(b, Seq::<Seq<char>>::empty(), live_tags(second)),
    ensures
        a == b,
{
    lemma_forest_is_unique(a, b, Seq::<Seq<char>>::empty(), live_tags(first));
}

/// The place of `name` among the nodes of `forest`, whose names ascend: the
/// index of the first node whose name does not come before `name`, or the
/// number of nodes where every name comes before it.
pub open spec fn place(forest: Seq<NodeView>, name: Seq<char>) -> int
    decreases forest.len(),
{
    if forest.len() == 0 {
        0
    } else if lex_lt(forest.last().name, name) {
        forest.len() as int
    } else {
        place(forest.drop_last(), name)
    }
}

/// Before its place every name comes before `name`; at its place stands
/// `name` itself or a name that comes after it.
pub proof fn lemma_place(forest: Seq<NodeView>, name: Seq<char>)
    requires
        names_ascend(forest),
    ensures
        0 <= place(forest, name) <= forest.len(),
        forall|i: int|
            0 <= i < place(forest, name) ==> lex_lt((#[trigger] forest[i]).name, name),
        place(forest, name) < forest.len() ==> forest[place(forest, name)].name == name || lex_lt(
            name,
            forest[place(forest, name)].name,
        ),
    decreases forest.len(),
{
    if forest.len() > 0 {
        let rest = forest.drop_last();
        assert(names_ascend(rest)) by {
            assert forall|i: int, j: int| 0 <= i < j < rest.len() implies lex_lt(
                (#[trigger] rest[i]).name,
                (#[trigger] rest[j]).name,
            ) by {
                assert(rest[i] == forest[i] && rest[j] == forest[j]);
            }
        }
        lemma_place(rest, name);
        if lex_lt(forest.last().name, name) {
            assert forall|i: int| 0 <= i < forest.len() implies lex_lt(
                (#[trigger] forest[i]).name,
                name,
            ) by {
                if i < forest.len() - 1 {
                    assert(lex_lt(forest[i].name, forest[forest.len() - 1].name));
                    lemma_lex_lt_transitive(forest[i].name, forest.last().name, name);
                }
            }
        } else {
            let p = place(rest, name);
            assert forall|i: int| 0 <= i < p implies lex_lt((#[trigger] forest[i]).name, name) by {
                assert(rest[i] == forest[i]);
            }
            if p < rest.len() {
                assert(rest[p] == forest[p]);
            } else {
                lemma_lex_lt_total(forest.last().name, name);
            }
        }
    }
}

/// The node that stands for the segment `name` once the path `path` is
/// recorded below `prefix`: the node of that name in `forest`, or a new one,
/// with one more in its count where the path ends with it, and else with the
/// rest of the path recorded below it.
pub open spec fn grown_node(
    forest: Seq<NodeView>,
    prefix: Seq<Seq<char>>,
    path: Seq<Seq<char>>,
) -> NodeView
    decreases path.len() - prefix.len(), 0int,
{
    let name = path[prefix.len() as int];
    let pos = place(forest, name);
    let found = pos < forest.len() && forest[pos].name == name;
    let below = prefix.push(name);
    let children = if found {
        forest[pos].children
    } else {
        Seq::empty()
    };
    let count = if found {
        forest[pos].direct_count
    } else {
        0
    };
    if prefix.len() + 1 >= path.len() {
        NodeView { name, full_path: join_path(below), direct_count: count + 1, children }
    } else {
        NodeView {
            name,
            full_path: join_path(below),
            direct_count: count,
            children: grown(children, below, path),
        }
    }
}

/// The forest `forest` below `prefix` once the path `path`, which begins
/// with `prefix`, is recorded in it.
pub open spec fn grown(
    forest: Seq<NodeView>,
    prefix: Seq<Seq<char>>,
    path: Seq<Seq<char>>,
) -> Seq<NodeView>
    decreases path.len() - prefix.len(), 1int,
{
    if prefix.len() >= path.len() {
        forest
    } else {
        let name = path[prefix.len() as int];
        let pos = place(forest, name);
        if pos < forest.len() && forest[pos].name == name {
            forest.update(pos, grown_node(forest, prefix, path))
        } else {
            forest.insert(pos, grown_node(forest, prefix, path))
        }
    }
}

/// When the tag `t` joins the tags, the forest below a run of first segments
/// of its path grows by that path: the grown forest is the forest of the tags
/// with `t`, and its counts add up to one more.
pub proof fn lemma_grown(
    forest: Seq<NodeView>,
    prefix: Seq<Seq<char>>,
    tags: Multiset<Seq<char>>,
    t: Seq<char>,
)
    requires
        is_forest_of(forest, prefix, tags),
        prefix.is_prefix_of(split_path(t)),
        prefix.len() < split_path(t).len(),
    ensures
        is_forest_of(grown(forest, prefix, split_path(t)), prefix, tags.insert(t)),
        forest_total(grown(forest, prefix, split_path(t))) == forest_total(forest) + 1,
    decreases split_path(t).len() - prefix.len(),
{
    let path = split_path(t);
    let d = prefix.len() as int;
    let name = path[d];
    let pos = place(forest, name);
    let found = pos < forest.len() && forest[pos].name == name;
    let below = prefix.push(name);
    let last = d + 1 == path.len();
    let node = grown_node(forest, prefix, path);
    let after = grown(forest, prefix, path);
    lemma_place(forest, name);
    assert(below =~= path.take(d + 1));
    assert(is_put_at(forest, after, pos, found, node));
    if found {
        assert(is_node_of(forest[pos], prefix, tags));
        if last {
            lemma_forest_off_path(forest[pos].children, below, tags, t);
        } else {
            lemma_grown(forest[pos].children, below, tags, t);
        }
        lemma_total_update(forest, pos, node);
    } else {
        lemma_name_is_absent(forest, pos, name);
        lemma_nothing_below(forest, prefix, tags, name);
        if last {
            lemma_forest_off_path(Seq::<NodeView>::empty(), below, tags, t);
        } else {
            lemma_grown(Seq::<NodeView>::empty(), below, tags, t);
        }
        assert(forest_total(Seq::<NodeView>::empty()) == 0);
        lemma_total_insert(forest, pos, node);
    }
    lemma_record_step(forest, after, prefix, tags, t, pos, found, node);
}

/// The forest of the tags `tags`, grown one tag after the other.
pub open spec fn forest_of(tags: Seq<Seq<char>>) -> Seq<NodeView>
    decreases tags.len(),
{
    if tags.len() == 0 {
        Seq::empty()
    } else if tags.last().len() == 0 {
        forest_of(tags.drop_last())
    } else {
        grown(forest_of(tags.drop_last()), Seq::empty(), split_path(tags.last()))
    }
}

/// Every sequence of tags has its forest, and the counts of that forest add
/// up to the number of tags that are not the empty text.
pub proof fn lemma_forest_of(tags: Seq<Seq<char>>)
    ensures
        is_forest_of(forest_of(tags), Seq::<Seq<char>>::empty(), live_tags(tags)),
        forest_total(forest_of(tags)) == live_tags(tags).len(),
    decreases tags.len(),
{
    let root = Seq::<Seq<char>>::empty();
    if tags.len() == 0 {
        assert(tags =~= Seq::<Seq<char>>::empty());
        lemma_no_live_tags();
        assert forall|name: Seq<char>| !(#[trigger] on_some_path(live_tags(tags), root.push(name))) by {}
    } else {
        let k = tags.len() - 1;
        lemma_forest_of(tags.drop_last());
        lemma_live_tags_step(tags, k);
        assert(tags.take(k + 1) =~= tags);
        assert(tags.take(k) =~= tags.drop_last());
        if tags.last().len() > 0 {
            crate::path::lemma_split_nonempty(tags.last());
            lemma_grown(forest_of(tags.drop_last()), root, live_tags(tags.drop_last()), tags.last());
        }
    }
}

/// The counts add up: in the forest of given tags, the direct counts of all
/// nodes together are the number of tags that are not the empty text; where
/// no tag is the empty text, that is the number of tags.
pub proof fn law_counts_add_up(tags: Seq<Seq<char>>, forest: Seq<NodeView>)
    requires
        is_forest_of(forest, Seq::<Seq<char>>::empty(), live_tags(tags)),
    ensures
        forest == forest_of(tags),
        forest_total(forest) == live_tags(tags).len(),
        (forall|i: int| 0 <= i < tags.len() ==> (#[trigger] tags[i]).len() > 0) ==> forest_total(
            forest,
        ) == tags.len(),
{
    lemma_forest_of(tags);
    lemma_forest_is_unique(forest, forest_of(tags), Seq::<Seq<char>>::empty(), live_tags(tags));
    if forall|i: int| 0 <= i < tags.len() ==> (#[trigger] tags[i]).len() > 0 {
        lemma_all_live(tags);
    }
}

} // verus!
