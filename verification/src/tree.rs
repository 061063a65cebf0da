//! The tree of projects: the project tags of a task list, grouped by the
//! segments of their paths, with the number of tags that end at each node.
//!
//! The forest is a function of the multiset of tags alone. A tag that is the
//! empty text counts for nothing. An empty segment is kept as a node whose
//! name is the empty text.

use crate::forest::{
    is_put_at, law_counts_add_up, lemma_forest_off_path, lemma_live_tags_step,
    lemma_name_is_absent, lemma_no_live_tags, lemma_nothing_below, lemma_record_step,
};
use crate::path::{
    join_path, segments_view, separator, split_path, split_segments, PROJECT_SEPARATOR,
};
use crate::snapshot::{responses_view, ResponseView, TodoResponse};
use crate::text::{chars_of, compare_chars, lex_lt, strings_view, text_of, Precedence};
use vstd::multiset::Multiset;
use vstd::prelude::*;
use vstd::string::StringExecFns;

verus! {

/// One node of the project tree.
#[derive(Debug, PartialEq, Eq)]
pub struct ProjectNode {
    /// The last segment of the node's path.
    pub name: String,
    /// The segments of the node's path, with the separator between them.
    pub full_path: String,
    /// The number of tags that are the node's full path.
    pub direct_count: usize,
    /// The nodes one segment below, in the order of their names.
    pub children: Vec<ProjectNode>,
}

/// A node of the project tree, as a mathematical value.
pub struct NodeView {
    pub name: Seq<char>,
    pub full_path: Seq<char>,
    pub direct_count: nat,
    pub children: Seq<NodeView>,
}

/// The mathematical value of a node: the views of its fields, and below it the
/// values of the nodes below.
pub open spec fn node_view(node: ProjectNode) -> NodeView
    decreases node,
{
    NodeView {
        name: node.name@,
        full_path: node.full_path@,
        direct_count: node.direct_count as nat,
        children: Seq::new(
            node.children@.len(),
            |i: int|
                if 0 <= i < node.children@.len() {
                    node_view(node.children@[i])
                } else {
                    arbitrary()
                },
        ),
    }
}

impl View for ProjectNode {
    type V = NodeView;

    open spec fn view(&self) -> NodeView {
        node_view(*self)
    }
}

impl Clone for ProjectNode {
    fn clone(&self) -> (copy: ProjectNode)
        ensures
            copy@ == self@,
        decreases self,
    {
        let mut children: Vec<ProjectNode> = Vec::new();
        let mut i: usize = 0;
        while i < self.children.len()
            invariant
                i <= self.children.len(),
                forest_view(children@) =~= forest_view(self.children@).take(i as int),
            decreases self.children.len() - i,
        {
            let child = self.children[i].clone();
            proof {
                assert(forest_view(children@.push(child)) =~= forest_view(children@).push(child@));
            }
            children.push(child);
            i += 1;
        }
        let copy = ProjectNode {
            name: self.name.clone(),
            full_path: self.full_path.clone(),
            direct_count: self.direct_count,
            children,
        };
        proof {
            lemma_node_view(copy);
            lemma_node_view(*self);
            assert(forest_view(self.children@).take(i as int) =~= forest_view(self.children@));
        }
        copy
    }
}

/// The view of a sequence of nodes.
pub open spec fn forest_view(nodes: Seq<ProjectNode>) -> Seq<NodeView> {
    Seq::new(nodes.len(), |i: int| nodes[i]@)
}

/// The view of a node holds the views of its fields, and below it the views
/// of the nodes below.
pub proof fn lemma_node_view(node: ProjectNode)
    ensures
        node@.name == node.name@,
        node@.full_path == node.full_path@,
        node@.direct_count == node.direct_count,
        node@.children == forest_view(node.children@),
{
    assert(node@.children =~= forest_view(node.children@));
}

/// The tags that count: those that are not the empty text.
pub open spec fn live_tags(tags: Seq<Seq<char>>) -> Multiset<Seq<char>> {
    tags.to_multiset().filter(|t: Seq<char>| t.len() > 0)
}

/// The path of the tag `t` begins with the segments `p`.
pub open spec fn runs_through(t: Seq<char>, p: Seq<Seq<char>>) -> bool {
    p.is_prefix_of(split_path(t))
}

/// Some tag of `tags` has a path that begins with the segments `p`.
pub open spec fn on_some_path(tags: Multiset<Seq<char>>, p: Seq<Seq<char>>) -> bool {
    exists|t: Seq<char>| tags.count(t) > 0 && #[trigger] runs_through(t, p)
}

/// The names of the nodes ascend strictly in the order of the dictionary.
pub open spec fn names_ascend(forest: Seq<NodeView>) -> bool {
    forall|i: int, j: int|
        0 <= i < j < forest.len() ==> lex_lt(
            (#[trigger] forest[i]).name,
            (#[trigger] forest[j]).name,
        )
}

/// Some node of `forest` has the name `name`.
pub open spec fn has_name(forest: Seq<NodeView>, name: Seq<char>) -> bool {
    exists|i: int| 0 <= i < forest.len() && (#[trigger] forest[i]).name == name
}

/// Every segment that follows `prefix` on the path of some tag names a node of
/// `forest`.
pub open spec fn covers(
    forest: Seq<NodeView>,
    prefix: Seq<Seq<char>>,
    tags: Multiset<Seq<char>>,
) -> bool {
    forall|name: Seq<char>| #[trigger]
        on_some_path(tags, prefix.push(name)) ==> has_name(forest, name)
}

/// `forest` is the forest of `tags` below the segments `prefix`: one node for
/// each segment that follows `prefix` on the path of some tag, in the order of
/// the names, each with its full path, the number of tags equal to that full
/// path, and below it the forest of `tags` under the node's own path.
pub open spec fn is_forest_of(
    forest: Seq<NodeView>,
    prefix: Seq<Seq<char>>,
    tags: Multiset<Seq<char>>,
) -> bool
    decreases forest,
{
    &&& names_ascend(forest)
    &&& covers(forest, prefix, tags)
    &&& forall|i: int| 0 <= i < forest.len() ==> is_node_of(#[trigger] forest[i], prefix, tags)
}

/// `node` is a node of the forest of `tags` below the segments `prefix`.
pub open spec fn is_node_of(node: NodeView, prefix: Seq<Seq<char>>, tags: Multiset<Seq<char>>) -> bool
    decreases node,
{
    &&& on_some_path(tags, prefix.push(node.name))
    &&& node.full_path == join_path(prefix.push(node.name))
    &&& node.direct_count == tags.count(node.full_path)
    &&& is_forest_of(node.children, prefix.push(node.name), tags)
}

/// The sum of the direct counts of a node and of all nodes below it.
pub open spec fn node_total(node: NodeView) -> nat
    decreases node,
{
    node.direct_count + forest_total(node.children)
}

/// The sum of the direct counts of all nodes of a forest.
pub open spec fn forest_total(forest: Seq<NodeView>) -> nat
    decreases forest,
{
    if forest.len() == 0 {
        0
    } else {
        forest_total(forest.drop_last()) + node_total(forest.last())
    }
}

/// A node of the tree while the tags are being counted: its name and count,
/// and the nodes below it in the order of their names.
struct Tally {
    name: Vec<char>,
    count: usize,
    children: Vec<Tally>,
}

/// The node that `tally` stands for below the segments `prefix`.
spec fn tally_view(tally: Tally, prefix: Seq<Seq<char>>) -> NodeView
    decreases tally,
{
    NodeView {
        name: tally.name@,
        full_path: join_path(prefix.push(tally.name@)),
        direct_count: tally.count as nat,
        children: Seq::new(
            tally.children@.len(),
            |i: int|
                if 0 <= i < tally.children@.len() {
                    tally_view(tally.children@[i], prefix.push(tally.name@))
                } else {
                    arbitrary()
                },
        ),
    }
}

/// The forest that `tallies` stand for below the segments `prefix`.
spec fn tallies_view(tallies: Seq<Tally>, prefix: Seq<Seq<char>>) -> Seq<NodeView> {
    Seq::new(tallies.len(), |i: int| tally_view(tallies[i], prefix))
}

/// Finds the place of `name` among the nodes of one level: the index of the
/// node with that name, or the index at which a node with that name belongs.
fn locate(level: &Vec<Tally>, name: &Vec<char>) -> (r: (usize, bool))
    ensures
        r.0 <= level.len(),
        forall|i: int| 0 <= i < r.0 ==> lex_lt((#[trigger] level@[i]).name@, name@),
        r.1 ==> r.0 < level.len() && level@[r.0 as int].name@ == name@,
        !r.1 ==> r.0 == level.len() || lex_lt(name@, level@[r.0 as int].name@),
{
    let mut i: usize = 0;
    while i < level.len()
        invariant
            i <= level.len(),
            forall|j: int| 0 <= j < i ==> lex_lt((#[trigger] level@[j]).name@, name@),
        decreases level.len() - i,
    {
        match compare_chars(&level[i].name, name) {
            Precedence::Before => {
                i += 1;
            },
            Precedence::Same => {
                return (i, true);
            },
            Precedence::After => {
                return (i, false);
            },
        }
    }
    (i, false)
}

/// Records the path `segments` of one tag in the forest `level`, from the
/// segment at `depth` on: each segment gets its node where it has none, and the
/// node of the last segment counts one more.
fn record_path(
    level: Vec<Tally>,
    segments: &Vec<Vec<char>>,
    depth: usize,
    Ghost(tags): Ghost<Multiset<Seq<char>>>,
    Ghost(t): Ghost<Seq<char>>,
) -> (after: Vec<Tally>)
    requires
        segments_view(segments@) == split_path(t),
        depth < segments.len(),
        tags.len() < usize::MAX,
        is_forest_of(
            tallies_view(level@, split_path(t).take(depth as int)),
            split_path(t).take(depth as int),
            tags,
        ),
    ensures
        is_forest_of(
            tallies_view(after@, split_path(t).take(depth as int)),
            split_path(t).take(depth as int),
            tags.insert(t),
        ),
    decreases segments.len() - depth,
{
    let ghost path = split_path(t);
    let ghost prefix = path.take(depth as int);
    let ghost forest = tallies_view(level@, prefix);
    let ghost below = prefix.push(path[depth as int]);
    proof {
        assert(segments_view(segments@)[depth as int] == segments@[depth as int]@);
        assert(below =~= path.take(depth + 1));
    }
    let last = depth + 1 == segments.len();
    let (pos, found) = locate(&level, &segments[depth]);
    proof {
        assert forall|i: int| 0 <= i < pos implies lex_lt(
            (#[trigger] forest[i]).name,
            path[depth as int],
        ) by {
            assert(forest[i].name == level@[i].name@);
        }
    }
    let mut level = level;
    let node = if found {
        let Tally { name, count, children } = level.remove(pos);
        let ghost old_node = tally_view(Tally { name, count, children }, prefix);
        proof {
            assert(old_node == forest[pos as int]);
            assert(is_node_of(forest[pos as int], prefix, tags));
            assert(old_node.children =~= tallies_view(children@, below));
            assert(tallies_view(level@, prefix) =~= forest.remove(pos as int));
        }
        if last {
            proof {
                lemma_forest_off_path(old_node.children, below, tags, t);
                vstd::multiset::axiom_count_le_len(tags, old_node.full_path);
            }
            Tally { name, count: count + 1, children }
        } else {
            let children = record_path(children, segments, depth + 1, Ghost(tags), Ghost(t));
            Tally { name, count, children }
        }
    } else {
        proof {
            lemma_name_is_absent(forest, pos as int, path[depth as int]);
            lemma_nothing_below(forest, prefix, tags, path[depth as int]);
            assert(tallies_view(Seq::<Tally>::empty(), below) =~= Seq::<NodeView>::empty());
        }
        let name = segments[depth].clone();
        assert(name@ =~= segments@[depth as int]@);
        if last {
            proof {
                lemma_forest_off_path(Seq::<NodeView>::empty(), below, tags, t);
            }
            Tally { name, count: 1, children: Vec::new() }
        } else {
            let children = record_path(Vec::new(), segments, depth + 1, Ghost(tags), Ghost(t));
            Tally { name, count: 0, children }
        }
    };
    level.insert(pos, node);
    proof {
        let new_node = tally_view(node, prefix);
        let after = tallies_view(level@, prefix);
        assert(new_node.children =~= tallies_view(node.children@, below));
        if found {
            assert(after =~= forest.update(pos as int, new_node));
        } else {
            assert(after =~= forest.insert(pos as int, new_node));
        }
        assert(is_put_at(forest, after, pos as int, found, new_node));
        lemma_record_step(forest, after, prefix, tags, t, pos as int, found, new_node);
    }
    level
}

/// Turns the counted nodes of one level into nodes of the tree, each with the
/// full path that `parent` and its own name give it.
fn finish(level: &Vec<Tally>, parent: &str, top: bool, Ghost(prefix): Ghost<Seq<Seq<char>>>) -> (nodes:
    Vec<ProjectNode>)
    requires
        top <==> prefix.len() == 0,
        !top ==> parent@ == join_path(prefix),
    ensures
        forest_view(nodes@) == tallies_view(level@, prefix),
    decreases level,
{
    let mut nodes: Vec<ProjectNode> = Vec::new();
    let mut i: usize = 0;
    while i < level.len()
        invariant
            i <= level.len(),
            top <==> prefix.len() == 0,
            !top ==> parent@ == join_path(prefix),
            forest_view(nodes@) =~= tallies_view(level@, prefix).take(i as int),
        decreases level.len() - i,
    {
        let tally = &level[i];
        let ghost below = prefix.push(tally.name@);
        let name = text_of(&tally.name);
        let full_path = if top {
            name.clone()
        } else {
            let mut path = String::from_str(parent);
            path.append(PROJECT_SEPARATOR);
            path.append(name.as_str());
            path
        };
        proof {
            reveal_strlit("---");
            assert(PROJECT_SEPARATOR@ =~= separator());
            assert(below.drop_last() =~= prefix);
            assert(full_path@ =~= join_path(below));
        }
        let children = finish(&tally.children, full_path.as_str(), false, Ghost(below));
        let node = ProjectNode { name, full_path, direct_count: tally.count, children };
        proof {
            lemma_node_view(node);
            assert(tally_view(*tally, prefix).children =~= tallies_view(tally.children@, below));
            assert(node@ == tally_view(*tally, prefix));
            assert(forest_view(nodes@.push(node)) =~= forest_view(nodes@).push(node@));
        }
        nodes.push(node);
        i += 1;
    }
    nodes
}

/// Builds the forest of the project tags `tags`.
///
/// Each tag that is not the empty text is split into the segments of its
/// path; the forest holds one node for each run of first segments of some
/// path, the nodes of a level in the order of their names, and each node
/// counts the tags that are exactly its full path. The counts of all nodes
/// add up to the number of tags that are not the empty text.
pub fn build_tree(tags: &Vec<String>) -> (forest: Vec<ProjectNode>)
    ensures
        is_forest_of(
            forest_view(forest@),
            Seq::<Seq<char>>::empty(),
            live_tags(strings_view(tags@)),
        ),
        forest_total(forest_view(forest@)) == live_tags(strings_view(tags@)).len(),
        (forall|i: int| 0 <= i < tags.len() ==> (#[trigger] tags@[i])@.len() > 0) ==> forest_total(
            forest_view(forest@),
        ) == tags.len(),
{
    let ghost all = strings_view(tags@);
    let ghost root = Seq::<Seq<char>>::empty();
    let mut level: Vec<Tally> = Vec::new();
    let mut k: usize = 0;
    proof {
        assert(all.take(0) =~= Seq::<Seq<char>>::empty());
        lemma_no_live_tags();
        assert(tallies_view(level@, root) =~= Seq::<NodeView>::empty());
        assert forall|name: Seq<char>| !(#[trigger] on_some_path(
            live_tags(all.take(0)),
            root.push(name),
        )) by {}
    }
    while k < tags.len()
        invariant
            k <= tags.len(),
            all == strings_view(tags@),
            root == Seq::<Seq<char>>::empty(),
            is_forest_of(tallies_view(level@, root), root, live_tags(all.take(k as int))),
            live_tags(all.take(k as int)).len() <= k,
        decreases tags.len() - k,
    {
        let tag = chars_of(tags[k].as_str());
        proof {
            lemma_live_tags_step(all, k as int);
            assert(all[k as int] == tag@);
        }
        if tag.len() > 0 {
            let segments = split_segments(&tag);
            proof {
                assert(split_path(tag@).take(0) =~= root);
            }
            let ghost counted = live_tags(all.take(k as int));
            level = record_path(level, &segments, 0, Ghost(counted), Ghost(tag@));
        }
        k += 1;
    }
    let forest = finish(&level, "", true, Ghost(root));
    proof {
        assert(all.take(k as int) =~= all);
        if forall|i: int| 0 <= i < tags.len() ==> (#[trigger] tags@[i])@.len() > 0 {
            assert forall|i: int| 0 <= i < all.len() implies (#[trigger] all[i]).len() > 0 by {
                assert(all[i] == tags@[i]@);
            }
        }
        law_counts_add_up(all, forest_view(forest@));
    }
    forest
}

/// The project tags of the shown tasks `todos`: those of the first task in
/// their order, then those of the second, and so on.
pub open spec fn project_tags(todos: Seq<ResponseView>) -> Seq<Seq<char>>
    decreases todos.len(),
{
    if todos.len() == 0 {
        Seq::empty()
    } else {
        project_tags(todos.drop_last()) + todos.last().projects
    }
}

/// Builds the forest of the project tags of the shown tasks `todos`.
///
/// The forest is that of `build_tree` for the tags of all tasks together: it
/// depends on how often each tag occurs, and neither on the task that carries
/// a tag nor on the order of the tasks. The counts of all nodes add up to the
/// number of tags that are not the empty text.
pub fn build_project_tree(todos: &[TodoResponse]) -> (forest: Vec<ProjectNode>)
    ensures
        is_forest_of(
            forest_view(forest@),
            Seq::<Seq<char>>::empty(),
            live_tags(project_tags(responses_view(todos@))),
        ),
        forest_total(forest_view(forest@)) == live_tags(
            project_tags(responses_view(todos@)),
        ).len(),
{
    let ghost all = responses_view(todos@);
    let mut tags: Vec<String> = Vec::new();
    let mut i: usize = 0;
    proof {
        assert(all.take(0) =~= Seq::<ResponseView>::empty());
    }
    while i < todos.len()
        invariant
            i <= todos.len(),
            all == responses_view(todos@),
            strings_view(tags@) =~= project_tags(all.take(i as int)),
        decreases todos.len() - i,
    {
        let projects = &todos[i].projects;
        let ghost before = strings_view(tags@);
        let mut k: usize = 0;
        while k < projects.len()
            invariant
                k <= projects.len(),
                strings_view(tags@) =~= before + strings_view(projects@).take(k as int),
            decreases projects.len() - k,
        {
            let tag = projects[k].clone();
            proof {
                assert(strings_view(tags@.push(tag)) =~= strings_view(tags@).push(tag@));
            }
            tags.push(tag);
            k += 1;
        }
        proof {
            let upto = all.take(i + 1);
            assert(upto.drop_last() =~= all.take(i as int));
            assert(upto.last().projects == strings_view(projects@));
            assert(strings_view(projects@).take(k as int) =~= strings_view(projects@));
        }
        i += 1;
    }
    proof {
        assert(all.take(i as int) =~= all);
    }
    build_tree(&tags)
}

} // verus!
