//! Trees held in memory, and what a walk of one yields.
//!
//! The walk is defined here by recursion over the tree; [`crate::run`]
//! computes it on a stack.

use vstd::prelude::*;
use crate::config::Config;
use crate::display::{is_shown, rendered, LineView};
use crate::expands;
use crate::listing::{
    arranged, inserted, is_listed, kept, lemma_arranged_member, sorted_by_path, entry_le,
    EntryView,
};
use crate::{child_line, child_pendings, root_line, root_pendings, PendingView};
use crate::output::OutputView;
use crate::path::{PathInfo, PathView};

verus! {

/// A filesystem subtree held in memory: a path, and what enumerating it
/// yields. `None` stands for a path whose entries cannot be enumerated.
#[derive(Debug)]
pub struct Node {
    pub path: PathInfo,
    pub listing: Option<Vec<Node>>,
}

/// The nodes as entries of a directory, each its own handle.
pub open spec fn node_entries<'a>(nodes: Seq<Node>) -> Seq<EntryView<&'a Node>> {
    Seq::new(nodes.len(), |i: int| EntryView { path: nodes[i].path@, handle: &nodes[i] })
}

/// The children of a node as they are visited below it, in ascending order
/// of path; none where the node cannot be enumerated.
pub open spec fn shown_children<'a>(node: Node, config: Config) -> Seq<EntryView<&'a Node>> {
    match node.listing {
        Some(children) => arranged(node_entries(children@), config),
        None => Seq::empty(),
    }
}

/// What a walk yields: the nodes that were visited, in order, and the path
/// at which the walk broke off, if it did.
pub ghost struct Trace {
    pub visits: Seq<LineView>,
    pub failure: Option<PathView>,
}

impl Trace {
    /// The walk that visits nothing.
    pub open spec fn empty() -> Trace {
        Trace { visits: Seq::empty(), failure: None }
    }

    /// This walk, and `next` after it unless this one broke off.
    pub open spec fn followed_by(self, next: Trace) -> Trace {
        if self.failure is Some {
            self
        } else {
            Trace { visits: self.visits + next.visits, failure: next.failure }
        }
    }
}

/// Whether every ancestor was a last child. `chain` holds, for each
/// ancestor from the root down to the parent, whether it was one.
pub open spec fn all_last(chain: Seq<bool>) -> bool {
    forall|i: int| 0 <= i < chain.len() ==> chain[i]
}

/// The line of a node below the ancestors of `chain`: its depth is the
/// number of its ancestors.
pub open spec fn line_below(chain: Seq<bool>, is_last_child: bool, path: PathView) -> LineView {
    LineView {
        depth: chain.len(),
        is_last_child,
        ancestors_are_last_children: all_last(chain),
        path,
    }
}

/// The walk of one node and of all below it: the node is visited; where its
/// entries are enumerated and that fails, the walk breaks off; else its
/// children are walked.
pub open spec fn walk_node(node: Node, chain: Seq<bool>, is_last_child: bool, config: Config) -> Trace
    decreases node, shown_children(node, config).len() + 1,
{
    let line = line_below(chain, is_last_child, node.path@);
    let own = Trace { visits: seq![line], failure: None };
    if !expands(line, config) {
        own
    } else if node.listing is None {
        Trace { visits: seq![line], failure: Some(node.path@) }
    } else {
        own.followed_by(
            walk_children(
                node,
                shown_children(node, config).len(),
                chain.push(is_last_child),
                config,
            ),
        )
    }
}

/// The walk of the first `count` children of `parent` in ascending order of
/// path, the last of them first: the child sorted first is walked last, and
/// is the one marked as last child.
pub open spec fn walk_children(parent: Node, count: nat, chain: Seq<bool>, config: Config) -> Trace
    decreases parent, count,
{
    let children = shown_children(parent, config);
    if count == 0 || count > children.len() {
        Trace::empty()
    } else {
        proof {
            lemma_child_below(parent, config, count - 1);
        }
        walk_node(*children[count - 1].handle, chain, count == 1, config).followed_by(
            walk_children(parent, (count - 1) as nat, chain, config),
        )
    }
}

/// Each child that is shown below a node is one of the node's entries.
pub proof fn lemma_child_below(parent: Node, config: Config, i: int)
    requires
        0 <= i < shown_children(parent, config).len(),
    ensures
        parent.listing is Some,
        exists|k: int|
            0 <= k < parent.listing->0@.len() && parent.listing->0@[k] == *shown_children(
                parent,
                config,
            )[i].handle,
        decreases_to!(parent => *shown_children(parent, config)[i].handle),
        shown_children(parent, config)[i].path == shown_children(parent, config)[i].handle.path@,
        is_listed(shown_children(parent, config)[i].path, config),
{
    let entries = node_entries(parent.listing->0@);
    lemma_arranged_member(entries, config, i);
    let k = choose|k: int| 0 <= k < entries.len() && entries[k] == arranged(entries, config)[i];
}

/// The walk of the roots, each with nothing above it, in the order given.
pub open spec fn walk_roots(roots: Seq<Node>, config: Config) -> Trace
    decreases roots.len(),
{
    if roots.len() == 0 {
        Trace::empty()
    } else {
        walk_node(roots.first(), Seq::empty(), true, config).followed_by(
            walk_roots(roots.drop_first(), config),
        )
    }
}

/// The lines that are put out for the visited nodes.
pub open spec fn shown_lines(visits: Seq<LineView>, config: Config) -> Seq<Seq<char>>
    decreases visits.len(),
{
    if visits.len() == 0 {
        Seq::empty()
    } else {
        let before = shown_lines(visits.drop_last(), config);
        if is_shown(visits.last(), config) {
            before.push(rendered(visits.last(), config.charset))
        } else {
            before
        }
    }
}

/// The number of visited nodes that are directories.
pub open spec fn directories_among(visits: Seq<LineView>) -> nat
    decreases visits.len(),
{
    if visits.len() == 0 {
        0
    } else {
        directories_among(visits.drop_last()) + if visits.last().path.is_dir {
            1nat
        } else {
            0nat
        }
    }
}

/// The tallies after the given nodes have been visited.
pub open spec fn tally(visits: Seq<LineView>, roots: nat) -> OutputView {
    OutputView {
        files: (visits.len() - directories_among(visits)) as nat,
        directories: directories_among(visits),
        starting_directories: roots,
    }
}

/// The number of nodes of a subtree.
pub open spec fn node_size(node: Node) -> nat
    decreases node,
{
    1 + match node.listing {
        Some(children) => forest_size(children@),
        None => 0,
    }
}

/// The number of nodes of some subtrees together.
pub open spec fn forest_size(nodes: Seq<Node>) -> nat
    decreases nodes,
{
    if nodes.len() == 0 {
        0
    } else {
        forest_size(nodes.drop_last()) + node_size(nodes.last())
    }
}

/// The nodes that the entries stand for.
pub open spec fn handles(entries: Seq<EntryView<&Node>>) -> Seq<Node> {
    Seq::new(entries.len(), |i: int| *entries[i].handle)
}

/// The nodes that wait on a stack.
pub open spec fn stack_nodes(stack: Seq<PendingView<&Node>>) -> Seq<Node> {
    Seq::new(stack.len(), |i: int| *stack[i].handle)
}

/// One more subtree adds its nodes.
pub proof fn lemma_forest_size_push(nodes: Seq<Node>, node: Node)
    ensures
        forest_size(nodes.push(node)) == forest_size(nodes) + node_size(node),
{
    assert(nodes.push(node).drop_last() =~= nodes);
}

/// Two forests together hold the nodes of both.
pub proof fn lemma_forest_size_concat(a: Seq<Node>, b: Seq<Node>)
    ensures
        forest_size(a + b) == forest_size(a) + forest_size(b),
    decreases b.len(),
{
    if b.len() > 0 {
        lemma_forest_size_concat(a, b.drop_last());
        assert((a + b).drop_last() =~= a + b.drop_last());
    }
}

/// The nodes that the references of a stack point to.
pub open spec fn pointees(stack: Seq<&Node>) -> Seq<Node> {
    Seq::new(stack.len(), |i: int| *stack[i])
}

/// Puts each of the nodes onto the stack.
fn push_all<'a>(nodes: &'a Vec<Node>, stack: &mut Vec<&'a Node>)
    ensures
        pointees(final(stack)@) == pointees(old(stack)@) + nodes@,
{
    let mut i: usize = 0;
    while i < nodes.len()
        invariant
            i <= nodes@.len(),
            pointees(stack@) == pointees(old(stack)@) + nodes@.take(i as int),
        decreases nodes@.len() - i,
    {
        let ghost before = stack@;
        stack.push(&nodes[i]);
        assert(pointees(stack@) =~= pointees(before).push(nodes@[i as int]));
        i += 1;
    }
}

/// The number of nodes below the roots and of the roots themselves, or
/// `None` where it is greater than a counter can hold.
pub fn node_count<'a>(roots: &'a Vec<Node>) -> (r: Option<usize>)
    ensures
        match r {
            Some(count) => count == forest_size(roots@),
            None => forest_size(roots@) > usize::MAX,
        },
{
    let mut stack: Vec<&'a Node> = Vec::new();
    push_all(roots, &mut stack);
    let mut count: usize = 0;
    while stack.len() > 0
        invariant
            count + forest_size(pointees(stack@)) == forest_size(roots@),
        decreases forest_size(pointees(stack@)),
    {
        let ghost before = pointees(stack@);
        let node = stack.pop().unwrap();
        let ghost below = pointees(stack@);
        proof {
            assert(before =~= below.push(*node));
            lemma_forest_size_push(below, *node);
        }
        if count == usize::MAX {
            return None;
        }
        count += 1;
        match &node.listing {
            Some(children) => {
                push_all(children, &mut stack);
                proof {
                    lemma_forest_size_concat(below, children@);
                }
            },
            None => {},
        }
    }
    Some(count)
}

/// Putting an entry in its place adds the nodes of its subtree.
proof fn lemma_inserted_size(sorted: Seq<EntryView<&Node>>, entry: EntryView<&Node>)
    ensures
        forest_size(handles(inserted(sorted, entry))) == forest_size(handles(sorted)) + node_size(
            *entry.handle,
        ),
    decreases sorted.len(),
{
    if sorted.len() == 0 || entry_le(sorted.last(), entry) {
        assert(handles(sorted.push(entry)) =~= handles(sorted).push(*entry.handle));
        lemma_forest_size_push(handles(sorted), *entry.handle);
    } else {
        let front = sorted.drop_last();
        lemma_inserted_size(front, entry);
        assert(handles(inserted(front, entry).push(sorted.last())) =~= handles(
            inserted(front, entry),
        ).push(*sorted.last().handle));
        lemma_forest_size_push(handles(inserted(front, entry)), *sorted.last().handle);
        assert(handles(sorted) =~= handles(front).push(*sorted.last().handle));
        lemma_forest_size_push(handles(front), *sorted.last().handle);
    }
}

/// Sorting changes nothing in the number of nodes.
proof fn lemma_sorted_size(entries: Seq<EntryView<&Node>>)
    ensures
        forest_size(handles(sorted_by_path(entries))) == forest_size(handles(entries)),
    decreases entries.len(),
{
    if entries.len() > 0 {
        let front = entries.drop_last();
        lemma_sorted_size(front);
        lemma_inserted_size(sorted_by_path(front), entries.last());
        assert(handles(entries) =~= handles(front).push(*entries.last().handle));
        lemma_forest_size_push(handles(front), *entries.last().handle);
    }
}

/// The entries that are kept hold no more nodes than all of them.
proof fn lemma_kept_size(entries: Seq<EntryView<&Node>>, config: Config)
    ensures
        forest_size(handles(kept(entries, config))) <= forest_size(handles(entries)),
    decreases entries.len(),
{
    if entries.len() > 0 {
        let front = entries.drop_last();
        lemma_kept_size(front, config);
        assert(handles(entries) =~= handles(front).push(*entries.last().handle));
        lemma_forest_size_push(handles(front), *entries.last().handle);
        if is_listed(entries.last().path, config) {
            assert(handles(kept(front, config).push(entries.last())) =~= handles(
                kept(front, config),
            ).push(*entries.last().handle));
            lemma_forest_size_push(handles(kept(front, config)), *entries.last().handle);
        }
    }
}

/// The children shown below a node hold fewer nodes than the node's subtree.
pub proof fn lemma_shown_children_size(node: Node, config: Config)
    ensures
        forest_size(handles(shown_children(node, config))) < node_size(node),
{
    match node.listing {
        Some(children) => {
            let entries = node_entries(children@);
            lemma_kept_size(entries, config);
            lemma_sorted_size(kept(entries, config));
            assert(handles(entries) =~= children@);
        },
        None => {
        },
    }
}

/// The walk of what waits on a stack, from the top down. `chains` holds the
/// ancestors of each waiting node.
pub open spec fn walk_stack(
    stack: Seq<PendingView<&Node>>,
    chains: Seq<Seq<bool>>,
    config: Config,
) -> Trace
    decreases stack.len(),
{
    if stack.len() == 0 || chains.len() != stack.len() {
        Trace::empty()
    } else {
        walk_node(
            *stack.last().handle,
            chains.last(),
            stack.last().line.is_last_child,
            config,
        ).followed_by(walk_stack(stack.drop_last(), chains.drop_last(), config))
    }
}

/// Whether each waiting line is the line of its node below its ancestors.
pub open spec fn stack_matches(stack: Seq<PendingView<&Node>>, chains: Seq<Seq<bool>>) -> bool {
    &&& chains.len() == stack.len()
    &&& forall|i: int|
        0 <= i < stack.len() ==> (#[trigger] stack[i]).line == line_below(
            chains[i],
            stack[i].line.is_last_child,
            stack[i].handle.path@,
        )
}

/// Three walks one after the other are the same walk however they are
/// grouped.
pub proof fn lemma_followed_by_associative(a: Trace, b: Trace, c: Trace)
    ensures
        a.followed_by(b).followed_by(c) == a.followed_by(b.followed_by(c)),
{
    if a.failure is None && b.failure is None {
        assert((a.visits + b.visits) + c.visits =~= a.visits + (b.visits + c.visits));
    }
}

/// The walk that visits nothing adds nothing, before or after.
pub proof fn lemma_followed_by_empty(a: Trace)
    ensures
        Trace::empty().followed_by(a) == a,
        a.followed_by(Trace::empty()) == a,
{
}

/// All ancestors of a child are last children where all ancestors of its
/// parent are, and the parent is.
pub proof fn lemma_all_last_push(chain: Seq<bool>, is_last_child: bool)
    ensures
        all_last(chain.push(is_last_child)) == (all_last(chain) && is_last_child),
{
    let longer = chain.push(is_last_child);
    if all_last(longer) {
        assert(longer[chain.len() as int]);
        assert forall|i: int| 0 <= i < chain.len() implies chain[i] by {
            assert(longer[i]);
        }
    }
}

/// The roots on the stack are walked as the roots are, in the order given.
pub proof fn lemma_walk_stack_roots(roots: Seq<Node>, config: Config)
    ensures
        walk_stack(
            root_pendings(node_entries(roots)),
            Seq::new(roots.len(), |i: int| Seq::<bool>::empty()),
            config,
        ) == walk_roots(roots, config),
        stack_matches(
            root_pendings(node_entries(roots)),
            Seq::new(roots.len(), |i: int| Seq::<bool>::empty()),
        ),
        forest_size(stack_nodes(root_pendings(node_entries(roots)))) == forest_size(roots),
    decreases roots.len(),
{
    let stack = root_pendings(node_entries(roots));
    let chains = Seq::new(roots.len(), |i: int| Seq::<bool>::empty());
    if roots.len() > 0 {
        let rest = roots.drop_first();
        lemma_walk_stack_roots(rest, config);
        assert(stack.drop_last() =~= root_pendings(node_entries(rest)));
        assert(chains.drop_last() =~= Seq::new(rest.len(), |i: int| Seq::<bool>::empty()));
        assert(stack_nodes(stack).drop_last() =~= stack_nodes(stack.drop_last()));
        assert(roots =~= seq![roots.first()] + rest);
        lemma_forest_size_concat(seq![roots.first()], rest);
        lemma_forest_size_push(Seq::<Node>::empty(), roots.first());
    }
}

/// The children of a visited node on top of a stack are walked as its
/// children are, and what lay below them after that.
pub proof fn lemma_walk_stack_children(
    below: Seq<PendingView<&Node>>,
    chains: Seq<Seq<bool>>,
    node: Node,
    chain: Seq<bool>,
    is_last_child: bool,
    config: Config,
    count: nat,
)
    requires
        chains.len() == below.len(),
        count <= shown_children(node, config).len(),
    ensures
        walk_stack(
            below + child_pendings(
                line_below(chain, is_last_child, node.path@),
                shown_children(node, config),
            ).take(count as int),
            chains + Seq::new(count, |i: int| chain.push(is_last_child)),
            config,
        ) == walk_children(node, count, chain.push(is_last_child), config).followed_by(
            walk_stack(below, chains, config),
        ),
    decreases count,
{
    let line = line_below(chain, is_last_child, node.path@);
    let children = shown_children(node, config);
    let pushed = child_pendings(line, children);
    let longer = chain.push(is_last_child);
    let stack = below + pushed.take(count as int);
    let all = chains + Seq::new(count, |i: int| longer);
    if count == 0 {
        lemma_followed_by_empty(walk_stack(below, chains, config));
    } else {
        let fewer = (count - 1) as nat;
        lemma_walk_stack_children(below, chains, node, chain, is_last_child, config, fewer);
        assert(stack.drop_last() =~= below + pushed.take(fewer as int));
        assert(all.drop_last() =~= chains + Seq::new(fewer, |i: int| longer));
        lemma_followed_by_associative(
            walk_node(*children[count - 1].handle, longer, count == 1, config),
            walk_children(node, fewer, longer, config),
            walk_stack(below, chains, config),
        );
    }
}

/// The children of a visited node match their ancestors as they are pushed.
pub proof fn lemma_stack_matches_children(
    below: Seq<PendingView<&Node>>,
    chains: Seq<Seq<bool>>,
    node: Node,
    chain: Seq<bool>,
    is_last_child: bool,
    config: Config,
)
    requires
        stack_matches(below, chains),
    ensures
        stack_matches(
            below + child_pendings(
                line_below(chain, is_last_child, node.path@),
                shown_children(node, config),
            ),
            chains + Seq::new(
                shown_children(node, config).len(),
                |i: int| chain.push(is_last_child),
            ),
        ),
{
    let line = line_below(chain, is_last_child, node.path@);
    let children = shown_children(node, config);
    let stack = below + child_pendings(line, children);
    let all = chains + Seq::new(children.len(), |i: int| chain.push(is_last_child));
    lemma_all_last_push(chain, is_last_child);
    assert forall|i: int| 0 <= i < stack.len() implies (#[trigger] stack[i]).line == line_below(
        all[i],
        stack[i].line.is_last_child,
        stack[i].handle.path@,
    ) by {
        if i >= below.len() {
            lemma_child_below(node, config, i - below.len());
        }
    }
}

/// The line that is derived for a root from nothing but its path, and for
/// a child from nothing but the line of its parent, is the line of the node
/// below its ancestors: its depth is the number of its ancestors, and its
/// flag says whether all of them were last children.
pub proof fn lemma_lines_follow_ancestors(
    chain: Seq<bool>,
    is_last_child: bool,
    parent: PathView,
    child: PathView,
    index: int,
)
    ensures
        root_line(parent) == line_below(Seq::empty(), true, parent),
        line_below(chain, is_last_child, parent).depth == chain.len(),
        child_line(line_below(chain, is_last_child, parent), child, index) == line_below(
            chain.push(is_last_child),
            index == 0,
            child,
        ),
{
    lemma_all_last_push(chain, is_last_child);
}

/// What holds of a node that is visited below the node a walk started at,
/// `depth` being the least depth at which it can lie: it lies no higher, it
/// was kept when its directory was enumerated, and it lies no deeper than
/// the depth limit, where there is one.
pub open spec fn found_below(visit: LineView, depth: nat, config: Config) -> bool {
    &&& visit.depth >= depth
    &&& is_listed(visit.path, config)
    &&& match config.levels {
        Some(max_depth) => visit.depth <= max_depth,
        None => true,
    }
}

/// A walk of a node visits the node itself first, at the depth that is the
/// number of its ancestors, and after it only nodes that lie deeper.
pub proof fn lemma_walk_node_visits(node: Node, chain: Seq<bool>, is_last_child: bool, config: Config)
    ensures
        walk_node(node, chain, is_last_child, config).visits.len() >= 1,
        walk_node(node, chain, is_last_child, config).visits[0] == line_below(
            chain,
            is_last_child,
            node.path@,
        ),
        forall|i: int|
            1 <= i < walk_node(node, chain, is_last_child, config).visits.len() ==> found_below(
                #[trigger] walk_node(node, chain, is_last_child, config).visits[i],
                chain.len() + 1,
                config,
            ),
    decreases node, shown_children(node, config).len() + 1,
{
    let line = line_below(chain, is_last_child, node.path@);
    if expands(line, config) && node.listing is Some {
        lemma_walk_children_visits(
            node,
            shown_children(node, config).len(),
            chain.push(is_last_child),
            config,
        );
    }
}

/// A walk of the children of a node visits only nodes that were kept, none
/// higher than the children and none deeper than the depth limit.
pub proof fn lemma_walk_children_visits(parent: Node, count: nat, chain: Seq<bool>, config: Config)
    requires
        count <= shown_children(parent, config).len(),
        match config.levels {
            Some(max_depth) => chain.len() <= max_depth,
            None => true,
        },
    ensures
        forall|i: int|
            0 <= i < walk_children(parent, count, chain, config).visits.len() ==> found_below(
                #[trigger] walk_children(parent, count, chain, config).visits[i],
                chain.len(),
                config,
            ),
    decreases parent, count,
{
    if count > 0 {
        let children = shown_children(parent, config);
        lemma_child_below(parent, config, count - 1);
        lemma_walk_node_visits(*children[count - 1].handle, chain, count == 1, config);
        lemma_walk_children_visits(parent, (count - 1) as nat, chain, config);
    }
}

/// In a walk of the roots, every node below a root was kept when its
/// directory was enumerated: it is hidden only where hidden entries are
/// asked for, and it is a directory where only directories are. No node
/// lies deeper than the depth limit, where there is one.
pub proof fn lemma_walk_roots_visits(roots: Seq<Node>, config: Config)
    ensures
        forall|i: int|
            0 <= i < walk_roots(roots, config).visits.len() ==> {
                let visit = #[trigger] walk_roots(roots, config).visits[i];
                &&& visit.depth > 0 ==> is_listed(visit.path, config)
                &&& visit.depth > 0 && !config.print_hidden ==> !visit.path.hidden()
                &&& config.only_show_directories && is_shown(visit, config) ==> visit.path.is_dir
                &&& match config.levels {
                    Some(max_depth) => visit.depth <= max_depth,
                    None => true,
                }
            },
    decreases roots.len(),
{
    if roots.len() > 0 {
        lemma_walk_node_visits(roots.first(), Seq::empty(), true, config);
        lemma_walk_roots_visits(roots.drop_first(), config);
    }
}

/// At the depth limit a directory is visited and nothing below it is;
/// above the limit a directory that can be enumerated is visited and then
/// all of its children that are kept are walked.
pub proof fn lemma_depth_limit(
    node: Node,
    chain: Seq<bool>,
    is_last_child: bool,
    config: Config,
    max_depth: usize,
)
    requires
        config.levels == Some(max_depth),
        node.path.is_dir,
    ensures
        chain.len() >= max_depth ==> walk_node(node, chain, is_last_child, config) == (Trace {
            visits: seq![line_below(chain, is_last_child, node.path@)],
            failure: None,
        }),
        chain.len() < max_depth && node.listing is Some ==> walk_node(
            node,
            chain,
            is_last_child,
            config,
        ) == (Trace {
            visits: seq![line_below(chain, is_last_child, node.path@)],
            failure: None,
        }).followed_by(
            walk_children(
                node,
                shown_children(node, config).len(),
                chain.push(is_last_child),
                config,
            ),
        ),
        forall|i: int|
            0 <= i < walk_node(node, chain, is_last_child, config).visits.len() ==> (
            #[trigger] walk_node(node, chain, is_last_child, config).visits[i]).depth <= if chain.len()
                <= max_depth {
                max_depth as nat
            } else {
                chain.len()
            },
{
    lemma_walk_node_visits(node, chain, is_last_child, config);
}

/// The directories among two runs of visits are those of the first and
/// those of the second.
pub proof fn lemma_directories_among_concat(a: Seq<LineView>, b: Seq<LineView>)
    ensures
        directories_among(a + b) == directories_among(a) + directories_among(b),
    decreases b.len(),
{
    if b.len() > 0 {
        lemma_directories_among_concat(a, b.drop_last());
        assert((a + b).drop_last() =~= a + b.drop_last());
    }
}

/// Where every root is a directory and the walk does not break off, each
/// root is among the directories that are counted: the closing line can
/// leave the roots out of the tally.
pub proof fn lemma_roots_are_counted(roots: Seq<Node>, config: Config)
    requires
        forall|i: int| 0 <= i < roots.len() ==> (#[trigger] roots[i]).path.is_dir,
        walk_roots(roots, config).failure is None,
    ensures
        tally(walk_roots(roots, config).visits, roots.len()).directories >= roots.len(),
    decreases roots.len(),
{
    if roots.len() > 0 {
        let first = walk_node(roots.first(), Seq::empty(), true, config);
        let others = walk_roots(roots.drop_first(), config);
        lemma_walk_node_visits(roots.first(), Seq::empty(), true, config);
        lemma_roots_are_counted(roots.drop_first(), config);
        lemma_directories_among_concat(first.visits, others.visits);
        assert(first.visits =~= seq![first.visits[0]] + first.visits.drop_first());
        lemma_directories_among_concat(seq![first.visits[0]], first.visits.drop_first());
    }
}

} // verus!
