//! Draws directory trees as indented text.
//!
//! The engine walks a tree depth first on a stack of its own. For every
//! node it keeps three things only: how deep the node lies, whether it is
//! the last of its siblings to be shown, and whether all of its ancestors
//! were; the connectors of a line are drawn from these.
//!
//! [`run`] walks a tree that is held in memory. To walk anything else, put
//! the roots on a stack with [`initialize_stack`], take one node after the
//! other with [`visit_next`], and hand the entries of each directory that
//! is to be expanded to [`add_children`].

use vstd::prelude::*;

pub mod config;
pub mod display;
pub mod listing;
pub mod output;
pub mod path;
pub mod snapshot;
pub mod utils;

pub use crate::config::Args;

use crate::config::Config;
use crate::display::{display, is_shown, rendered, Line, LineView};
use crate::listing::{
    arranged, entry_le, entry_views, filter_children, is_listed, kept,
    lemma_arranged_in_any_order, lemma_arranged_member, lemma_arranged_strictly_ascending,
    lemma_sorted_by_path, paths_differ, paths_identify, sort_by_path, Entry, EntryView,
};
use crate::output::{Output, OutputView};
use crate::path::{path_precedes, PathView};
use crate::snapshot::{
    directories_among, forest_size, handles, lemma_followed_by_associative,
    lemma_forest_size_concat, lemma_forest_size_push, lemma_shown_children_size,
    lemma_stack_matches_children, lemma_walk_stack_children, lemma_walk_stack_roots, line_below,
    node_entries, shown_children, shown_lines, stack_matches, stack_nodes, tally, walk_children,
    walk_roots, walk_stack, Node, Trace,
};
use crate::utils::texts;

verus! {

/// A line that waits on the stack to be visited, with the handle of its path.
pub struct Pending<T> {
    pub line: Line,
    pub handle: T,
}

/// The mathematical value of a [`Pending`].
pub ghost struct PendingView<T> {
    pub line: LineView,
    pub handle: T,
}

impl<T> View for Pending<T> {
    type V = PendingView<T>;

    open spec fn view(&self) -> PendingView<T> {
        PendingView { line: self.line@, handle: self.handle }
    }
}

/// The value of each line of a stack, from the bottom up.
pub open spec fn pending_views<T>(stack: Seq<Pending<T>>) -> Seq<PendingView<T>> {
    stack.map_values(|p: Pending<T>| p@)
}

/// The line of a root: depth 0, and nothing above it that could be
/// anything but last.
pub open spec fn root_line(path: PathView) -> LineView {
    LineView { depth: 0, is_last_child: true, ancestors_are_last_children: true, path }
}

/// The line of the child at `index` of the sorted children of `parent`: one
/// level further down; the child sorted first is shown last; and all its
/// ancestors are last children where that holds of the parent and of all
/// above it.
pub open spec fn child_line(parent: LineView, path: PathView, index: int) -> LineView {
    LineView {
        depth: parent.depth + 1,
        is_last_child: index == 0,
        ancestors_are_last_children: parent.ancestors_are_last_children && parent.is_last_child,
        path,
    }
}

/// The roots as they go onto the stack: last given first, so that the first
/// given is popped first.
pub open spec fn root_pendings<T>(roots: Seq<EntryView<T>>) -> Seq<PendingView<T>> {
    Seq::new(
        roots.len(),
        |i: int|
            PendingView {
                line: root_line(roots[roots.len() - 1 - i].path),
                handle: roots[roots.len() - 1 - i].handle,
            },
    )
}

/// The sorted children of `parent` as they go onto the stack, in ascending
/// order: the child sorted first lies lowest and is popped last.
pub open spec fn child_pendings<T>(parent: LineView, children: Seq<EntryView<T>>) -> Seq<
    PendingView<T>,
> {
    Seq::new(
        children.len(),
        |i: int|
            PendingView {
                line: child_line(parent, children[i].path, i),
                handle: children[i].handle,
            },
    )
}

/// Whether the entries below a visited node are enumerated: it is a
/// directory, and it lies above the depth limit where there is one.
pub open spec fn expands(line: LineView, config: Config) -> bool {
    &&& line.path.is_dir
    &&& match config.levels {
        Some(max_depth) => line.depth < max_depth,
        None => true,
    }
}

/// The tallies after one more node has been visited.
pub open spec fn counted(output: OutputView, line: LineView) -> OutputView {
    if line.path.is_dir {
        OutputView { directories: output.directories + 1, ..output }
    } else {
        OutputView { files: output.files + 1, ..output }
    }
}

/// Puts the roots onto the stack, so that they are visited in the order given.
pub fn initialize_stack<T>(paths: Vec<Entry<T>>, stack: &mut Vec<Pending<T>>)
    ensures
        pending_views(final(stack)@) == pending_views(old(stack)@) + root_pendings(
            entry_views(paths@),
        ),
{
    let mut paths = paths;
    let ghost roots = entry_views(paths@);
    let ghost below = pending_views(stack@);
    while paths.len() > 0
        invariant
            paths@.len() <= roots.len(),
            entry_views(paths@) == roots.take(paths@.len() as int),
            pending_views(stack@) == below + root_pendings(roots).take(
                roots.len() - paths@.len(),
            ),
        decreases paths@.len(),
    {
        let ghost rest = paths@.len() - 1;
        let ghost before = pending_views(stack@);
        let entry = paths.pop().unwrap();
        assert(entry@ == roots[rest]) by {
            assert(roots.take(rest + 1)[rest] == roots[rest]);
        }
        let pending = Pending { line: Line::new(0, true, true, entry.path), handle: entry.handle };
        stack.push(pending);
        assert(pending_views(stack@) =~= before.push(pending@));
    }
}

/// Counts a visited node as a directory or as a file.
pub fn increment_output(line: &Line, output: &mut Output)
    requires
        counted(old(output)@, line@).files <= usize::MAX,
        counted(old(output)@, line@).directories <= usize::MAX,
    ensures
        final(output)@ == counted(old(output)@, line@),
{
    if line.path.is_dir {
        output.increment_directories();
    } else {
        output.increment_files();
    }
}

/// Whether the entries below a visited node are to be enumerated.
pub fn should_expand(line: &Line, config: &Config) -> (r: bool)
    ensures
        r == expands(line@, *config),
{
    if !line.path.is_dir {
        return false;
    }
    match config.levels {
        Some(max_depth) => line.depth < max_depth,
        None => true,
    }
}

/// A node that has been visited: its line and its handle, the text that is
/// put out for it, if any, and whether its entries are to be enumerated.
pub struct Visit<T> {
    pub line: Line,
    pub handle: T,
    pub text: Option<String>,
    pub expand: bool,
}

/// Whether `visit` is the visit of the line `top` that lay on top of the
/// stack.
pub open spec fn is_visit_of<T>(visit: Visit<T>, top: PendingView<T>, config: Config) -> bool {
    &&& visit.line@ == top.line
    &&& visit.handle == top.handle
    &&& match visit.text {
        Some(text) => is_shown(top.line, config) && text@ == rendered(top.line, config.charset),
        None => !is_shown(top.line, config),
    }
    &&& visit.expand == expands(top.line, config)
}

/// Visits the node on top of the stack: takes it off, counts it, and says
/// what is put out for it and whether its entries are to be enumerated.
/// `None`, and nothing changed, where the stack is empty.
pub fn visit_next<T>(stack: &mut Vec<Pending<T>>, output: &mut Output, config: &Config) -> (r:
    Option<Visit<T>>)
    requires
        old(stack)@.len() > 0 ==> {
            let after = counted(old(output)@, pending_views(old(stack)@).last().line);
            after.files <= usize::MAX && after.directories <= usize::MAX
        },
    ensures
        old(stack)@.len() == 0 ==> r is None && final(stack)@ == old(stack)@ && final(output)@
            == old(output)@,
        old(stack)@.len() > 0 ==> r is Some && is_visit_of(
            r->0,
            pending_views(old(stack)@).last(),
            *config,
        ) && pending_views(final(stack)@) == pending_views(old(stack)@).drop_last()
            && final(output)@ == counted(old(output)@, pending_views(old(stack)@).last().line),
{
    match stack.pop() {
        None => None,
        Some(pending) => {
            increment_output(&pending.line, output);
            let text = display(&pending.line, config);
            let expand = should_expand(&pending.line, config);
            Some(Visit { line: pending.line, handle: pending.handle, text, expand })
        },
    }
}

/// Puts the children of a visited directory onto the stack: of the entries
/// that were enumerated those that are kept, in ascending order of path.
/// Nothing is put there for a node whose entries are not to be enumerated.
///
/// Where a child is put there, its depth must be one that can be held.
pub fn add_children<T>(
    line: &Line,
    entries: Vec<Entry<T>>,
    config: &Config,
    stack: &mut Vec<Pending<T>>,
)
    requires
        expands(line@, *config) && arranged(entry_views(entries@), *config).len() > 0
            ==> line.depth < usize::MAX,
    ensures
        pending_views(final(stack)@) == pending_views(old(stack)@) + (if expands(line@, *config) {
            child_pendings(line@, arranged(entry_views(entries@), *config))
        } else {
            Seq::empty()
        }),
{
    let ghost below = pending_views(stack@);
    if !should_expand(line, config) {
        return ;
    }
    let paths = sort_by_path(filter_children(entries, config));
    let ghost children = entry_views(paths@);
    if paths.len() == 0 {
        return ;
    }
    let new_depth = line.depth + 1;
    let ancestors_are_last_children = line.ancestors_are_last_children && line.is_last_child;
    let mut is_first = true;
    for entry in it: paths
        invariant
            it.seq() == paths@,
            children == entry_views(paths@),
            is_first == (it.index() == 0),
            new_depth == line.depth + 1,
            ancestors_are_last_children == (line.ancestors_are_last_children
                && line.is_last_child),
            pending_views(stack@) == below + child_pendings(line@, children).take(
                it.index() as int,
            ),
    {
        let ghost before = pending_views(stack@);
        let pending = Pending {
            line: Line::new(new_depth, is_first, ancestors_are_last_children, entry.path),
            handle: entry.handle,
        };
        stack.push(pending);
        assert(pending_views(stack@) =~= before.push(pending@));
        is_first = false;
    }
}

/// A directory whose entries could not be enumerated.
#[derive(Debug)]
pub struct FilesystemError {
    pub path: String,
}

/// What a run yields: the lines that were put out, and the tallies, or the
/// failure that the run broke off with. The lines put out before a failure
/// stand.
#[derive(Debug)]
pub struct Report {
    pub lines: Vec<String>,
    pub result: Result<Output, FilesystemError>,
}

/// Whether a report is that of the given walk, started from `roots` roots.
pub open spec fn reports(report: Report, trace: Trace, roots: nat, config: Config) -> bool {
    &&& texts(report.lines@) == shown_lines(trace.visits, config)
    &&& match report.result {
        Ok(output) => trace.failure is None && output@ == tally(trace.visits, roots),
        Err(error) => trace.failure is Some && error.path@ == trace.failure->0.text,
    }
}

/// The nodes as entries of a directory, each with itself as its handle.
fn entries_of<'a>(nodes: &'a Vec<Node>) -> (r: Vec<Entry<&'a Node>>)
    ensures
        entry_views(r@) == node_entries(nodes@),
{
    let mut entries: Vec<Entry<&'a Node>> = Vec::new();
    let mut i: usize = 0;
    while i < nodes.len()
        invariant
            i <= nodes@.len(),
            entry_views(entries@) =~= node_entries(nodes@).take(i as int),
        decreases nodes@.len() - i,
    {
        let ghost before = entry_views(entries@);
        let entry = Entry { path: nodes[i].path.clone(), handle: &nodes[i] };
        entries.push(entry);
        assert(entry_views(entries@) =~= before.push(entry@));
        i += 1;
    }
    entries
}

/// No more directories were visited than nodes.
pub proof fn lemma_directories_among_bounded(visits: Seq<LineView>)
    ensures
        directories_among(visits) <= visits.len(),
    decreases visits.len(),
{
    if visits.len() > 0 {
        lemma_directories_among_bounded(visits.drop_last());
    }
}

/// Walks the subtrees below the roots depth first, the roots in the order
/// given and the children of each directory in descending order of path,
/// and reports the line of each node that is shown and the tallies. The
/// walk breaks off at the first directory that cannot be enumerated.
///
/// The nodes must be no more than a counter can hold, which
/// [`snapshot::node_count`] tells.
pub fn run<'a>(roots: &'a Vec<Node>, config: &Config) -> (report: Report)
    requires
        forest_size(roots@) <= usize::MAX,
    ensures
        reports(report, walk_roots(roots@, *config), roots@.len(), *config),
{
    let mut stack: Vec<Pending<&'a Node>> = Vec::new();
    let mut output = Output::new(roots.len());
    let mut lines: Vec<String> = Vec::new();
    initialize_stack(entries_of(roots), &mut stack);
    let ghost mut done: Seq<LineView> = Seq::empty();
    let ghost mut chains: Seq<Seq<bool>> = Seq::new(roots@.len(), |i: int| Seq::<bool>::empty());
    proof {
        lemma_walk_stack_roots(roots@, *config);
    }
    while stack.len() > 0
        invariant
            forest_size(roots@) <= usize::MAX,
            stack_matches(pending_views(stack@), chains),
            walk_roots(roots@, *config) == (Trace { visits: done, failure: None }).followed_by(
                walk_stack(pending_views(stack@), chains, *config),
            ),
            texts(lines@) == shown_lines(done, *config),
            output@ == tally(done, roots@.len()),
            done.len() + forest_size(stack_nodes(pending_views(stack@))) <= forest_size(roots@),
            forall|i: int|
                0 <= i < stack@.len() ==> (#[trigger] pending_views(stack@)[i]).line.depth
                    <= directories_among(done),
        decreases forest_size(stack_nodes(pending_views(stack@))),
    {
        let ghost before = pending_views(stack@);
        let ghost chain = chains.last();
        let ghost seen = done;
        let ghost shown = texts(lines@);
        let ghost node = *before.last().handle;
        let ghost line = before.last().line;
        let ghost below = before.drop_last();
        let ghost rest = walk_stack(below, chains.drop_last(), *config);
        let ghost own = Trace { visits: seq![line], failure: None };
        proof {
            assert(stack_nodes(before) =~= stack_nodes(below).push(node));
            lemma_forest_size_push(stack_nodes(below), node);
            lemma_directories_among_bounded(seen);
            chains = chains.drop_last();
            done = seen.push(line);
            assert(done.drop_last() =~= seen);
            lemma_directories_among_bounded(done);
            assert((Trace { visits: seen, failure: None }).followed_by(own).visits =~= done);
        }
        let visit = visit_next(&mut stack, &mut output, config).unwrap();
        match visit.text {
            Some(text) => {
                lines.push(text);
                assert(texts(lines@) =~= shown.push(text@));
            },
            None => {},
        }
        if !visit.expand {
            proof {
                lemma_followed_by_associative(Trace { visits: seen, failure: None }, own, rest);
            }
            continue ;
        }
        match &visit.handle.listing {
            None => {
                let path = visit.line.path.text.clone();
                return Report { lines, result: Err(FilesystemError { path }) };
            },
            Some(children) => {
                add_children(&visit.line, entries_of(children), config, &mut stack);
                proof {
                    let kids = shown_children(node, *config);
                    let longer = chain.push(line.is_last_child);
                    let pushed = child_pendings(line, kids);
                    assert(pushed.take(kids.len() as int) =~= pushed);
                    lemma_walk_stack_children(
                        below,
                        chains,
                        node,
                        chain,
                        line.is_last_child,
                        *config,
                        kids.len(),
                    );
                    lemma_stack_matches_children(
                        below,
                        chains,
                        node,
                        chain,
                        line.is_last_child,
                        *config,
                    );
                    chains = chains + Seq::new(kids.len(), |i: int| longer);
                    let walked = walk_children(node, kids.len(), longer, *config);
                    lemma_followed_by_associative(own, walked, rest);
                    lemma_followed_by_associative(
                        Trace { visits: seen, failure: None },
                        own,
                        walked.followed_by(rest),
                    );
                    lemma_shown_children_size(node, *config);
                    assert(stack_nodes(below + pushed) =~= stack_nodes(below) + handles(kids));
                    lemma_forest_size_concat(stack_nodes(below), handles(kids));
                }
            },
        }
    }
    Report { lines, result: Ok(output) }
}

/// The number of lines of a stack that are marked as last child.
pub open spec fn last_children<T>(stack: Seq<PendingView<T>>) -> nat
    decreases stack.len(),
{
    if stack.len() == 0 {
        0
    } else {
        last_children(stack.drop_last()) + if stack.last().line.is_last_child {
            1nat
        } else {
            0nat
        }
    }
}

/// Of the first children that are pushed for one directory exactly one is
/// marked as last child.
proof fn lemma_last_children_of_prefix<T>(
    parent: LineView,
    children: Seq<EntryView<T>>,
    upto: int,
)
    requires
        1 <= upto <= children.len(),
    ensures
        last_children(child_pendings(parent, children).take(upto)) == 1,
    decreases upto,
{
    let pushed = child_pendings(parent, children);
    if upto == 1 {
        assert(last_children(pushed.take(1).drop_last()) == 0);
    } else {
        lemma_last_children_of_prefix(parent, children, upto - 1);
        assert(pushed.take(upto).drop_last() =~= pushed.take(upto - 1));
    }
}

/// Of the children that are pushed for one directory, where there is any,
/// exactly one is marked as last child: the one that lies lowest, which is
/// popped and shown last. Its path sorts no later than that of any of its
/// siblings.
pub proof fn lemma_one_last_child<T>(
    parent: LineView,
    entries: Seq<EntryView<T>>,
    config: Config,
)
    requires
        arranged(entries, config).len() > 0,
    ensures
        last_children(child_pendings(parent, arranged(entries, config))) == 1,
        forall|i: int|
            0 <= i < arranged(entries, config).len() ==> ((#[trigger] child_pendings(
                parent,
                arranged(entries, config),
            )[i]).line.is_last_child <==> i == 0),
        forall|i: int|
            0 <= i < arranged(entries, config).len() ==> path_precedes(
                child_pendings(parent, arranged(entries, config))[0].line.path,
                (#[trigger] child_pendings(parent, arranged(entries, config))[i]).line.path,
            ),
{
    let children = arranged(entries, config);
    let pushed = child_pendings(parent, children);
    lemma_last_children_of_prefix(parent, children, children.len() as int);
    assert(pushed.take(children.len() as int) =~= pushed);
    lemma_sorted_by_path(kept(entries, config));
}

/// Where no kept entry of a directory sorts strictly later than another,
/// as where only one is kept, the one child that is marked as last child
/// also has the path that sorts last among its siblings.
pub proof fn lemma_last_child_sorts_last<T>(
    parent: LineView,
    entries: Seq<EntryView<T>>,
    config: Config,
)
    requires
        arranged(entries, config).len() > 0,
        forall|i: int, j: int|
            0 <= i < entries.len() && 0 <= j < entries.len() && is_listed(entries[i].path, config)
                && is_listed(entries[j].path, config) ==> entry_le(
                #[trigger] entries[i],
                #[trigger] entries[j],
            ),
    ensures
        last_children(child_pendings(parent, arranged(entries, config))) == 1,
        child_pendings(parent, arranged(entries, config))[0].line.is_last_child,
        forall|i: int|
            0 <= i < arranged(entries, config).len() ==> path_precedes(
                (#[trigger] child_pendings(parent, arranged(entries, config))[i]).line.path,
                child_pendings(parent, arranged(entries, config))[0].line.path,
            ),
{
    let children = arranged(entries, config);
    let pushed = child_pendings(parent, children);
    lemma_one_last_child(parent, entries, config);
    assert forall|i: int| 0 <= i < children.len() implies path_precedes(
        (#[trigger] pushed[i]).line.path,
        pushed[0].line.path,
    ) by {
        lemma_arranged_member(entries, config, i);
        lemma_arranged_member(entries, config, 0);
    }
}

/// Every child that is pushed for a directory lies one level below it,
/// whatever the depth.
pub proof fn lemma_children_lie_one_below<T>(
    parent: LineView,
    entries: Seq<EntryView<T>>,
    config: Config,
)
    ensures
        child_pendings(parent, arranged(entries, config)).len() == arranged(
            entries,
            config,
        ).len(),
        forall|i: int|
            0 <= i < arranged(entries, config).len() ==> (#[trigger] child_pendings(
                parent,
                arranged(entries, config),
            )[i]).line.depth == parent.depth + 1,
{
}

/// The children that are pushed for a directory, their order and their
/// marks, do not depend on the order in which its entries were enumerated,
/// where the entries are told apart by their paths.
pub proof fn lemma_children_in_any_order<T>(
    parent: LineView,
    first: Seq<EntryView<T>>,
    second: Seq<EntryView<T>>,
    config: Config,
)
    requires
        first.to_multiset() == second.to_multiset(),
        paths_identify(first),
    ensures
        child_pendings(parent, arranged(first, config)) == child_pendings(
            parent,
            arranged(second, config),
        ),
{
    lemma_arranged_in_any_order(first, second, config);
}

/// Where no two entries of a directory have one path, the paths of the
/// children that are pushed ascend strictly from the lowest up.
pub proof fn lemma_children_strictly_ascending<T>(
    parent: LineView,
    entries: Seq<EntryView<T>>,
    config: Config,
)
    requires
        paths_differ(entries),
    ensures
        forall|i: int, j: int|
            0 <= i < j < arranged(entries, config).len() ==> path_precedes(
                (#[trigger] child_pendings(parent, arranged(entries, config))[i]).line.path,
                (#[trigger] child_pendings(parent, arranged(entries, config))[j]).line.path,
            ) && !path_precedes(
                child_pendings(parent, arranged(entries, config))[j].line.path,
                child_pendings(parent, arranged(entries, config))[i].line.path,
            ),
{
    lemma_arranged_strictly_ascending(entries, config);
    let children = arranged(entries, config);
    let pushed = child_pendings(parent, children);
    assert forall|i: int, j: int| 0 <= i < j < children.len() implies path_precedes(
        (#[trigger] pushed[i]).line.path,
        (#[trigger] pushed[j]).line.path,
    ) && !path_precedes(pushed[j].line.path, pushed[i].line.path) by {
        assert(entry_le(children[i], children[j]) && !entry_le(children[j], children[i]));
    }
}

/// Two runs over one snapshot with one configuration put out the same
/// lines and end alike: with the same tallies, or at the same directory.
pub proof fn lemma_same_snapshot_same_report(
    roots: Seq<Node>,
    config: Config,
    first: Report,
    second: Report,
)
    requires
        reports(first, walk_roots(roots, config), roots.len(), config),
        reports(second, walk_roots(roots, config), roots.len(), config),
    ensures
        texts(first.lines@) == texts(second.lines@),
        first.result is Ok <==> second.result is Ok,
        first.result is Ok ==> first.result->Ok_0@ == second.result->Ok_0@,
        first.result is Err ==> first.result->Err_0.path@ == second.result->Err_0.path@,
{
}

} // verus!
