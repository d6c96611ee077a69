//! The entries of a directory: which of them are kept, and in what order.

use vstd::prelude::*;
use crate::config::Config;
use crate::path::{path_le, path_precedes, PathInfo, PathView};
use crate::path::{
    lemma_bytes_le_antisymmetric, lemma_bytes_le_total, lemma_bytes_le_transitive,
};
use crate::utils::is_hidden;

verus! {

/// One entry of a directory as it was enumerated: its path, and a handle
/// that the engine carries along untouched, for whoever enumerates later.
pub struct Entry<T> {
    pub path: PathInfo,
    pub handle: T,
}

/// The mathematical value of an [`Entry`].
pub ghost struct EntryView<T> {
    pub path: PathView,
    pub handle: T,
}

impl<T> View for Entry<T> {
    type V = EntryView<T>;

    open spec fn view(&self) -> EntryView<T> {
        EntryView { path: self.path@, handle: self.handle }
    }
}

/// The value of each entry of a sequence.
pub open spec fn entry_views<T>(entries: Seq<Entry<T>>) -> Seq<EntryView<T>> {
    entries.map_values(|e: Entry<T>| e@)
}

/// Whether an enumerated entry is kept: hidden entries only where they are
/// asked for, and nothing but directories where only those are.
pub open spec fn is_listed(path: PathView, config: Config) -> bool {
    &&& config.print_hidden || !path.hidden()
    &&& config.only_show_directories ==> path.is_dir
}

/// The entries that are kept, in the order they came in.
pub open spec fn kept<T>(entries: Seq<EntryView<T>>, config: Config) -> Seq<EntryView<T>>
    decreases entries.len(),
{
    if entries.len() == 0 {
        Seq::empty()
    } else {
        let before = kept(entries.drop_last(), config);
        if is_listed(entries.last().path, config) {
            before.push(entries.last())
        } else {
            before
        }
    }
}

/// Whether `a` sorts no later than `b`.
pub open spec fn entry_le<T>(a: EntryView<T>, b: EntryView<T>) -> bool {
    path_precedes(a.path, b.path)
}

/// `entry` put into `sorted` behind the last entry that sorts no later.
pub open spec fn inserted<T>(sorted: Seq<EntryView<T>>, entry: EntryView<T>) -> Seq<EntryView<T>>
    decreases sorted.len(),
{
    if sorted.len() == 0 || entry_le(sorted.last(), entry) {
        sorted.push(entry)
    } else {
        inserted(sorted.drop_last(), entry).push(sorted.last())
    }
}

/// The entries in ascending order of path; entries with one path keep the
/// order they came in.
pub open spec fn sorted_by_path<T>(entries: Seq<EntryView<T>>) -> Seq<EntryView<T>>
    decreases entries.len(),
{
    if entries.len() == 0 {
        Seq::empty()
    } else {
        inserted(sorted_by_path(entries.drop_last()), entries.last())
    }
}

/// The children of a directory as they are pushed: those that are kept, in
/// ascending order of path.
pub open spec fn arranged<T>(entries: Seq<EntryView<T>>, config: Config) -> Seq<EntryView<T>> {
    sorted_by_path(kept(entries, config))
}

/// Whether each entry sorts no later than every entry behind it.
pub open spec fn is_ascending<T>(entries: Seq<EntryView<T>>) -> bool {
    forall|i: int, j: int|
        0 <= i <= j < entries.len() ==> entry_le(#[trigger] entries[i], #[trigger] entries[j])
}

/// Of two entries one sorts no later than the other.
pub proof fn lemma_entry_le_total<T>(a: EntryView<T>, b: EntryView<T>)
    ensures
        entry_le(a, b) || entry_le(b, a),
{
    lemma_bytes_le_total(a.path.bytes, b.path.bytes);
}

/// What sorts no later than a second, which sorts no later than a third,
/// sorts no later than the third.
pub proof fn lemma_entry_le_transitive<T>(a: EntryView<T>, b: EntryView<T>, c: EntryView<T>)
    requires
        entry_le(a, b),
        entry_le(b, c),
    ensures
        entry_le(a, c),
{
    lemma_bytes_le_transitive(
        a.path.bytes,
        b.path.bytes,
        c.path.bytes,
    );
}

/// Where `entry` is put: at `at`, when everything from there on sorts
/// strictly later and the entry before does not.
pub proof fn lemma_inserted_at<T>(sorted: Seq<EntryView<T>>, entry: EntryView<T>, at: int)
    requires
        0 <= at <= sorted.len(),
        forall|j: int| at <= j < sorted.len() ==> !entry_le(#[trigger] sorted[j], entry),
        at > 0 ==> entry_le(sorted[at - 1], entry),
    ensures
        inserted(sorted, entry) == sorted.insert(at, entry),
    decreases sorted.len(),
{
    if at < sorted.len() {
        lemma_inserted_at(sorted.drop_last(), entry, at);
    }
}

/// Inserting adds one entry and moves none out.
pub proof fn lemma_inserted_contents<T>(sorted: Seq<EntryView<T>>, entry: EntryView<T>)
    ensures
        inserted(sorted, entry).len() == sorted.len() + 1,
        inserted(sorted, entry).to_multiset() == sorted.to_multiset().insert(entry),
    decreases sorted.len(),
{
    broadcast use vstd::seq_lib::group_to_multiset_ensures;

    if sorted.len() > 0 && !entry_le(sorted.last(), entry) {
        lemma_inserted_contents(sorted.drop_last(), entry);
        assert(sorted =~= sorted.drop_last().push(sorted.last()));
    }
}

/// Inserting into an ascending sequence leaves it ascending.
pub proof fn lemma_inserted_ascending<T>(sorted: Seq<EntryView<T>>, entry: EntryView<T>)
    requires
        is_ascending(sorted),
    ensures
        is_ascending(inserted(sorted, entry)),
    decreases sorted.len(),
{
    let out = inserted(sorted, entry);
    if sorted.len() == 0 {
        lemma_entry_le_total(entry, entry);
    } else if entry_le(sorted.last(), entry) {
        lemma_entry_le_total(entry, entry);
        assert forall|i: int, j: int| 0 <= i <= j < out.len() implies entry_le(
            #[trigger] out[i],
            #[trigger] out[j],
        ) by {
            if j == sorted.len() && i < j {
                lemma_entry_le_transitive(sorted[i], sorted.last(), entry);
            }
        }
    } else {
        let front = sorted.drop_last();
        lemma_inserted_ascending(front, entry);
        lemma_inserted_contents(front, entry);
        let mid = inserted(front, entry);
        lemma_entry_le_total(sorted.last(), entry);
        assert forall|i: int, j: int| 0 <= i <= j < out.len() implies entry_le(
            #[trigger] out[i],
            #[trigger] out[j],
        ) by {
            if j == mid.len() {
                if i == j {
                    lemma_entry_le_total(out[i], out[i]);
                } else {
                    lemma_inserted_member(front, entry, i);
                }
            }
        }
    }
}

/// Each entry of the result of an insertion is the new one or one that was there.
pub proof fn lemma_inserted_member<T>(sorted: Seq<EntryView<T>>, entry: EntryView<T>, i: int)
    requires
        0 <= i < inserted(sorted, entry).len(),
    ensures
        inserted(sorted, entry)[i] == entry || exists|k: int|
            0 <= k < sorted.len() && sorted[k] == inserted(sorted, entry)[i],
    decreases sorted.len(),
{
    if sorted.len() > 0 && !entry_le(sorted.last(), entry) {
        lemma_inserted_contents(sorted.drop_last(), entry);
        if i < sorted.len() {
            lemma_inserted_member(sorted.drop_last(), entry, i);
        }
    }
}

/// Sorting yields an ascending sequence of the same entries.
pub proof fn lemma_sorted_by_path<T>(entries: Seq<EntryView<T>>)
    ensures
        is_ascending(sorted_by_path(entries)),
        sorted_by_path(entries).len() == entries.len(),
        sorted_by_path(entries).to_multiset() == entries.to_multiset(),
    decreases entries.len(),
{
    broadcast use vstd::seq_lib::group_to_multiset_ensures;

    if entries.len() > 0 {
        lemma_sorted_by_path(entries.drop_last());
        lemma_inserted_ascending(sorted_by_path(entries.drop_last()), entries.last());
        lemma_inserted_contents(sorted_by_path(entries.drop_last()), entries.last());
        assert(entries =~= entries.drop_last().push(entries.last()));
    }
}

/// Each sorted entry is one of the entries that were given.
pub proof fn lemma_sorted_member<T>(entries: Seq<EntryView<T>>, i: int)
    requires
        0 <= i < sorted_by_path(entries).len(),
    ensures
        exists|k: int| 0 <= k < entries.len() && entries[k] == sorted_by_path(entries)[i],
    decreases entries.len(),
{
    if entries.len() > 0 {
        let front = entries.drop_last();
        let mid = sorted_by_path(front);
        lemma_inserted_member(mid, entries.last(), i);
        if inserted(mid, entries.last())[i] != entries.last() {
            let m = choose|m: int| 0 <= m < mid.len() && mid[m] == inserted(mid, entries.last())[i];
            lemma_sorted_member(front, m);
        }
    }
}

/// Each kept entry is one of the entries that were given and is listed; no
/// more are kept than were given.
pub proof fn lemma_kept_member<T>(entries: Seq<EntryView<T>>, config: Config, i: int)
    requires
        0 <= i < kept(entries, config).len(),
    ensures
        kept(entries, config).len() <= entries.len(),
        is_listed(kept(entries, config)[i].path, config),
        exists|k: int| 0 <= k < entries.len() && entries[k] == kept(entries, config)[i],
    decreases entries.len(),
{
    if entries.len() > 0 {
        let front = entries.drop_last();
        let before = kept(front, config);
        if i < before.len() {
            lemma_kept_member(front, config, i);
        } else if before.len() > 0 {
            lemma_kept_member(front, config, 0);
        }
    }
}

/// Each arranged entry is listed and is one of the entries that were given.
pub proof fn lemma_arranged_member<T>(entries: Seq<EntryView<T>>, config: Config, i: int)
    requires
        0 <= i < arranged(entries, config).len(),
    ensures
        is_listed(arranged(entries, config)[i].path, config),
        exists|k: int| 0 <= k < entries.len() && entries[k] == arranged(entries, config)[i],
{
    let some = kept(entries, config);
    lemma_sorted_member(some, i);
    let m = choose|m: int| 0 <= m < some.len() && some[m] == sorted_by_path(some)[i];
    lemma_kept_member(entries, config, m);
}

/// Whether entries with one path are one entry: the entries are told apart
/// by their paths.
pub open spec fn paths_identify<T>(entries: Seq<EntryView<T>>) -> bool {
    forall|i: int, j: int|
        0 <= i < entries.len() && 0 <= j < entries.len() && (#[trigger] entries[i]).path.bytes == (
        #[trigger] entries[j]).path.bytes ==> entries[i] == entries[j]
}

/// Whether no two of the entries have one path, as in what a directory
/// holds.
pub open spec fn paths_differ<T>(entries: Seq<EntryView<T>>) -> bool {
    forall|i: int, j: int|
        0 <= i < entries.len() && 0 <= j < entries.len() && i != j ==> (
        #[trigger] entries[i]).path.bytes != (#[trigger] entries[j]).path.bytes
}

/// Two entries of which each sorts no later than the other have one path.
pub proof fn lemma_entry_le_antisymmetric<T>(a: EntryView<T>, b: EntryView<T>)
    requires
        entry_le(a, b),
        entry_le(b, a),
    ensures
        a.path.bytes == b.path.bytes,
{
    lemma_bytes_le_antisymmetric(a.path.bytes, b.path.bytes);
}

/// An entry is kept as often as it was given where it is listed, and not at
/// all where it is not.
pub proof fn lemma_kept_count<T>(entries: Seq<EntryView<T>>, config: Config, entry: EntryView<T>)
    ensures
        kept(entries, config).to_multiset().count(entry) == if is_listed(entry.path, config) {
            entries.to_multiset().count(entry)
        } else {
            0
        },
    decreases entries.len(),
{
    broadcast use vstd::seq_lib::group_to_multiset_ensures;
    broadcast use vstd::multiset::group_multiset_axioms;

    if entries.len() > 0 {
        let front = entries.drop_last();
        lemma_kept_count(front, config, entry);
        assert(entries =~= front.push(entries.last()));
    }
}

/// An ascending sequence is fixed by what it holds, where entries that tie
/// are one entry.
pub proof fn lemma_ascending_unique<T>(first: Seq<EntryView<T>>, second: Seq<EntryView<T>>)
    requires
        is_ascending(first),
        is_ascending(second),
        first.to_multiset() == second.to_multiset(),
        paths_identify(first),
    ensures
        first == second,
    decreases first.len(),
{
    broadcast use vstd::seq_lib::group_to_multiset_ensures;
    broadcast use vstd::multiset::group_multiset_axioms;

    vstd::seq_lib::to_multiset_len(first);
    vstd::seq_lib::to_multiset_len(second);
    if first.len() > 0 {
        let x = first.last();
        let y = second.last();
        // each of the two last entries occurs in the other sequence, no later than its last
        assert(second.to_multiset().count(x) > 0);
        assert(first.to_multiset().count(y) > 0);
        lemma_entry_le_antisymmetric(x, y);
        let front = first.drop_last();
        let other = second.drop_last();
        assert(first =~= front.push(x));
        assert(second =~= other.push(x));
        assert(front.to_multiset() =~= other.to_multiset()) by {
            assert forall|v: EntryView<T>| front.to_multiset().count(v) == other.to_multiset().count(
                v,
            ) by {
                assert(front.to_multiset().insert(x).count(v) == other.to_multiset().insert(x).count(
                    v,
                ));
            }
        }
        assert(is_ascending(front));
        assert(is_ascending(other));
        assert(paths_identify(front));
        lemma_ascending_unique(front, other);
    }
}

/// The children of a directory are arranged in one way, in whatever order
/// its entries were enumerated, where the entries are told apart by their
/// paths.
pub proof fn lemma_arranged_in_any_order<T>(
    first: Seq<EntryView<T>>,
    second: Seq<EntryView<T>>,
    config: Config,
)
    requires
        first.to_multiset() == second.to_multiset(),
        paths_identify(first),
    ensures
        arranged(first, config) == arranged(second, config),
{
    broadcast use vstd::seq_lib::group_to_multiset_ensures;

    let a = arranged(first, config);
    let b = arranged(second, config);
    lemma_sorted_by_path(kept(first, config));
    lemma_sorted_by_path(kept(second, config));
    assert(kept(first, config).to_multiset() =~= kept(second, config).to_multiset()) by {
        assert forall|v: EntryView<T>|
            kept(first, config).to_multiset().count(v) == kept(second, config).to_multiset().count(
                v,
            ) by {
            lemma_kept_count(first, config, v);
            lemma_kept_count(second, config, v);
        }
    }
    assert(paths_identify(a)) by {
        assert forall|i: int, j: int|
            0 <= i < a.len() && 0 <= j < a.len() && (#[trigger] a[i]).path.bytes == (
            #[trigger] a[j]).path.bytes implies a[i] == a[j] by {
            lemma_arranged_member(first, config, i);
            lemma_arranged_member(first, config, j);
        }
    }
    lemma_ascending_unique(a, b);
}

/// Where no two entries of a directory have one path, the children are
/// arranged strictly ascending: each sorts before every one behind it.
pub proof fn lemma_arranged_strictly_ascending<T>(entries: Seq<EntryView<T>>, config: Config)
    requires
        paths_differ(entries),
    ensures
        forall|i: int, j: int|
            0 <= i < j < arranged(entries, config).len() ==> entry_le(
                #[trigger] arranged(entries, config)[i],
                #[trigger] arranged(entries, config)[j],
            ) && !entry_le(arranged(entries, config)[j], arranged(entries, config)[i]),
{
    broadcast use vstd::seq_lib::group_to_multiset_ensures;
    broadcast use vstd::multiset::group_multiset_axioms;

    let a = arranged(entries, config);
    lemma_sorted_by_path(kept(entries, config));
    entries.lemma_multiset_has_no_duplicates();
    assert forall|v: EntryView<T>| a.to_multiset().contains(v) implies a.to_multiset().count(v)
        == 1 by {
        lemma_kept_count(entries, config, v);
    }
    a.lemma_multiset_has_no_duplicates_conv();
    assert forall|i: int, j: int| 0 <= i < j < a.len() implies entry_le(
        #[trigger] a[i],
        #[trigger] a[j],
    ) && !entry_le(a[j], a[i]) by {
        if entry_le(a[j], a[i]) {
            lemma_entry_le_antisymmetric(a[i], a[j]);
            lemma_arranged_member(entries, config, i);
            lemma_arranged_member(entries, config, j);
        }
    }
}

/// The entries that are kept, in the order they came in.
pub fn filter_children<T>(paths: Vec<Entry<T>>, config: &Config) -> (r: Vec<Entry<T>>)
    ensures
        entry_views(r@) == kept(entry_views(paths@), *config),
{
    let mut out: Vec<Entry<T>> = Vec::new();
    let ghost all = entry_views(paths@);
    for entry in it: paths
        invariant
            it.seq() == paths@,
            all == entry_views(paths@),
            entry_views(out@) == kept(all.take(it.index() as int), *config),
    {
        let ghost k = it.index() as int;
        let ghost before = entry_views(out@);
        proof {
            assert(all.take(k + 1).drop_last() =~= all.take(k));
        }
        let listed = (config.print_hidden || !is_hidden(&entry.path)) && (
        !config.only_show_directories || entry.path.is_dir);
        if listed {
            out.push(entry);
        }
    }
    assert(all.take(all.len() as int) =~= all);
    out
}

/// The entries in ascending order of path. Each entry is put in its place
/// among those before it, which is found by halving.
pub fn sort_by_path<T>(entries: Vec<Entry<T>>) -> (r: Vec<Entry<T>>)
    ensures
        entry_views(r@) == sorted_by_path(entry_views(entries@)),
{
    let mut out: Vec<Entry<T>> = Vec::new();
    let ghost all = entry_views(entries@);
    for entry in it: entries
        invariant
            it.seq() == entries@,
            all == entry_views(entries@),
            entry_views(out@) == sorted_by_path(all.take(it.index() as int)),
    {
        let ghost k = it.index() as int;
        let ghost before = entry_views(out@);
        proof {
            assert(all.take(k + 1).drop_last() =~= all.take(k));
        }
        proof {
            lemma_sorted_by_path(all.take(k));
        }
        let mut at: usize = 0;
        let mut end: usize = out.len();
        while at < end
            invariant
                at <= end <= out@.len(),
                before == entry_views(out@),
                is_ascending(before),
                forall|j: int| 0 <= j < at ==> entry_le(#[trigger] before[j], entry@),
                forall|j: int| end <= j < before.len() ==> !entry_le(#[trigger] before[j], entry@),
            decreases end - at,
        {
            let middle = at + (end - at) / 2;
            if path_le(&out[middle].path, &entry.path) {
                assert forall|j: int| 0 <= j < middle + 1 implies entry_le(
                    #[trigger] before[j],
                    entry@,
                ) by {
                    lemma_entry_le_transitive(before[j], before[middle as int], entry@);
                }
                at = middle + 1;
            } else {
                assert forall|j: int| middle <= j < before.len() implies !entry_le(
                    #[trigger] before[j],
                    entry@,
                ) by {
                    if entry_le(before[j], entry@) {
                        lemma_entry_le_transitive(before[middle as int], before[j], entry@);
                    }
                }
                end = middle;
            }
        }
        proof {
            lemma_inserted_at(before, entry@, at as int);
        }
        out.insert(at, entry);
    }
    assert(all.take(all.len() as int) =~= all);
    out
}

} // verus!
