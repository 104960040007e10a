//! A whole run, as seen from the index that it leaves.
//!
//! A run takes the extensions one after the other. For each it carries the
//! clean files forward, sends the dirty ones down the chain of linters, and
//! writes the files that pass every stage into the new index, each under
//! the hash of its content. The new index starts empty and replaces the old
//! one when the run is over.

use crate::detect::{carried_forward, changed, dirty_paths, is_clean, unchanged};
use crate::index::{
    lemma_with_records_joined, lemma_with_records_paths, lemma_with_records_same, paths_of,
    with_records, FileHashView,
};
use crate::seqs::{lemma_filter_keeps, lemma_filter_none, lemma_joined_holds};
use vstd::prelude::*;

verus! {

/// What a run does for one extension.
pub struct PassView {
    /// The files with this extension, each with the hash of its content.
    pub found: Seq<FileHashView>,
    /// The dirty files that passed every stage, each with the hash of its
    /// content when it was written into the index.
    pub kept: Seq<FileHashView>,
}

/// The new index after one more extension.
pub open spec fn after_pass(
    new_index: Map<Seq<char>, Seq<char>>,
    old_index: Map<Seq<char>, Seq<char>>,
    pass: PassView,
) -> Map<Seq<char>, Seq<char>> {
    with_records(carried_forward(new_index, pass.found, old_index), pass.kept)
}

/// The index that a run leaves.
pub open spec fn after_run(
    old_index: Map<Seq<char>, Seq<char>>,
    passes: Seq<PassView>,
) -> Map<Seq<char>, Seq<char>>
    decreases passes.len(),
{
    if passes.len() == 0 {
        Map::empty()
    } else {
        after_pass(after_run(old_index, passes.drop_last()), old_index, passes.last())
    }
}

/// Every record that a run writes, in the order of writing.
pub open spec fn written(old_index: Map<Seq<char>, Seq<char>>, passes: Seq<PassView>) -> Seq<
    FileHashView,
>
    decreases passes.len(),
{
    if passes.len() == 0 {
        Seq::empty()
    } else {
        written(old_index, passes.drop_last()) + passes.last().found.filter(unchanged(old_index))
            + passes.last().kept
    }
}

/// The index that a run leaves holds what the run wrote, and nothing else.
pub proof fn lemma_after_run(old_index: Map<Seq<char>, Seq<char>>, passes: Seq<PassView>)
    ensures
        after_run(old_index, passes) == with_records(Map::empty(), written(old_index, passes)),
    decreases passes.len(),
{
    if passes.len() > 0 {
        let front = passes.drop_last();
        let last = passes.last();
        lemma_after_run(old_index, front);
        let carried = last.found.filter(unchanged(old_index));
        lemma_with_records_joined(Map::empty(), written(old_index, front), carried);
        lemma_with_records_joined(Map::empty(), written(old_index, front) + carried, last.kept);
    }
}

/// A file that is dirty and does not pass the chain is not in the index
/// after its extension is done, unless it was there before.
pub proof fn lemma_dropped_file_is_not_indexed(
    new_index: Map<Seq<char>, Seq<char>>,
    old_index: Map<Seq<char>, Seq<char>>,
    pass: PassView,
    i: int,
)
    requires
        0 <= i < pass.found.len(),
        !is_clean(old_index, pass.found[i]),
        forall|j: int|
            0 <= j < pass.found.len() && (#[trigger] pass.found[j]).path == pass.found[i].path
                ==> j == i,
        !paths_of(pass.kept).contains(pass.found[i].path),
        !new_index.contains_key(pass.found[i].path),
    ensures
        !after_pass(new_index, old_index, pass).contains_key(pass.found[i].path),
{
    let path = pass.found[i].path;
    crate::detect::lemma_carried_forward(new_index, pass.found, old_index, path);
    lemma_with_records_paths(carried_forward(new_index, pass.found, old_index), pass.kept, path);
}

/// A file that passes the chain is indexed under the hash that it was
/// written with.
pub proof fn lemma_kept_file_is_indexed(
    new_index: Map<Seq<char>, Seq<char>>,
    old_index: Map<Seq<char>, Seq<char>>,
    pass: PassView,
    i: int,
)
    requires
        0 <= i < pass.kept.len(),
        forall|j: int|
            0 <= j < pass.kept.len() && (#[trigger] pass.kept[j]).path == pass.kept[i].path ==> j
                == i,
    ensures
        after_pass(new_index, old_index, pass).contains_key(pass.kept[i].path),
        after_pass(new_index, old_index, pass)[pass.kept[i].path] == pass.kept[i].hash,
{
    lemma_with_records_same(carried_forward(new_index, pass.found, old_index), pass.kept, i);
}

/// The record was written for one of the passes: carried forward from what
/// was found, or kept after the chain.
pub open spec fn written_in(
    old_index: Map<Seq<char>, Seq<char>>,
    passes: Seq<PassView>,
    record: FileHashView,
) -> bool {
    exists|i: int|
        0 <= i < passes.len() && (((#[trigger] passes[i]).found.contains(record) && is_clean(
            old_index,
            record,
        )) || passes[i].kept.contains(record))
}

/// What a run writes is what its passes carry forward and keep.
pub proof fn lemma_written(
    old_index: Map<Seq<char>, Seq<char>>,
    passes: Seq<PassView>,
    record: FileHashView,
)
    ensures
        written(old_index, passes).contains(record) <==> written_in(old_index, passes, record),
    decreases passes.len(),
{
    if passes.len() > 0 {
        let front = passes.drop_last();
        let last = passes.last();
        let carried = last.found.filter(unchanged(old_index));
        lemma_written(old_index, front, record);
        lemma_joined_holds(written(old_index, front), carried, record);
        lemma_joined_holds(written(old_index, front) + carried, last.kept, record);
        lemma_filter_keeps(last.found, unchanged(old_index), record);
        if written_in(old_index, front, record) {
            let i = choose|i: int|
                0 <= i < front.len() && (((#[trigger] front[i]).found.contains(record) && is_clean(
                    old_index,
                    record,
                )) || front[i].kept.contains(record));
            assert(passes[i] == front[i]);
        }
        if written_in(old_index, passes, record) {
            let i = choose|i: int|
                0 <= i < passes.len() && (((#[trigger] passes[i]).found.contains(record)
                    && is_clean(old_index, record)) || passes[i].kept.contains(record));
            if i < front.len() {
                assert(front[i] == passes[i]);
            }
        }
        assert(passes[passes.len() - 1] == last);
    }
}

/// The record is among the files of the tree.
pub open spec fn in_tree(tree: Seq<Seq<FileHashView>>, record: FileHashView) -> bool {
    exists|i: int| 0 <= i < tree.len() && (#[trigger] tree[i]).contains(record)
}

/// The tree holds each path with one content: two records for one path
/// have one hash.
pub open spec fn settled(tree: Seq<Seq<FileHashView>>) -> bool {
    forall|a: FileHashView, b: FileHashView|
        in_tree(tree, a) && in_tree(tree, b) && a.path == b.path ==> a.hash == b.hash
}

/// The passes of a run over `tree` during which no file changes and no
/// linter reports on a file: every dirty file is kept, under the hash that
/// it was found with.
pub open spec fn undisturbed(
    old_index: Map<Seq<char>, Seq<char>>,
    tree: Seq<Seq<FileHashView>>,
) -> Seq<PassView> {
    tree.map_values(
        |found: Seq<FileHashView>| PassView { found, kept: found.filter(changed(old_index)) },
    )
}

/// The passes of a run over `tree` that lints nothing.
pub open spec fn idle(tree: Seq<Seq<FileHashView>>) -> Seq<PassView> {
    tree.map_values(|found: Seq<FileHashView>| PassView { found, kept: Seq::empty() })
}

/// A path is among the paths of some records exactly if one of the records
/// names it.
proof fn lemma_paths_of(records: Seq<FileHashView>, path: Seq<char>)
    ensures
        paths_of(records).contains(path) <==> exists|r: FileHashView|
            records.contains(r) && r.path == path,
{
    if paths_of(records).contains(path) {
        let k = choose|k: int| 0 <= k < records.len() && paths_of(records)[k] == path;
        assert(records.contains(records[k]) && records[k].path == path);
    }
    if exists|r: FileHashView| records.contains(r) && r.path == path {
        let r = choose|r: FileHashView| records.contains(r) && r.path == path;
        let k = choose|k: int| 0 <= k < records.len() && records[k] == r;
        assert(paths_of(records)[k] == path);
    }
}

/// Records taken from a settled tree index each of their files under the
/// hash that the tree has for it.
proof fn lemma_index_of_tree(
    tree: Seq<Seq<FileHashView>>,
    records: Seq<FileHashView>,
    record: FileHashView,
)
    requires
        settled(tree),
        forall|r: FileHashView| records.contains(r) ==> in_tree(tree, r),
        records.contains(record),
    ensures
        with_records(Map::empty(), records).contains_key(record.path),
        with_records(Map::empty(), records)[record.path] == record.hash,
{
    let k = choose|k: int| 0 <= k < records.len() && records[k] == record;
    assert forall|j: int|
        0 <= j < records.len() && (#[trigger] records[j]).path
            == records[k].path implies records[j].hash == records[k].hash by {
        assert(records.contains(records[j]));
        assert(in_tree(tree, records[j]) && in_tree(tree, record));
    }
    lemma_with_records_same(Map::empty(), records, k);
}

/// A run that nothing disturbs writes every file of the tree.
proof fn lemma_undisturbed_writes_all(
    old_index: Map<Seq<char>, Seq<char>>,
    tree: Seq<Seq<FileHashView>>,
    record: FileHashView,
)
    ensures
        written(old_index, undisturbed(old_index, tree)).contains(record) <==> in_tree(
            tree,
            record,
        ),
{
    let passes = undisturbed(old_index, tree);
    lemma_written(old_index, passes, record);
    if written_in(old_index, passes, record) {
        let i = choose|i: int|
            0 <= i < passes.len() && (((#[trigger] passes[i]).found.contains(record) && is_clean(
                old_index,
                record,
            )) || passes[i].kept.contains(record));
        lemma_filter_keeps(tree[i], changed(old_index), record);
        assert(tree[i].contains(record));
    }
    if in_tree(tree, record) {
        let i = choose|i: int| 0 <= i < tree.len() && (#[trigger] tree[i]).contains(record);
        lemma_filter_keeps(tree[i], changed(old_index), record);
        assert(passes[i].found == tree[i]);
        assert((passes[i].found.contains(record) && is_clean(old_index, record))
            || passes[i].kept.contains(record));
    }
}

/// A run that finds every file clean writes every file of the tree.
proof fn lemma_idle_writes_all(
    index: Map<Seq<char>, Seq<char>>,
    tree: Seq<Seq<FileHashView>>,
    record: FileHashView,
)
    requires
        forall|r: FileHashView| in_tree(tree, r) ==> is_clean(index, r),
    ensures
        written(index, idle(tree)).contains(record) <==> in_tree(tree, record),
{
    let passes = idle(tree);
    lemma_written(index, passes, record);
    if written_in(index, passes, record) {
        let i = choose|i: int|
            0 <= i < passes.len() && (((#[trigger] passes[i]).found.contains(record) && is_clean(
                index,
                record,
            )) || passes[i].kept.contains(record));
        assert(tree[i].contains(record));
    }
    if in_tree(tree, record) {
        let i = choose|i: int| 0 <= i < tree.len() && (#[trigger] tree[i]).contains(record);
        assert(passes[i].found == tree[i]);
        assert(passes[i].found.contains(record) && is_clean(index, record));
    }
}

/// A run is idempotent. After a run that nothing disturbed, a second run
/// over the same tree finds no dirty file for any extension, so that it
/// has nothing to lint, and it leaves the index that it started from.
pub proof fn lemma_second_run_is_idle(
    old_index: Map<Seq<char>, Seq<char>>,
    tree: Seq<Seq<FileHashView>>,
)
    requires
        settled(tree),
    ensures
        ({
            let first = after_run(old_index, undisturbed(old_index, tree));
            &&& forall|i: int|
                0 <= i < tree.len() ==> #[trigger] dirty_paths(tree[i], first) == Seq::<
                    Seq<char>,
                >::empty()
            &&& after_run(first, idle(tree)) == first
        }),
{
    let first = after_run(old_index, undisturbed(old_index, tree));
    let wrote = written(old_index, undisturbed(old_index, tree));
    lemma_after_run(old_index, undisturbed(old_index, tree));
    assert forall|r: FileHashView| wrote.contains(r) <==> in_tree(tree, r) by {
        lemma_undisturbed_writes_all(old_index, tree, r);
    }
    assert forall|r: FileHashView| in_tree(tree, r) implies is_clean(first, r) by {
        lemma_index_of_tree(tree, wrote, r);
    }
    assert forall|i: int| 0 <= i < tree.len() implies #[trigger] dirty_paths(tree[i], first)
        == Seq::<Seq<char>>::empty() by {
        assert forall|k: int| 0 <= k < tree[i].len() implies !changed(first)(
            #[trigger] tree[i][k],
        ) by {
            assert(tree[i].contains(tree[i][k]));
            assert(in_tree(tree, tree[i][k]));
        }
        lemma_filter_none(tree[i], changed(first));
        assert(paths_of(Seq::<FileHashView>::empty()) =~= Seq::<Seq<char>>::empty());
    }
    let again = written(first, idle(tree));
    let second = after_run(first, idle(tree));
    lemma_after_run(first, idle(tree));
    assert forall|r: FileHashView| again.contains(r) <==> in_tree(tree, r) by {
        lemma_idle_writes_all(first, tree, r);
    }
    assert forall|p: Seq<char>| second.contains_key(p) <==> first.contains_key(p) by {
        lemma_with_records_paths(Map::empty(), wrote, p);
        lemma_with_records_paths(Map::empty(), again, p);
        lemma_paths_of(wrote, p);
        lemma_paths_of(again, p);
    }
    assert forall|p: Seq<char>| first.contains_key(p) implies second[p] == first[p] by {
        lemma_with_records_paths(Map::empty(), wrote, p);
        lemma_paths_of(wrote, p);
        let r = choose|r: FileHashView| wrote.contains(r) && r.path == p;
        lemma_index_of_tree(tree, wrote, r);
        lemma_index_of_tree(tree, again, r);
    }
    assert(second =~= first);
}

} // verus!
