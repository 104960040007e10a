//! Telling the files that changed since the last run from those that did
//! not.
//!
//! A file is clean if the index of the last run holds its path under the
//! hash that its content has now. A clean file is carried forward: it goes
//! into the new index at once, unlinted. Every other file is dirty.

use crate::index::{
    lemma_with_records_paths, lemma_with_records_same, lemma_with_records_untouched, paths_of,
    with_records, FileHash, FileHashView, Index,
};
use crate::seqs::lemma_filter_keeps;
use vstd::prelude::*;

verus! {

/// The last run left `file` indexed under the hash that it has now.
pub open spec fn is_clean(old_index: Map<Seq<char>, Seq<char>>, file: FileHashView) -> bool {
    old_index.contains_key(file.path) && old_index[file.path] == file.hash
}

/// The test for a file that is carried forward.
pub open spec fn unchanged(old_index: Map<Seq<char>, Seq<char>>) -> spec_fn(FileHashView) -> bool {
    |file: FileHashView| is_clean(old_index, file)
}

/// The test for a file that has to be linted: it is new, or its content is
/// no longer what was indexed.
pub open spec fn changed(old_index: Map<Seq<char>, Seq<char>>) -> spec_fn(FileHashView) -> bool {
    |file: FileHashView| !is_clean(old_index, file)
}

/// The paths of the files that have to be linted, in the order in which the
/// files were found.
pub open spec fn dirty_paths(
    found: Seq<FileHashView>,
    old_index: Map<Seq<char>, Seq<char>>,
) -> Seq<Seq<char>> {
    paths_of(found.filter(changed(old_index)))
}

/// `new_index` after the clean files among `found` were carried forward
/// into it.
pub open spec fn carried_forward(
    new_index: Map<Seq<char>, Seq<char>>,
    found: Seq<FileHashView>,
    old_index: Map<Seq<char>, Seq<char>>,
) -> Map<Seq<char>, Seq<char>> {
    with_records(new_index, found.filter(unchanged(old_index)))
}

/// A path is dirty exactly if a file was found under it whose hash is not
/// the one the last run indexed it under.
pub proof fn lemma_dirty_paths(
    found: Seq<FileHashView>,
    old_index: Map<Seq<char>, Seq<char>>,
    path: Seq<char>,
)
    ensures
        dirty_paths(found, old_index).contains(path) <==> exists|i: int|
            0 <= i < found.len() && (#[trigger] found[i]).path == path && !is_clean(
                old_index,
                found[i],
            ),
{
    let stale = found.filter(changed(old_index));
    if dirty_paths(found, old_index).contains(path) {
        let k = choose|k: int| 0 <= k < stale.len() && paths_of(stale)[k] == path;
        assert(stale.contains(stale[k]));
        lemma_filter_keeps(found, changed(old_index), stale[k]);
        let i = choose|i: int| 0 <= i < found.len() && found[i] == stale[k];
        assert(found[i].path == path);
    }
    if exists|i: int|
        0 <= i < found.len() && (#[trigger] found[i]).path == path && !is_clean(
            old_index,
            found[i],
        ) {
        let i = choose|i: int|
            0 <= i < found.len() && (#[trigger] found[i]).path == path && !is_clean(
                old_index,
                found[i],
            );
        assert(found.contains(found[i]));
        lemma_filter_keeps(found, changed(old_index), found[i]);
        let k = choose|k: int| 0 <= k < stale.len() && stale[k] == found[i];
        assert(paths_of(stale)[k] == path);
    }
}

/// Carrying forward adds the clean files, each under the hash that it has
/// now and had before, and leaves every other path of the new index as it
/// was.
pub proof fn lemma_carried_forward(
    new_index: Map<Seq<char>, Seq<char>>,
    found: Seq<FileHashView>,
    old_index: Map<Seq<char>, Seq<char>>,
    path: Seq<char>,
)
    ensures
        ({
            let carried = exists|i: int|
                0 <= i < found.len() && (#[trigger] found[i]).path == path && is_clean(
                    old_index,
                    found[i],
                );
            let after = carried_forward(new_index, found, old_index);
            &&& after.contains_key(path) <==> carried || new_index.contains_key(path)
            &&& carried ==> after[path] == old_index[path]
            &&& !carried && new_index.contains_key(path) ==> after[path] == new_index[path]
        }),
{
    let kept = found.filter(unchanged(old_index));
    let carried = exists|i: int|
        0 <= i < found.len() && (#[trigger] found[i]).path == path && is_clean(
            old_index,
            found[i],
        );
    lemma_with_records_paths(new_index, kept, path);
    if paths_of(kept).contains(path) {
        let k = choose|k: int| 0 <= k < kept.len() && paths_of(kept)[k] == path;
        assert(kept.contains(kept[k]));
        lemma_filter_keeps(found, unchanged(old_index), kept[k]);
        let i = choose|i: int| 0 <= i < found.len() && found[i] == kept[k];
        assert(found[i].path == path && is_clean(old_index, found[i]));
    }
    if carried {
        let i = choose|i: int|
            0 <= i < found.len() && (#[trigger] found[i]).path == path && is_clean(
                old_index,
                found[i],
            );
        assert(found.contains(found[i]));
        lemma_filter_keeps(found, unchanged(old_index), found[i]);
        let k = choose|k: int| 0 <= k < kept.len() && kept[k] == found[i];
        assert(paths_of(kept)[k] == path);
        assert forall|j: int| 0 <= j < kept.len() && (#[trigger] kept[j]).path
            == path implies kept[j].hash == kept[k].hash by {
            assert(kept.contains(kept[j]));
            lemma_filter_keeps(found, unchanged(old_index), kept[j]);
        }
        lemma_with_records_same(new_index, kept, k);
    } else if new_index.contains_key(path) {
        lemma_with_records_untouched(new_index, kept, path);
    }
}

/// A file that is found once and has the hash it was indexed under is not
/// dirty: it goes into the new index as it is.
pub proof fn lemma_unchanged_file_is_carried_forward(
    new_index: Map<Seq<char>, Seq<char>>,
    found: Seq<FileHashView>,
    old_index: Map<Seq<char>, Seq<char>>,
    i: int,
)
    requires
        0 <= i < found.len(),
        is_clean(old_index, found[i]),
        forall|j: int| 0 <= j < found.len() && (#[trigger] found[j]).path == found[i].path ==> j == i,
    ensures
        !dirty_paths(found, old_index).contains(found[i].path),
        carried_forward(new_index, found, old_index).contains_key(found[i].path),
        carried_forward(new_index, found, old_index)[found[i].path] == found[i].hash,
{
    lemma_dirty_paths(found, old_index, found[i].path);
    lemma_carried_forward(new_index, found, old_index, found[i].path);
}

/// A file that is new, or whose hash is no longer the indexed one, is
/// dirty. If it is found once, it stays out of the new index until it is
/// written there.
pub proof fn lemma_changed_file_is_dirty(
    new_index: Map<Seq<char>, Seq<char>>,
    found: Seq<FileHashView>,
    old_index: Map<Seq<char>, Seq<char>>,
    i: int,
)
    requires
        0 <= i < found.len(),
        !is_clean(old_index, found[i]),
    ensures
        dirty_paths(found, old_index).contains(found[i].path),
        (forall|j: int| 0 <= j < found.len() && (#[trigger] found[j]).path == found[i].path ==> j == i)
            && !new_index.contains_key(found[i].path) ==> !carried_forward(
            new_index,
            found,
            old_index,
        ).contains_key(found[i].path),
{
    lemma_dirty_paths(found, old_index, found[i].path);
    lemma_carried_forward(new_index, found, old_index, found[i].path);
}

/// Sorts the files found for one extension, each with the hash of its
/// present content, into clean and dirty. The clean ones are written into
/// `new_index`; the paths of the dirty ones are returned.
pub fn dirty_files(found: Vec<FileHash>, old_index: &Index, new_index: &mut Index) -> (dirty: Vec<
    String,
>)
    ensures
        dirty.deep_view() == dirty_paths(found.deep_view(), old_index@),
        final(new_index)@ == carried_forward(old(new_index)@, found.deep_view(), old_index@),
{
    let ghost all = found.deep_view();
    let ghost stale = changed(old_index@);
    let ghost fresh = unchanged(old_index@);
    let mut dirty: Vec<String> = Vec::new();
    proof {
        reveal(Seq::filter);
        assert(all.take(0).filter(stale) =~= Seq::<FileHashView>::empty());
        assert(all.take(0).filter(fresh) =~= Seq::<FileHashView>::empty());
        assert(dirty.deep_view() =~= paths_of(all.take(0).filter(stale)));
    }
    for file in it: found.into_iter()
        invariant
            stale == changed(old_index@),
            fresh == unchanged(old_index@),
            it.seq().len() == all.len(),
            forall|i: int| 0 <= i < all.len() ==> (#[trigger] it.seq()[i])@ == all[i],
            dirty.deep_view() == paths_of(all.take(it.index()).filter(stale)),
            new_index@ == with_records(old(new_index)@, all.take(it.index()).filter(fresh)),
    {
        let ghost seen = all.take(it.index());
        let ghost listed = dirty.deep_view();
        proof {
            assert(all.take(it.index() + 1) =~= seen.push(file@));
            seen.lemma_filter_push(file@, stale);
            seen.lemma_filter_push(file@, fresh);
        }
        if old_index.holds(file.path.as_str(), &file.hash) {
            assert(seen.filter(fresh).push(file@).drop_last() =~= seen.filter(fresh));
            new_index.insert(file.path, file.hash);
        } else {
            dirty.push(file.path);
            assert(dirty.deep_view() =~= listed.push(file@.path));
            assert(dirty.deep_view() =~= paths_of(seen.filter(stale).push(file@)));
        }
    }
    assert(all.take(all.len() as int) =~= all);
    dirty
}

} // verus!
