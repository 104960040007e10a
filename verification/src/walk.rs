//! Walking a project tree with an explicit work-list of directories.
//!
//! The walker never touches the file system. Whoever drives it takes the
//! next directory from it, lists that directory, and hands the listing
//! back; the walker then says which of the listed files are to be looked
//! at and keeps the subdirectories for later.

use crate::seqs::{lemma_filter_keeps, lemma_filter_twice};
use crate::text::chars_of;
use vstd::prelude::*;
use vstd::string::StrSliceExecFns;

verus! {

/// `at` is the place of the last dot of `name`.
pub open spec fn is_last_dot(name: Seq<char>, at: int) -> bool {
    &&& 0 <= at < name.len()
    &&& name[at] == '.'
    &&& forall|j: int| at < j < name.len() ==> name[j] != '.'
}

/// The extension of a file name: what follows its last dot. A name without
/// a dot has the empty extension, and so has a name whose only dot is its
/// first character.
pub open spec fn extension(name: Seq<char>) -> Seq<char> {
    if exists|at: int| 0 < at && is_last_dot(name, at) {
        let at = choose|at: int| 0 < at && is_last_dot(name, at);
        name.subrange(at + 1, name.len() as int)
    } else {
        Seq::empty()
    }
}

/// The extension of `name`, without the dot.
pub fn extension_of(name: &str) -> (ext: String)
    ensures
        ext@ == extension(name@),
{
    let chars = chars_of(name);
    let mut end: usize = chars.len();
    while end > 0 && chars[end - 1] != '.'
        invariant
            end <= chars.len(),
            forall|j: int| end <= j < chars.len() ==> chars[j] != '.',
        decreases end,
    {
        end -= 1;
    }
    if end <= 1 {
        proof {
            assert forall|at: int| 0 < at implies !is_last_dot(name@, at) by {
                if is_last_dot(name@, at) && end == 1 {
                    assert(chars[0] == '.');
                }
            }
        }
        return String::new();
    }
    proof {
        let dot = end - 1;
        assert(0 < dot && is_last_dot(name@, dot));
        let at = choose|at: int| 0 < at && is_last_dot(name@, at);
        assert(at == dot) by {
            if at < dot {
                assert(name@[dot] == '.');
            }
        }
    }
    name.substring_char(end, chars.len()).to_owned()
}

/// One entry of a directory listing.
#[derive(Debug)]
pub struct Entry {
    /// The name of the entry inside its directory.
    pub name: String,
    /// The path under which the entry is reached from the root of the walk.
    pub path: String,
    /// Whether the entry is a directory.
    pub is_dir: bool,
}

/// What an `Entry` stands for.
pub struct EntryView {
    pub name: Seq<char>,
    pub path: Seq<char>,
    pub is_dir: bool,
}

impl View for Entry {
    type V = EntryView;

    open spec fn view(&self) -> EntryView {
        EntryView { name: self.name@, path: self.path@, is_dir: self.is_dir }
    }
}

impl DeepView for Entry {
    type V = EntryView;

    open spec fn deep_view(&self) -> EntryView {
        self@
    }
}

/// The paths of `entries`, in order.
pub open spec fn entry_paths(entries: Seq<EntryView>) -> Seq<Seq<char>> {
    entries.map_values(|e: EntryView| e.path)
}

/// An entry that the walk descends into: a directory whose name is not on
/// the ignore list.
pub open spec fn is_subdirectory(ignore: Seq<Seq<char>>) -> spec_fn(EntryView) -> bool {
    |e: EntryView| !ignore.contains(e.name) && e.is_dir
}

/// An entry that the walk hands out: a file with the wanted extension whose
/// name is not on the ignore list.
pub open spec fn is_candidate(wanted: Seq<char>, ignore: Seq<Seq<char>>) -> spec_fn(
    EntryView,
) -> bool {
    |e: EntryView| !ignore.contains(e.name) && !e.is_dir && extension(e.name) == wanted
}

/// The directories of a listing that remain to be walked, in listing order.
pub open spec fn subdirectories(entries: Seq<EntryView>, ignore: Seq<Seq<char>>) -> Seq<
    Seq<char>,
> {
    entry_paths(entries.filter(is_subdirectory(ignore)))
}

/// The files of a listing that are to be looked at, in listing order.
pub open spec fn candidates(
    entries: Seq<EntryView>,
    wanted: Seq<char>,
    ignore: Seq<Seq<char>>,
) -> Seq<Seq<char>> {
    entry_paths(entries.filter(is_candidate(wanted, ignore)))
}

/// The test for an entry whose name is not on the ignore list.
pub open spec fn heeded(ignore: Seq<Seq<char>>) -> spec_fn(EntryView) -> bool {
    |e: EntryView| !ignore.contains(e.name)
}

/// The ignore list comes first. An entry whose name is on it counts for
/// nothing, whatever its extension: a listing gives the same files and the
/// same directories as it gives with every such entry struck out.
pub proof fn lemma_ignored_entries_are_skipped(
    entries: Seq<EntryView>,
    wanted: Seq<char>,
    ignore: Seq<Seq<char>>,
)
    ensures
        candidates(entries, wanted, ignore) == candidates(
            entries.filter(heeded(ignore)),
            wanted,
            ignore,
        ),
        subdirectories(entries, ignore) == subdirectories(entries.filter(heeded(ignore)), ignore),
{
    lemma_filter_twice(entries, heeded(ignore), is_candidate(wanted, ignore));
    lemma_filter_twice(entries, heeded(ignore), is_subdirectory(ignore));
}

/// A path is handed out exactly if the listing holds a file under it that
/// has the wanted extension and a name that is not on the ignore list.
pub proof fn lemma_candidates(
    entries: Seq<EntryView>,
    wanted: Seq<char>,
    ignore: Seq<Seq<char>>,
    path: Seq<char>,
)
    ensures
        candidates(entries, wanted, ignore).contains(path) <==> exists|i: int|
            0 <= i < entries.len() && (#[trigger] entries[i]).path == path && !entries[i].is_dir
                && !ignore.contains(entries[i].name) && extension(entries[i].name) == wanted,
{
    let keep = is_candidate(wanted, ignore);
    let kept = entries.filter(keep);
    if candidates(entries, wanted, ignore).contains(path) {
        let k = choose|k: int| 0 <= k < kept.len() && entry_paths(kept)[k] == path;
        assert(kept.contains(kept[k]));
        lemma_filter_keeps(entries, keep, kept[k]);
        let i = choose|i: int| 0 <= i < entries.len() && entries[i] == kept[k];
        assert(entries[i].path == path);
    }
    if exists|i: int|
        0 <= i < entries.len() && (#[trigger] entries[i]).path == path && !entries[i].is_dir
            && !ignore.contains(entries[i].name) && extension(entries[i].name) == wanted {
        let i = choose|i: int|
            0 <= i < entries.len() && (#[trigger] entries[i]).path == path && !entries[i].is_dir
                && !ignore.contains(entries[i].name) && extension(entries[i].name) == wanted;
        assert(entries.contains(entries[i]));
        lemma_filter_keeps(entries, keep, entries[i]);
        let k = choose|k: int| 0 <= k < kept.len() && kept[k] == entries[i];
        assert(entry_paths(kept)[k] == path);
    }
}

/// Whether `name` is on the ignore list. Names are compared whole: an
/// entry is ignored for its own name, never for the directories above it.
pub fn is_ignored(name: &String, ignore: &Vec<String>) -> (ignored: bool)
    ensures
        ignored == ignore.deep_view().contains(name@),
{
    let mut i: usize = 0;
    while i < ignore.len()
        invariant
            i <= ignore.len(),
            forall|k: int| 0 <= k < i ==> ignore.deep_view()[k] != name@,
        decreases ignore.len() - i,
    {
        if ignore[i] == *name {
            assert(ignore.deep_view()[i as int] == name@);
            return true;
        }
        i += 1;
    }
    false
}

/// The directories that are still to be listed.
pub struct Walker {
    pending: Vec<String>,
}

impl View for Walker {
    type V = Seq<Seq<char>>;

    /// The work-list. The directory at its end is listed next.
    closed spec fn view(&self) -> Seq<Seq<char>> {
        self.pending.deep_view()
    }
}

impl Walker {
    /// A walk that starts at `root`.
    pub fn new(root: String) -> (walker: Walker)
        ensures
            walker@ == seq![root@],
    {
        let mut pending: Vec<String> = Vec::new();
        pending.push(root);
        let walker = Walker { pending };
        assert(walker@ =~= seq![root@]);
        walker
    }

    /// Takes the next directory off the work-list. The walk is over when
    /// there is none.
    pub fn next_dir(&mut self) -> (next: Option<String>)
        ensures
            match next {
                Some(dir) => old(self)@.len() > 0 && dir@ == old(self)@.last() && final(self)@
                    == old(self)@.drop_last(),
                None => old(self)@.len() == 0 && final(self)@ == old(self)@,
            },
    {
        let next = self.pending.pop();
        assert(next is Some ==> self@ =~= old(self)@.drop_last());
        next
    }

    /// Takes in the listing of a directory. Entries whose name is on the
    /// ignore list are passed over, directories and files alike. Of the
    /// others, the directories join the work-list and the files with the
    /// wanted extension are returned.
    pub fn visit(&mut self, entries: Vec<Entry>, wanted: &String, ignore: &Vec<String>) -> (files:
        Vec<String>)
        ensures
            final(self)@ == old(self)@ + subdirectories(entries.deep_view(), ignore.deep_view()),
            files.deep_view() == candidates(entries.deep_view(), wanted@, ignore.deep_view()),
    {
        let ghost all = entries.deep_view();
        let ghost descend = is_subdirectory(ignore.deep_view());
        let ghost keep = is_candidate(wanted@, ignore.deep_view());
        let mut files: Vec<String> = Vec::new();
        proof {
            reveal(Seq::filter);
            assert(all.take(0).filter(descend) =~= Seq::<EntryView>::empty());
            assert(all.take(0).filter(keep) =~= Seq::<EntryView>::empty());
            assert(self@ =~= old(self)@ + entry_paths(all.take(0).filter(descend)));
            assert(files.deep_view() =~= entry_paths(all.take(0).filter(keep)));
        }
        for entry in it: entries.into_iter()
            invariant
                descend == is_subdirectory(ignore.deep_view()),
                keep == is_candidate(wanted@, ignore.deep_view()),
                it.seq().len() == all.len(),
                forall|i: int| 0 <= i < all.len() ==> (#[trigger] it.seq()[i])@ == all[i],
                self@ == old(self)@ + entry_paths(all.take(it.index()).filter(descend)),
                files.deep_view() == entry_paths(all.take(it.index()).filter(keep)),
        {
            let ghost seen = all.take(it.index());
            let ghost listed = self@;
            let ghost found = files.deep_view();
            proof {
                assert(all.take(it.index() + 1) =~= seen.push(entry@));
                seen.lemma_filter_push(entry@, descend);
                seen.lemma_filter_push(entry@, keep);
            }
            if !is_ignored(&entry.name, ignore) {
                if entry.is_dir {
                    self.pending.push(entry.path);
                    assert(self@ =~= listed.push(entry@.path));
                    assert(self@ =~= old(self)@ + entry_paths(seen.filter(descend).push(entry@)));
                } else {
                    let ext = extension_of(entry.name.as_str());
                    if ext == *wanted {
                        files.push(entry.path);
                        assert(files.deep_view() =~= found.push(entry@.path));
                        assert(files.deep_view() =~= entry_paths(seen.filter(keep).push(entry@)));
                    }
                }
            }
        }
        assert(all.take(all.len() as int) =~= all);
        files
    }
}

} // verus!
