//! The index: for each path, the hash of the content that was last found
//! clean. A path that is absent has never been verified.

use vstd::hash_map::StringHashMap;
use vstd::prelude::*;

verus! {

/// A file and the hash of its content.
#[derive(Debug)]
pub struct FileHash {
    pub path: String,
    pub hash: String,
}

/// What a `FileHash` stands for.
pub struct FileHashView {
    pub path: Seq<char>,
    pub hash: Seq<char>,
}

impl View for FileHash {
    type V = FileHashView;

    open spec fn view(&self) -> FileHashView {
        FileHashView { path: self.path@, hash: self.hash@ }
    }
}

impl DeepView for FileHash {
    type V = FileHashView;

    open spec fn deep_view(&self) -> FileHashView {
        self@
    }
}

impl Clone for FileHash {
    fn clone(&self) -> (copy: FileHash)
        ensures
            copy@ == self@,
    {
        FileHash { path: self.path.clone(), hash: self.hash.clone() }
    }
}

/// `base` after the records were written into it one by one, in order. A
/// later record for a path replaces an earlier one.
pub open spec fn with_records(
    base: Map<Seq<char>, Seq<char>>,
    records: Seq<FileHashView>,
) -> Map<Seq<char>, Seq<char>>
    decreases records.len(),
{
    if records.len() == 0 {
        base
    } else {
        with_records(base, records.drop_last()).insert(records.last().path, records.last().hash)
    }
}

/// The paths of `records`, in order.
pub open spec fn paths_of(records: Seq<FileHashView>) -> Seq<Seq<char>> {
    records.map_values(|r: FileHashView| r.path)
}

/// A path is in `with_records` exactly if it is in `base` or a record names
/// it.
pub proof fn lemma_with_records_paths(
    base: Map<Seq<char>, Seq<char>>,
    records: Seq<FileHashView>,
    path: Seq<char>,
)
    ensures
        with_records(base, records).contains_key(path) <==> base.contains_key(path) || paths_of(
            records,
        ).contains(path),
    decreases records.len(),
{
    if records.len() > 0 {
        let front = records.drop_last();
        lemma_with_records_paths(base, front, path);
        if paths_of(front).contains(path) {
            let k = choose|k: int| 0 <= k < front.len() && paths_of(front)[k] == path;
            assert(paths_of(records)[k] == path);
        }
        if paths_of(records).contains(path) {
            let k = choose|k: int| 0 <= k < records.len() && paths_of(records)[k] == path;
            if k < front.len() {
                assert(paths_of(front)[k] == path);
            }
        }
        if records.last().path == path {
            assert(paths_of(records)[records.len() - 1] == path);
        }
    }
}

/// A path that no record names keeps what it has in `base`.
pub proof fn lemma_with_records_untouched(
    base: Map<Seq<char>, Seq<char>>,
    records: Seq<FileHashView>,
    path: Seq<char>,
)
    requires
        !paths_of(records).contains(path),
        base.contains_key(path),
    ensures
        with_records(base, records).contains_key(path),
        with_records(base, records)[path] == base[path],
    decreases records.len(),
{
    if records.len() > 0 {
        let front = records.drop_last();
        assert(paths_of(records)[records.len() - 1] == records.last().path);
        if paths_of(front).contains(path) {
            let k = choose|k: int| 0 <= k < front.len() && paths_of(front)[k] == path;
            assert(paths_of(records)[k] == path);
        }
        lemma_with_records_untouched(base, front, path);
    }
}

/// A path has the hash of the last record that names it.
pub proof fn lemma_with_records_last(
    base: Map<Seq<char>, Seq<char>>,
    records: Seq<FileHashView>,
    i: int,
)
    requires
        0 <= i < records.len(),
        forall|j: int| i < j < records.len() ==> (#[trigger] records[j]).path != records[i].path,
    ensures
        with_records(base, records).contains_key(records[i].path),
        with_records(base, records)[records[i].path] == records[i].hash,
    decreases records.len(),
{
    if i < records.len() - 1 {
        let front = records.drop_last();
        assert(records[records.len() - 1].path != records[i].path);
        assert(front[i] == records[i]);
        assert forall|j: int| i < j < front.len() implies (#[trigger] front[j]).path
            != front[i].path by {
            assert(front[j] == records[j]);
        }
        lemma_with_records_last(base, front, i);
    }
}

/// A path has the hash of any record that names it, where all the records
/// that name it agree.
pub proof fn lemma_with_records_same(
    base: Map<Seq<char>, Seq<char>>,
    records: Seq<FileHashView>,
    i: int,
)
    requires
        0 <= i < records.len(),
        forall|j: int|
            0 <= j < records.len() && (#[trigger] records[j]).path == records[i].path
                ==> records[j].hash == records[i].hash,
    ensures
        with_records(base, records).contains_key(records[i].path),
        with_records(base, records)[records[i].path] == records[i].hash,
    decreases records.len(),
{
    let last = records.len() - 1;
    if records[last].path != records[i].path {
        let front = records.drop_last();
        assert(front[i] == records[i]);
        assert forall|j: int|
            0 <= j < front.len() && (#[trigger] front[j]).path == front[i].path implies front[j].hash
            == front[i].hash by {
            assert(front[j] == records[j]);
        }
        lemma_with_records_same(base, front, i);
    }
}

/// Writing two runs of records one after the other is writing them joined.
pub proof fn lemma_with_records_joined(
    base: Map<Seq<char>, Seq<char>>,
    first: Seq<FileHashView>,
    second: Seq<FileHashView>,
)
    ensures
        with_records(with_records(base, first), second) == with_records(base, first + second),
    decreases second.len(),
{
    if second.len() == 0 {
        assert(first + second =~= first);
    } else {
        lemma_with_records_joined(base, first, second.drop_last());
        assert((first + second).drop_last() =~= first + second.drop_last());
        assert((first + second).last() == second.last());
    }
}

/// The index of a project tree.
pub struct Index {
    files: StringHashMap<String>,
    paths: Vec<String>,
}

impl View for Index {
    type V = Map<Seq<char>, Seq<char>>;

    closed spec fn view(&self) -> Map<Seq<char>, Seq<char>> {
        Map::new(|p: Seq<char>| self.files@.contains_key(p), |p: Seq<char>| self.files@[p]@)
    }
}

impl Index {
    /// `paths` lists the keys of `files`, each once.
    #[verifier::type_invariant]
    spec fn listed(&self) -> bool {
        &&& self.paths.deep_view().no_duplicates()
        &&& forall|p: Seq<char>| #[trigger]
            self.files@.contains_key(p) <==> self.paths.deep_view().contains(p)
    }

    /// The empty index: nothing has been verified yet.
    pub fn new() -> (index: Index)
        ensures
            index@ == Map::<Seq<char>, Seq<char>>::empty(),
    {
        let index = Index { files: StringHashMap::new(), paths: Vec::new() };
        assert(index@ =~= Map::<Seq<char>, Seq<char>>::empty());
        index
    }

    /// The number of indexed paths.
    pub fn len(&self) -> (n: usize)
        ensures
            self@.dom().finite(),
            n == self@.len(),
    {
        proof {
            use_type_invariant(self);
            let listed = self.paths.deep_view();
            assert(self@.dom() =~= listed.to_set());
            listed.unique_seq_to_set();
        }
        self.paths.len()
    }

    /// Whether no path is indexed.
    pub fn is_empty(&self) -> (empty: bool)
        ensures
            empty == (self@ == Map::<Seq<char>, Seq<char>>::empty()),
    {
        proof {
            use_type_invariant(self);
            if self.paths.len() == 0 {
                assert(self@ =~= Map::<Seq<char>, Seq<char>>::empty());
            } else {
                assert(self.paths.deep_view()[0] == self.paths[0]@);
                assert(self@.contains_key(self.paths[0]@));
            }
        }
        self.paths.len() == 0
    }

    /// The hash under which `path` is indexed, if it is.
    pub fn get(&self, path: &str) -> (found: Option<&String>)
        ensures
            match found {
                Some(hash) => self@.contains_key(path@) && hash@ == self@[path@],
                None => !self@.contains_key(path@),
            },
    {
        self.files.get(path)
    }

    /// Whether `path` is indexed under exactly `hash`.
    pub fn holds(&self, path: &str, hash: &String) -> (held: bool)
        ensures
            held == (self@.contains_key(path@) && self@[path@] == hash@),
    {
        match self.files.get(path) {
            Some(known) => *known == *hash,
            None => false,
        }
    }

    /// Indexes `path` under `hash`, in place of what it was indexed under.
    pub fn insert(&mut self, path: String, hash: String)
        ensures
            final(self)@ == old(self)@.insert(path@, hash@),
    {
        proof {
            use_type_invariant(&*self);
        }
        let mut taken = Index::new();
        std::mem::swap(self, &mut taken);
        let Index { mut files, mut paths } = taken;
        let ghost before = paths.deep_view();
        if !files.contains_key(path.as_str()) {
            paths.push(path.clone());
            assert(paths.deep_view() =~= before.push(path@));
        }
        files.insert(path, hash);
        proof {
            assert forall|p: Seq<char>| #[trigger]
                files@.contains_key(p) <==> paths.deep_view().contains(p) by {
                if before.contains(p) {
                    let k = choose|k: int| 0 <= k < before.len() && before[k] == p;
                    assert(paths.deep_view()[k] == p);
                }
                if p == path@ && !before.contains(p) {
                    assert(paths.deep_view()[before.len() as int] == p);
                }
            }
        }
        *self = Index { files, paths };
        assert(self@ =~= old(self)@.insert(path@, hash@));
    }

    /// Writes the records into the index, one by one, in order.
    pub fn extend(&mut self, records: Vec<FileHash>)
        ensures
            final(self)@ == with_records(old(self)@, records.deep_view()),
    {
        let ghost all = records.deep_view();
        for record in it: records.into_iter()
            invariant
                it.seq().len() == all.len(),
                forall|i: int| 0 <= i < all.len() ==> (#[trigger] it.seq()[i])@ == all[i],
                self@ == with_records(old(self)@, all.take(it.index())),
        {
            assert(all.take(it.index() + 1).drop_last() =~= all.take(it.index()));
            self.insert(record.path, record.hash);
        }
        assert(all.take(all.len() as int) =~= all);
    }

    /// One record for each indexed path. Writing them into an empty index
    /// gives this index again.
    pub fn entries(&self) -> (records: Vec<FileHash>)
        ensures
            paths_of(records.deep_view()).no_duplicates(),
            records.len() == self@.len(),
            with_records(Map::empty(), records.deep_view()) == self@,
    {
        proof {
            use_type_invariant(self);
        }
        let mut records: Vec<FileHash> = Vec::new();
        let mut i: usize = 0;
        while i < self.paths.len()
            invariant
                i <= self.paths.len(),
                self.listed(),
                records.len() == i,
                forall|k: int|
                    0 <= k < i ==> (#[trigger] records[k])@.path == self.paths[k]@
                        && self.files@.contains_key(self.paths[k]@) && records[k]@.hash
                        == self.files@[self.paths[k]@]@,
            decreases self.paths.len() - i,
        {
            let path = &self.paths[i];
            assert(self.paths.deep_view()[i as int] == path@);
            match self.files.get(path.as_str()) {
                Some(hash) => {
                    records.push(FileHash { path: path.clone(), hash: hash.clone() });
                },
                None => {
                    assert(false);
                },
            }
            i += 1;
        }
        proof {
            let listed = self.paths.deep_view();
            let out = records.deep_view();
            assert(paths_of(out) =~= listed);
            listed.unique_seq_to_set();
            assert(self@.dom() =~= listed.to_set());
            let rebuilt = with_records(Map::empty(), out);
            assert forall|p: Seq<char>| rebuilt.contains_key(p) <==> self@.contains_key(p) by {
                lemma_with_records_paths(Map::empty(), out, p);
            }
            assert forall|p: Seq<char>| self@.contains_key(p) implies rebuilt[p] == self@[p] by {
                let k = choose|k: int| 0 <= k < listed.len() && listed[k] == p;
                assert(out[k].path == p);
                assert forall|j: int| k < j < out.len() implies (#[trigger] out[j]).path
                    != out[k].path by {
                    assert(listed[j] == out[j].path);
                }
                lemma_with_records_last(Map::empty(), out, k);
            }
            assert(with_records(Map::empty(), out) =~= self@);
        }
        records
    }
}

impl Default for Index {
    fn default() -> (index: Index)
        ensures
            index@ == Map::<Seq<char>, Seq<char>>::empty(),
    {
        Index::new()
    }
}

} // verus!
