//! The configuration of a run: which linters run on which files, in which
//! order, and which names are never looked at.

use crate::lint::{Lint, LintView};
use crate::walk::is_ignored;
use vstd::prelude::*;

verus! {

/// The linters of one file extension, in the order in which they run.
#[derive(Debug)]
pub struct FileType {
    /// The extension, without the dot.
    pub extension: String,
    pub lints: Vec<Lint>,
}

/// What a `FileType` stands for.
pub struct FileTypeView {
    pub extension: Seq<char>,
    pub lints: Seq<LintView>,
}

impl View for FileType {
    type V = FileTypeView;

    open spec fn view(&self) -> FileTypeView {
        FileTypeView { extension: self.extension@, lints: self.lints.deep_view() }
    }
}

impl DeepView for FileType {
    type V = FileTypeView;

    open spec fn deep_view(&self) -> FileTypeView {
        self@
    }
}

/// The extensions of `filetypes`, in order.
pub open spec fn extensions_of(filetypes: Seq<FileTypeView>) -> Seq<Seq<char>> {
    filetypes.map_values(|t: FileTypeView| t.extension)
}

/// The place of `extension` among `filetypes`, if it is configured.
pub open spec fn position(filetypes: Seq<FileTypeView>, extension: Seq<char>) -> Option<int> {
    if exists|i: int| 0 <= i < filetypes.len() && filetypes[i].extension == extension {
        Some(choose|i: int| 0 <= i < filetypes.len() && filetypes[i].extension == extension)
    } else {
        None
    }
}

/// The linters of every configured extension, and the names to ignore.
pub struct LintConfig {
    filetypes: Vec<FileType>,
    global_ignore: Vec<String>,
}

/// What a `LintConfig` stands for.
pub struct LintConfigView {
    pub filetypes: Seq<FileTypeView>,
    pub global_ignore: Seq<Seq<char>>,
}

impl View for LintConfig {
    type V = LintConfigView;

    closed spec fn view(&self) -> LintConfigView {
        LintConfigView {
            filetypes: self.filetypes.deep_view(),
            global_ignore: self.global_ignore.deep_view(),
        }
    }
}

impl LintConfig {
    /// No extension is configured twice.
    #[verifier::type_invariant]
    spec fn keyed(&self) -> bool {
        extensions_of(self.filetypes.deep_view()).no_duplicates()
    }

    /// A configuration without linters that ignores the given names.
    pub fn new(global_ignore: Vec<String>) -> (config: LintConfig)
        ensures
            config@.filetypes == Seq::<FileTypeView>::empty(),
            config@.global_ignore == global_ignore.deep_view(),
    {
        let config = LintConfig { filetypes: Vec::new(), global_ignore };
        assert(config@.filetypes =~= Seq::<FileTypeView>::empty());
        config
    }

    /// Configures `lints` for `extension`, in place of the linters that
    /// were configured for it, if any. A new extension comes last.
    pub fn set(&mut self, extension: String, lints: Vec<Lint>)
        ensures
            final(self)@.global_ignore == old(self)@.global_ignore,
            final(self)@.filetypes == match position(old(self)@.filetypes, extension@) {
                Some(at) => old(self)@.filetypes.update(
                    at,
                    FileTypeView { extension: extension@, lints: lints.deep_view() },
                ),
                None => old(self)@.filetypes.push(
                    FileTypeView { extension: extension@, lints: lints.deep_view() },
                ),
            },
    {
        proof {
            use_type_invariant(&*self);
        }
        let mut taken = LintConfig::new(Vec::new());
        std::mem::swap(self, &mut taken);
        let LintConfig { mut filetypes, global_ignore } = taken;
        let ghost before = filetypes.deep_view();
        let ghost added = FileTypeView { extension: extension@, lints: lints.deep_view() };
        let mut i: usize = 0;
        while i < filetypes.len() && filetypes[i].extension != extension
            invariant
                i <= filetypes.len(),
                filetypes.deep_view() == before,
                forall|k: int| 0 <= k < i ==> before[k].extension != extension@,
            decreases filetypes.len() - i,
        {
            i += 1;
        }
        if i < filetypes.len() {
            proof {
                assert(before[i as int].extension == extension@);
                let at = position(before, extension@)->0;
                assert(at == i) by {
                    assert(extensions_of(before)[at] == extensions_of(before)[i as int]);
                }
            }
            filetypes.set(i, FileType { extension, lints });
            assert(filetypes.deep_view() =~= before.update(i as int, added));
            assert(extensions_of(filetypes.deep_view()) =~= extensions_of(before));
        } else {
            filetypes.push(FileType { extension, lints });
            assert(filetypes.deep_view() =~= before.push(added));
            assert(extensions_of(filetypes.deep_view()) =~= extensions_of(before).push(
                extension@,
            ));
        }
        *self = LintConfig { filetypes, global_ignore };
    }

    /// The configured extensions with their linters. No extension stands
    /// twice.
    pub fn filetypes(&self) -> (filetypes: &Vec<FileType>)
        ensures
            filetypes.deep_view() == self@.filetypes,
            extensions_of(self@.filetypes).no_duplicates(),
    {
        proof {
            use_type_invariant(self);
        }
        &self.filetypes
    }

    /// The names that are never looked at.
    pub fn global_ignore(&self) -> (names: &Vec<String>)
        ensures
            names.deep_view() == self@.global_ignore,
    {
        &self.global_ignore
    }

    /// The linters configured for `extension`, in running order.
    pub fn lints_for(&self, extension: &String) -> (found: Option<&Vec<Lint>>)
        ensures
            match found {
                Some(lints) => exists|i: int|
                    0 <= i < self@.filetypes.len() && #[trigger] self@.filetypes[i]
                        == (FileTypeView { extension: extension@, lints: lints.deep_view() }),
                None => !extensions_of(self@.filetypes).contains(extension@),
            },
    {
        let mut i: usize = 0;
        while i < self.filetypes.len()
            invariant
                i <= self.filetypes.len(),
                forall|k: int| 0 <= k < i ==> self@.filetypes[k].extension != extension@,
            decreases self.filetypes.len() - i,
        {
            if self.filetypes[i].extension == *extension {
                assert(self@.filetypes[i as int] == (FileTypeView {
                    extension: extension@,
                    lints: self.filetypes[i as int].lints.deep_view(),
                }));
                return Some(&self.filetypes[i].lints);
            }
            i += 1;
        }
        None
    }

    /// Whether an entry of this name is passed over.
    pub fn ignores(&self, name: &String) -> (ignored: bool)
        ensures
            ignored == self@.global_ignore.contains(name@),
    {
        is_ignored(name, &self.global_ignore)
    }
}

} // verus!
