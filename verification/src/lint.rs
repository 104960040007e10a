//! A linter, the command line that runs it on a batch of files, and which
//! files of the batch its output leaves standing.

use crate::text::{is_substring, mentions};
use vstd::prelude::*;

verus! {

/// A linter: a name to show, the executable to run, and the arguments that
/// come before the file paths.
#[derive(Debug)]
pub struct Lint {
    pub name: String,
    pub command: String,
    pub args: Vec<String>,
}

/// What a `Lint` stands for.
pub struct LintView {
    pub name: Seq<char>,
    pub command: Seq<char>,
    pub args: Seq<Seq<char>>,
}

impl View for Lint {
    type V = LintView;

    open spec fn view(&self) -> LintView {
        LintView { name: self.name@, command: self.command@, args: self.args.deep_view() }
    }
}

impl DeepView for Lint {
    type V = LintView;

    open spec fn deep_view(&self) -> LintView {
        self@
    }
}

/// One run of an executable: the program and its arguments, in order.
#[derive(Debug)]
pub struct Invocation {
    pub program: String,
    pub args: Vec<String>,
}

/// What an `Invocation` stands for.
pub struct InvocationView {
    pub program: Seq<char>,
    pub args: Seq<Seq<char>>,
}

impl View for Invocation {
    type V = InvocationView;

    open spec fn view(&self) -> InvocationView {
        InvocationView { program: self.program@, args: self.args.deep_view() }
    }
}

/// The one run of `lint` that covers all of `paths`: its fixed arguments
/// first, then every path.
pub open spec fn batch(lint: LintView, paths: Seq<Seq<char>>) -> InvocationView {
    InvocationView { program: lint.command, args: lint.args + paths }
}

/// A linter has reported on `path` if the path occurs in what it wrote to
/// standard output or to standard error.
pub open spec fn reported(path: Seq<char>, stdout: Seq<char>, stderr: Seq<char>) -> bool {
    is_substring(path, stdout) || is_substring(path, stderr)
}

/// The test that a file passes when the output does not mention it.
pub open spec fn passes(stdout: Seq<char>, stderr: Seq<char>) -> spec_fn(Seq<char>) -> bool {
    |path: Seq<char>| !reported(path, stdout, stderr)
}

/// The files that the output does not mention, in their order.
pub open spec fn unreported(files: Seq<Seq<char>>, stdout: Seq<char>, stderr: Seq<char>) -> Seq<
    Seq<char>,
> {
    files.filter(passes(stdout, stderr))
}

/// A copy of the strings of `source`.
fn copy_strings(source: &Vec<String>) -> (copy: Vec<String>)
    ensures
        copy.deep_view() == source.deep_view(),
{
    let mut copy: Vec<String> = Vec::new();
    let mut i: usize = 0;
    while i < source.len()
        invariant
            i <= source.len(),
            copy.len() == i,
            forall|k: int| 0 <= k < i ==> copy[k]@ == source[k]@,
        decreases source.len() - i,
    {
        copy.push(source[i].clone());
        i += 1;
    }
    assert(copy.deep_view() =~= source.deep_view());
    copy
}

impl Clone for Lint {
    fn clone(&self) -> (copy: Lint)
        ensures
            copy@ == self@,
    {
        Lint {
            name: self.name.clone(),
            command: self.command.clone(),
            args: copy_strings(&self.args),
        }
    }
}

impl Lint {
    /// The command line that runs this linter on `paths` in one batch.
    pub fn command(&self, paths: &Vec<String>) -> (invocation: Invocation)
        ensures
            invocation@ == batch(self@, paths.deep_view()),
    {
        let mut args = copy_strings(&self.args);
        let mut i: usize = 0;
        while i < paths.len()
            invariant
                i <= paths.len(),
                args.deep_view() == self.args.deep_view() + paths.deep_view().take(i as int),
            decreases paths.len() - i,
        {
            let ghost before = args.deep_view();
            args.push(paths[i].clone());
            assert(args.deep_view() =~= before.push(paths[i as int]@));
            assert(paths.deep_view().take(i + 1) =~= paths.deep_view().take(i as int).push(
                paths[i as int]@,
            ));
            i += 1;
        }
        assert(paths.deep_view().take(i as int) =~= paths.deep_view());
        Invocation { program: self.command.clone(), args }
    }

    /// The files of the batch that are still clean after this linter ran
    /// and wrote `stdout` and `stderr`: those that neither of the two
    /// mentions, in their order.
    pub fn resolve(&self, files: Vec<String>, stdout: &str, stderr: &str) -> (clean: Vec<String>)
        ensures
            clean.deep_view() == unreported(files.deep_view(), stdout@, stderr@),
    {
        let ghost all = files.deep_view();
        let ghost pass = passes(stdout@, stderr@);
        let mut clean: Vec<String> = Vec::new();
        assert(all.take(0).filter(pass) =~= Seq::<Seq<char>>::empty()) by {
            reveal(Seq::filter);
        }
        for file in it: files.into_iter()
            invariant
                pass == passes(stdout@, stderr@),
                it.seq().len() == all.len(),
                forall|i: int| 0 <= i < all.len() ==> (#[trigger] it.seq()[i])@ == all[i],
                clean.deep_view() == all.take(it.index()).filter(pass),
        {
            proof {
                let seen = all.take(it.index());
                assert(all.take(it.index() + 1) =~= seen.push(file@));
                seen.lemma_filter_push(file@, pass);
            }
            let ghost kept = clean.deep_view();
            if !mentions(stdout, file.as_str()) && !mentions(stderr, file.as_str()) {
                clean.push(file);
                assert(clean.deep_view() =~= kept.push(file@));
            }
        }
        assert(all.take(all.len() as int) =~= all);
        clean
    }
}

} // verus!
