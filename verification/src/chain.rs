//! Running the linters of one extension in order over a shrinking batch.
//!
//! Each stage runs one linter on the files that every earlier stage left
//! standing, in a single batch, and drops the files that its output
//! mentions. A stage with nothing to run on is passed over without a
//! process. The chain decides; whoever drives it runs the processes.

use crate::lint::{batch, passes, reported, unreported, Invocation, Lint, LintView};
use crate::seqs::{lemma_filter_keeps, lemma_filter_none};
use vstd::prelude::*;

verus! {

/// What one run of a linter wrote.
pub struct OutputView {
    pub stdout: Seq<char>,
    pub stderr: Seq<char>,
}

/// The batch after as many stages as there are outputs: each stage drops
/// from what the stage before left the files that its output mentions.
pub open spec fn standing_after(files: Seq<Seq<char>>, outputs: Seq<OutputView>) -> Seq<Seq<char>>
    decreases outputs.len(),
{
    if outputs.len() == 0 {
        files
    } else {
        unreported(
            standing_after(files, outputs.drop_last()),
            outputs.last().stdout,
            outputs.last().stderr,
        )
    }
}

/// A file stands after a stage exactly if it stood before it and the
/// output of the stage does not mention it.
pub proof fn lemma_unreported(
    files: Seq<Seq<char>>,
    stdout: Seq<char>,
    stderr: Seq<char>,
    path: Seq<char>,
)
    ensures
        unreported(files, stdout, stderr).contains(path) <==> files.contains(path) && !reported(
            path,
            stdout,
            stderr,
        ),
{
    lemma_filter_keeps(files, passes(stdout, stderr), path);
}

/// The chain cuts short. A file that the output of one stage mentions is
/// in the batch of no later stage and is not among the files that stand at
/// the end.
pub proof fn lemma_dropped_for_good(
    files: Seq<Seq<char>>,
    outputs: Seq<OutputView>,
    stage: int,
    path: Seq<char>,
)
    requires
        0 <= stage < outputs.len(),
        reported(path, outputs[stage].stdout, outputs[stage].stderr),
    ensures
        forall|later: int|
            stage < later <= outputs.len() ==> !(#[trigger] standing_after(
                files,
                outputs.take(later),
            )).contains(path),
        !standing_after(files, outputs).contains(path),
    decreases outputs.len(),
{
    let front = outputs.drop_last();
    let last = outputs.last();
    lemma_unreported(standing_after(files, front), last.stdout, last.stderr, path);
    assert(outputs.take(outputs.len() as int) =~= outputs);
    if stage < outputs.len() - 1 {
        assert(front[stage] == outputs[stage]);
        lemma_dropped_for_good(files, front, stage, path);
        assert forall|later: int| stage < later <= outputs.len() implies !(#[trigger] standing_after(
            files,
            outputs.take(later),
        )).contains(path) by {
            if later < outputs.len() {
                assert(outputs.take(later) =~= front.take(later));
            }
        }
    } else {
        assert forall|later: int| stage < later <= outputs.len() implies !(#[trigger] standing_after(
            files,
            outputs.take(later),
        )).contains(path) by {
            assert(outputs.take(later) =~= outputs);
        }
    }
}

/// No stage adds a file to the batch: what stands at the end was in the
/// batch from the start.
pub proof fn lemma_never_joins(files: Seq<Seq<char>>, outputs: Seq<OutputView>, path: Seq<char>)
    requires
        !files.contains(path),
    ensures
        !standing_after(files, outputs).contains(path),
    decreases outputs.len(),
{
    if outputs.len() > 0 {
        lemma_never_joins(files, outputs.drop_last(), path);
        lemma_unreported(
            standing_after(files, outputs.drop_last()),
            outputs.last().stdout,
            outputs.last().stderr,
            path,
        );
    }
}

/// An empty batch stays empty, whatever a linter would have written.
pub proof fn lemma_nothing_to_lint(outputs: Seq<OutputView>)
    ensures
        standing_after(Seq::empty(), outputs) == Seq::<Seq<char>>::empty(),
    decreases outputs.len(),
{
    if outputs.len() > 0 {
        lemma_nothing_to_lint(outputs.drop_last());
        lemma_filter_none(
            Seq::<Seq<char>>::empty(),
            passes(outputs.last().stdout, outputs.last().stderr),
        );
    }
}

/// A chain between two stages.
pub struct Chain<'a> {
    lints: &'a Vec<Lint>,
    stage: usize,
    files: Vec<String>,
}

/// A chain that waits for the output of the linter it has just asked for.
pub struct Pending<'a> {
    chain: Chain<'a>,
}

/// What a chain does next.
pub enum Step<'a> {
    /// Run this command, then report what it wrote.
    Run(Invocation, Pending<'a>),
    /// Nothing is left to run. These files have passed every stage.
    Done(Vec<String>),
}

impl<'a> Chain<'a> {
    #[verifier::type_invariant]
    spec fn within(&self) -> bool {
        self.stage <= self.lints.len()
    }

    /// The linters that have not run yet, the next one first.
    pub closed spec fn remaining(&self) -> Seq<LintView> {
        self.lints.deep_view().skip(self.stage as int)
    }

    /// The files that every stage so far has left standing.
    pub closed spec fn working(&self) -> Seq<Seq<char>> {
        self.files.deep_view()
    }

    /// A chain of `lints`, in this order, over `files`.
    pub fn new(lints: &'a Vec<Lint>, files: Vec<String>) -> (chain: Chain<'a>)
        ensures
            chain.remaining() == lints.deep_view(),
            chain.working() == files.deep_view(),
    {
        let chain = Chain { lints, stage: 0, files };
        assert(chain.remaining() =~= lints.deep_view());
        chain
    }

    /// The next step. While a linter remains and the batch is not empty,
    /// the step is to run that linter on the whole batch. Otherwise the
    /// chain is done: an empty batch starts no process, whatever linters
    /// remain.
    pub fn next(self) -> (step: Step<'a>)
        ensures
            match step {
                Step::Run(invocation, pending) => {
                    &&& self.remaining().len() > 0
                    &&& self.working().len() > 0
                    &&& invocation@ == batch(self.remaining()[0], self.working())
                    &&& pending.remaining() == self.remaining()
                    &&& pending.working() == self.working()
                },
                Step::Done(clean) => {
                    &&& self.remaining().len() == 0 || self.working().len() == 0
                    &&& clean.deep_view() == self.working()
                },
            },
    {
        proof {
            use_type_invariant(&self);
        }
        if self.stage < self.lints.len() && self.files.len() > 0 {
            let invocation = self.lints[self.stage].command(&self.files);
            Step::Run(invocation, Pending { chain: self })
        } else {
            Step::Done(self.files)
        }
    }
}

impl<'a> Pending<'a> {
    #[verifier::type_invariant]
    spec fn asked(&self) -> bool {
        self.chain.stage < self.chain.lints.len()
    }

    /// The linters that have not finished yet: the one that was asked for,
    /// then the ones after it.
    pub closed spec fn remaining(&self) -> Seq<LintView> {
        self.chain.remaining()
    }

    /// The batch that the linter was asked to run on.
    pub closed spec fn working(&self) -> Seq<Seq<char>> {
        self.chain.working()
    }

    /// The linter that was asked for.
    pub fn lint(&self) -> (lint: &Lint)
        ensures
            self.remaining().len() > 0,
            lint@ == self.remaining()[0],
    {
        proof {
            use_type_invariant(self);
        }
        &self.chain.lints[self.chain.stage]
    }

    /// The number of files in the batch.
    pub fn batch_size(&self) -> (n: usize)
        ensures
            n == self.working().len(),
    {
        self.chain.files.len()
    }

    /// Takes in what the linter wrote and moves on to the next stage. The
    /// files that the output mentions leave the batch for good.
    pub fn report(self, stdout: &str, stderr: &str) -> (chain: Chain<'a>)
        ensures
            chain.remaining() == self.remaining().drop_first(),
            chain.working() == unreported(self.working(), stdout@, stderr@),
    {
        proof {
            use_type_invariant(&self);
        }
        let Pending { chain } = self;
        let Chain { lints, stage, files } = chain;
        let files = lints[stage].resolve(files, stdout, stderr);
        let next = Chain { lints, stage: stage + 1, files };
        assert(next.remaining() =~= self.remaining().drop_first());
        next
    }
}

} // verus!
