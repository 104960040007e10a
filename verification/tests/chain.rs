use blaze::chain::{Chain, Step};
use blaze::lint::Lint;

fn strings(items: &[&str]) -> Vec<String> {
    items.iter().map(|s| s.to_string()).collect()
}

fn lint(name: &str) -> Lint {
    Lint { name: name.to_owned(), command: format!("{}-bin", name), args: strings(&["-q"]) }
}

/// Drives a chain to its end. Each linter writes to standard output what
/// `says` gives for its name. Returns the survivors and, for each process
/// that was started, the name of the linter and the paths it was given.
fn drive(
    lints: &Vec<Lint>,
    files: Vec<String>,
    says: &[(&str, &str)],
) -> (Vec<String>, Vec<(String, Vec<String>)>) {
    let mut started = Vec::new();
    let mut chain = Chain::new(lints, files);
    loop {
        match chain.next() {
            Step::Run(invocation, pending) => {
                let name = pending.lint().name.clone();
                assert_eq!(invocation.program, pending.lint().command);
                let fixed = pending.lint().args.len();
                assert_eq!(invocation.args[..fixed], pending.lint().args[..]);
                assert_eq!(invocation.args.len() - fixed, pending.batch_size());
                started.push((name.clone(), invocation.args[fixed..].to_vec()));
                let output = says.iter().find(|(n, _)| *n == name).map(|(_, o)| *o).unwrap_or("");
                chain = pending.report(output, "");
            }
            Step::Done(clean) => return (clean, started),
        }
    }
}

#[test]
fn chain_runs_every_linter_in_order_on_the_whole_batch() {
    let lints = vec![lint("first"), lint("second"), lint("third")];
    let (clean, started) = drive(&lints, strings(&["a.py", "b.py"]), &[]);
    assert_eq!(clean, strings(&["a.py", "b.py"]));
    assert_eq!(
        started,
        vec![
            ("first".to_owned(), strings(&["a.py", "b.py"])),
            ("second".to_owned(), strings(&["a.py", "b.py"])),
            ("third".to_owned(), strings(&["a.py", "b.py"])),
        ]
    );
}

#[test]
fn chain_does_not_pass_a_reported_file_to_later_linters() {
    let lints = vec![lint("first"), lint("second")];
    let says = [("first", "f1.py:1: broken\n")];
    let (clean, started) = drive(&lints, strings(&["f1.py", "f2.py"]), &says);
    assert_eq!(clean, strings(&["f2.py"]));
    assert_eq!(started[0], ("first".to_owned(), strings(&["f1.py", "f2.py"])));
    assert_eq!(started[1], ("second".to_owned(), strings(&["f2.py"])));
}

#[test]
fn chain_narrows_stage_by_stage() {
    let lints = vec![lint("first"), lint("second"), lint("third")];
    let says = [("first", "a.py\n"), ("second", "c.py\n"), ("third", "a.py b.py\n")];
    let (clean, started) = drive(&lints, strings(&["a.py", "b.py", "c.py", "d.py"]), &says);
    assert_eq!(clean, strings(&["d.py"]));
    assert_eq!(started[1].1, strings(&["b.py", "c.py", "d.py"]));
    assert_eq!(started[2].1, strings(&["b.py", "d.py"]));
}

#[test]
fn chain_starts_no_process_for_an_empty_batch() {
    let lints = vec![lint("first"), lint("second")];
    let (clean, started) = drive(&lints, Vec::new(), &[("first", "anything")]);
    assert!(clean.is_empty());
    assert!(started.is_empty());
}

#[test]
fn chain_stops_starting_processes_once_the_batch_is_empty() {
    let lints = vec![lint("first"), lint("second"), lint("third")];
    let says = [("first", "a.py and b.py are both bad\n")];
    let (clean, started) = drive(&lints, strings(&["a.py", "b.py"]), &says);
    assert!(clean.is_empty());
    assert_eq!(started.len(), 1);
    assert_eq!(started[0].0, "first");
}

#[test]
fn chain_without_linters_keeps_every_file() {
    let lints: Vec<Lint> = Vec::new();
    let (clean, started) = drive(&lints, strings(&["a.py", "b.py"]), &[]);
    assert_eq!(clean, strings(&["a.py", "b.py"]));
    assert!(started.is_empty());
}

#[test]
fn report_reads_both_streams() {
    let lints = vec![lint("only")];
    let chain = Chain::new(&lints, strings(&["a.py", "b.py", "c.py"]));
    let pending = match chain.next() {
        Step::Run(_, pending) => pending,
        Step::Done(_) => panic!("a linter was due"),
    };
    assert_eq!(pending.batch_size(), 3);
    assert_eq!(pending.lint().name, "only");
    match pending.report("a.py: bad\n", "c.py: worse\n").next() {
        Step::Done(clean) => assert_eq!(clean, strings(&["b.py"])),
        Step::Run(_, _) => panic!("no linter was left"),
    }
}
