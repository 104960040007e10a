use blaze::lint::Lint;

fn strings(items: &[&str]) -> Vec<String> {
    items.iter().map(|s| s.to_string()).collect()
}

fn flake() -> Lint {
    Lint {
        name: "flake".to_owned(),
        command: "flake8".to_owned(),
        args: strings(&["--max-line-length", "100"]),
    }
}

#[test]
fn lint_clone_keeps_every_field() {
    let copy = flake().clone();
    assert_eq!(copy.name, "flake");
    assert_eq!(copy.command, "flake8");
    assert_eq!(copy.args, strings(&["--max-line-length", "100"]));
}

#[test]
fn command_puts_fixed_arguments_before_the_paths() {
    let invocation = flake().command(&strings(&["a.py", "dir/b.py"]));
    assert_eq!(invocation.program, "flake8");
    assert_eq!(invocation.args, strings(&["--max-line-length", "100", "a.py", "dir/b.py"]));
}

#[test]
fn command_without_arguments_or_paths() {
    let bare = Lint { name: "x".to_owned(), command: "x-lint".to_owned(), args: Vec::new() };
    let invocation = bare.command(&Vec::new());
    assert_eq!(invocation.program, "x-lint");
    assert!(invocation.args.is_empty());
    assert_eq!(bare.command(&strings(&["only.rs"])).args, strings(&["only.rs"]));
}

#[test]
fn resolve_drops_what_standard_output_mentions() {
    let clean = flake().resolve(
        strings(&["a.py", "b.py", "c.py"]),
        "b.py:1:1: F401 unused import\n",
        "",
    );
    assert_eq!(clean, strings(&["a.py", "c.py"]));
}

#[test]
fn resolve_drops_what_standard_error_mentions() {
    let clean = flake().resolve(strings(&["a.py", "b.py"]), "", "cannot parse a.py\n");
    assert_eq!(clean, strings(&["b.py"]));
}

#[test]
fn resolve_keeps_everything_when_nothing_is_mentioned() {
    let files = strings(&["a.py", "b.py"]);
    assert_eq!(flake().resolve(files.clone(), "", ""), files);
    assert_eq!(flake().resolve(files.clone(), "all good\n", "0 problems\n"), files);
    assert!(flake().resolve(Vec::new(), "a.py", "b.py").is_empty());
}

#[test]
fn resolve_keeps_order_and_repeats() {
    let clean = flake().resolve(strings(&["z.py", "m.py", "z.py", "a.py"]), "m.py", "");
    assert_eq!(clean, strings(&["z.py", "z.py", "a.py"]));
}

#[test]
fn resolve_drops_a_path_that_is_part_of_a_mentioned_one() {
    // Known imprecision of the substring test: "a.py" is part of "data.py".
    let clean = flake().resolve(strings(&["a.py", "data.py", "b.py"]), "data.py:3: E1\n", "");
    assert_eq!(clean, strings(&["b.py"]));
}

#[test]
fn resolve_does_not_read_a_dot_as_a_wildcard() {
    let clean = flake().resolve(strings(&["a.py"]), "axpy is fine", "");
    assert_eq!(clean, strings(&["a.py"]));
}
