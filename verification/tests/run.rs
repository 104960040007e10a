use blaze::chain::{Chain, Step};
use blaze::config::LintConfig;
use blaze::detect::dirty_files;
use blaze::index::{FileHash, Index};
use blaze::lint::Lint;
use blaze::walk::{Entry, Walker};

fn strings(items: &[&str]) -> Vec<String> {
    items.iter().map(|s| s.to_string()).collect()
}

fn index_of(records: &[(&str, &str)]) -> Index {
    let mut index = Index::new();
    for (path, hash) in records {
        index.insert(path.to_string(), hash.to_string());
    }
    index
}

fn pairs(index: &Index) -> Vec<(String, String)> {
    let mut pairs: Vec<(String, String)> =
        index.entries().into_iter().map(|r| (r.path, r.hash)).collect();
    pairs.sort();
    pairs
}

fn owned(records: &[(&str, &str)]) -> Vec<(String, String)> {
    let mut pairs: Vec<(String, String)> =
        records.iter().map(|(p, h)| (p.to_string(), h.to_string())).collect();
    pairs.sort();
    pairs
}

/// A tree held in memory: directories with their entries, files with the
/// hash of their content, and what each linter prints when it runs.
struct World {
    dirs: Vec<(&'static str, Vec<(&'static str, bool)>)>,
    hashes: Vec<(&'static str, &'static str)>,
    says: Vec<(&'static str, &'static str)>,
}

impl World {
    fn hash_of(&self, path: &str) -> String {
        self.hashes.iter().find(|(p, _)| *p == path).map(|(_, h)| h.to_string()).unwrap()
    }

    fn list(&self, dir: &str) -> Vec<Entry> {
        let (_, names) = self.dirs.iter().find(|(d, _)| *d == dir).unwrap();
        names
            .iter()
            .map(|(name, is_dir)| Entry {
                name: name.to_string(),
                path: format!("{}/{}", dir, name),
                is_dir: *is_dir,
            })
            .collect()
    }
}

/// One whole run, as a driver performs it. Returns the new index, the
/// dirty set of each extension, and the linters that were started.
fn run(world: &World, config: &LintConfig, old: &Index) -> (Index, Vec<Vec<String>>, Vec<String>) {
    let mut new_index = Index::new();
    let mut dirty_sets = Vec::new();
    let mut started = Vec::new();
    for filetype in config.filetypes() {
        let mut walker = Walker::new(".".to_owned());
        let mut found = Vec::new();
        while let Some(dir) = walker.next_dir() {
            let listing = world.list(&dir);
            for path in walker.visit(listing, &filetype.extension, config.global_ignore()) {
                let hash = world.hash_of(&path);
                found.push(FileHash { path, hash });
            }
        }
        let dirty = dirty_files(found, old, &mut new_index);
        dirty_sets.push(dirty.clone());
        let mut chain = Chain::new(&filetype.lints, dirty);
        let clean = loop {
            match chain.next() {
                Step::Run(_, pending) => {
                    let name = pending.lint().name.clone();
                    started.push(name.clone());
                    let output =
                        world.says.iter().find(|(n, _)| *n == name).map(|(_, o)| *o).unwrap_or("");
                    chain = pending.report(output, "");
                }
                Step::Done(clean) => break clean,
            }
        };
        let kept = clean
            .into_iter()
            .map(|path| {
                let hash = world.hash_of(&path);
                FileHash { path, hash }
            })
            .collect();
        new_index.extend(kept);
    }
    (new_index, dirty_sets, started)
}

fn python_config(lints: &[&str]) -> LintConfig {
    let mut config = LintConfig::new(Vec::new());
    let lints = lints
        .iter()
        .map(|name| Lint { name: name.to_string(), command: name.to_string(), args: Vec::new() })
        .collect();
    config.set("py".to_owned(), lints);
    config
}

#[test]
fn a_changed_file_that_passes_is_indexed_under_its_new_hash() {
    let world = World {
        dirs: vec![(".", vec![("a.py", false)])],
        hashes: vec![("./a.py", "H2")],
        says: vec![("flake", "")],
    };
    let old = index_of(&[("./a.py", "H1")]);
    let (new_index, dirty, started) = run(&world, &python_config(&["flake"]), &old);
    assert_eq!(dirty, vec![strings(&["./a.py"])]);
    assert_eq!(started, strings(&["flake"]));
    assert_eq!(pairs(&new_index), owned(&[("./a.py", "H2")]));
}

#[test]
fn a_changed_file_that_is_reported_stays_out_of_the_index() {
    let world = World {
        dirs: vec![(".", vec![("a.py", false)])],
        hashes: vec![("./a.py", "H2")],
        says: vec![("flake", "./a.py:1:1: E999 SyntaxError\n")],
    };
    let old = index_of(&[("./a.py", "H1")]);
    let (new_index, _, _) = run(&world, &python_config(&["flake"]), &old);
    assert!(new_index.is_empty());
    // It is dirty again on the next run, and linted from the first stage.
    let (_, dirty, started) = run(&world, &python_config(&["flake"]), &new_index);
    assert_eq!(dirty, vec![strings(&["./a.py"])]);
    assert_eq!(started, strings(&["flake"]));
}

#[test]
fn end_to_end_with_bare_names() {
    // The same two scenarios with the index keyed by the bare name.
    let mut new_index = Index::new();
    let old = index_of(&[("a.py", "H1")]);
    let found = vec![FileHash { path: "a.py".to_owned(), hash: "H2".to_owned() }];
    let dirty = dirty_files(found, &old, &mut new_index);
    let flake = Lint { name: "flake".to_owned(), command: "flake8".to_owned(), args: Vec::new() };
    let clean = flake.resolve(dirty.clone(), "all clear\n", "");
    new_index.extend(
        clean.into_iter().map(|path| FileHash { path, hash: "H2".to_owned() }).collect(),
    );
    assert_eq!(pairs(&new_index), owned(&[("a.py", "H2")]));

    let mut new_index = Index::new();
    let found = vec![FileHash { path: "a.py".to_owned(), hash: "H2".to_owned() }];
    let dirty = dirty_files(found, &old, &mut new_index);
    let clean = flake.resolve(dirty, "a.py:3: bad\n", "");
    new_index.extend(
        clean.into_iter().map(|path| FileHash { path, hash: "H2".to_owned() }).collect(),
    );
    assert!(pairs(&new_index).is_empty());
}

#[test]
fn a_second_run_over_an_unchanged_tree_lints_nothing() {
    let world = World {
        dirs: vec![
            (".", vec![("a.py", false), ("src", true), ("notes.txt", false)]),
            ("./src", vec![("b.py", false), ("c.rs", false)]),
        ],
        hashes: vec![("./a.py", "HA"), ("./src/b.py", "HB"), ("./src/c.rs", "HC")],
        says: vec![],
    };
    let mut config = python_config(&["flake", "pylint"]);
    config.set(
        "rs".to_owned(),
        vec![Lint { name: "clippy".to_owned(), command: "clippy".to_owned(), args: Vec::new() }],
    );
    let (first, dirty, started) = run(&world, &config, &index_of(&[("./a.py", "old")]));
    assert_eq!(dirty, vec![strings(&["./a.py", "./src/b.py"]), strings(&["./src/c.rs"])]);
    assert_eq!(started, strings(&["flake", "pylint", "clippy"]));
    assert_eq!(
        pairs(&first),
        owned(&[("./a.py", "HA"), ("./src/b.py", "HB"), ("./src/c.rs", "HC")])
    );
    let (second, dirty, started) = run(&world, &config, &first);
    assert_eq!(dirty, vec![Vec::<String>::new(), Vec::<String>::new()]);
    assert!(started.is_empty());
    assert_eq!(pairs(&second), pairs(&first));
}

#[test]
fn an_unchanged_file_is_never_linted_and_a_changed_one_is() {
    let world = World {
        dirs: vec![(".", vec![("same.py", false), ("changed.py", false), ("new.py", false)])],
        hashes: vec![("./same.py", "H1"), ("./changed.py", "H2b"), ("./new.py", "H3")],
        says: vec![],
    };
    let old = index_of(&[("./same.py", "H1"), ("./changed.py", "H2a"), ("./deleted.py", "H4")]);
    let (new_index, dirty, _) = run(&world, &python_config(&["flake"]), &old);
    assert_eq!(dirty, vec![strings(&["./changed.py", "./new.py"])]);
    assert_eq!(
        pairs(&new_index),
        owned(&[("./same.py", "H1"), ("./changed.py", "H2b"), ("./new.py", "H3")])
    );
}

#[test]
fn a_file_dropped_by_the_first_linter_never_reaches_the_second() {
    let world = World {
        dirs: vec![(".", vec![("f1.py", false), ("f2.py", false)])],
        hashes: vec![("./f1.py", "H1"), ("./f2.py", "H2")],
        says: vec![("A", "./f1.py: no\n"), ("B", "")],
    };
    let (new_index, _, started) = run(&world, &python_config(&["A", "B"]), &Index::new());
    assert_eq!(started, strings(&["A", "B"]));
    assert_eq!(pairs(&new_index), owned(&[("./f2.py", "H2")]));
    assert!(new_index.get("./f1.py").is_none());
}

#[test]
fn ignored_names_are_neither_walked_nor_linted_nor_indexed() {
    let world = World {
        dirs: vec![
            (".", vec![("a.py", false), ("setup.py", false), ("vendor", true), ("src", true)]),
            ("./src", vec![("setup.py", false), ("b.py", false)]),
            ("./vendor", vec![("lib.py", false)]),
        ],
        hashes: vec![("./a.py", "HA"), ("./src/b.py", "HB")],
        says: vec![],
    };
    let mut config = LintConfig::new(strings(&["setup.py", "vendor"]));
    config.set(
        "py".to_owned(),
        vec![Lint { name: "flake".to_owned(), command: "flake8".to_owned(), args: Vec::new() }],
    );
    let (new_index, dirty, _) = run(&world, &config, &Index::new());
    assert_eq!(dirty, vec![strings(&["./a.py", "./src/b.py"])]);
    assert_eq!(pairs(&new_index), owned(&[("./a.py", "HA"), ("./src/b.py", "HB")]));
}

#[test]
fn a_run_without_dirty_files_starts_no_linter() {
    let world = World {
        dirs: vec![(".", vec![("a.py", false)])],
        hashes: vec![("./a.py", "H1")],
        says: vec![("flake", "./a.py would be reported\n")],
    };
    let old = index_of(&[("./a.py", "H1")]);
    let (new_index, dirty, started) = run(&world, &python_config(&["flake"]), &old);
    assert_eq!(dirty, vec![Vec::<String>::new()]);
    assert!(started.is_empty());
    assert_eq!(pairs(&new_index), pairs(&old));
}
