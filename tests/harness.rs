use wasmer_pack_testing::detect::detect_languages;
use wasmer_pack_testing::language::{language_of_file, Language};
use wasmer_pack_testing::normalize::normalize;
use wasmer_pack_testing::run::{Action, Run, Stage};
use wasmer_pack_testing::selection::{capture, is_included};
use wasmer_pack_testing::snapshot::{Difference, SnapshotFile, SnapshotStore};

fn paths(v: &[&str]) -> Vec<String> {
    v.iter().map(|s| s.to_string()).collect()
}

fn file(path: &str, contents: &str) -> SnapshotFile {
    SnapshotFile { path: path.to_string(), contents: contents.to_string() }
}

#[test]
fn only_python_files_detect_python() {
    let set = detect_languages(&paths(&["tests/test_main.py", "tests/conftest.py", "README.md"]));
    assert!(set.contains(Language::Python));
    assert!(!set.contains(Language::JavaScript));
    assert_eq!(set.len(), 1);
}

#[test]
fn only_javascript_files_detect_javascript() {
    let set = detect_languages(&paths(&["index.mjs", "lib/a.js", "types.ts"]));
    assert!(set.contains(Language::JavaScript));
    assert!(!set.contains(Language::Python));
    assert_eq!(set.len(), 1);
}

#[test]
fn both_kinds_detect_both() {
    let set = detect_languages(&paths(&["test_it.py", "it.test.ts"]));
    assert_eq!(set.len(), 2);
    assert_eq!(set.in_order(), vec![Language::JavaScript, Language::Python]);
}

#[test]
fn no_signature_detects_nothing() {
    let set = detect_languages(&paths(&["Cargo.toml", "src/lib.rs", "Makefile"]));
    assert_eq!(set.len(), 0);
    assert!(set.in_order().is_empty());
    assert_eq!(detect_languages(&Vec::new()).len(), 0);
}

#[test]
fn detection_does_not_depend_on_order() {
    let a = detect_languages(&paths(&["a.py", "b.rs", "c.js"]));
    let b = detect_languages(&paths(&["c.js", "a.py", "b.rs", "a.py"]));
    assert_eq!(a, b);
}

#[test]
fn extension_is_taken_from_the_file_name() {
    assert_eq!(language_of_file("dir/x.py"), Some(Language::Python));
    assert_eq!(language_of_file("x.ts"), Some(Language::JavaScript));
    assert_eq!(language_of_file("pkg.py/readme"), None);
    assert_eq!(language_of_file(".py"), None);
    assert_eq!(language_of_file("dir/.js"), None);
    assert_eq!(language_of_file("a.tar.py"), Some(Language::Python));
    assert_eq!(language_of_file("x.pyc"), None);
    assert_eq!(language_of_file("noext"), None);
}

#[test]
fn names_are_canonical() {
    assert_eq!(Language::Python.name(), "python");
    assert_eq!(Language::JavaScript.name(), "javascript");
}

#[test]
fn version_strings_are_collapsed() {
    assert_eq!(normalize("wasmer-pack v0.5.2"), "wasmer-pack vX.Y.Z");
    assert_eq!(
        normalize("# made by wasmer-pack v10.22.333 and wasmer-pack v1.0.0!"),
        "# made by wasmer-pack vX.Y.Z and wasmer-pack vX.Y.Z!"
    );
    assert_eq!(normalize("wasmer-pack v1.2"), "wasmer-pack v1.2");
    assert_eq!(normalize("wasmer-pack 1.2.3"), "wasmer-pack 1.2.3");
    assert_eq!(normalize("wasmer-pack v1.2.3.4"), "wasmer-pack vX.Y.Z.4");
    assert_eq!(normalize(""), "");
}

#[test]
fn python_inclusion_rule() {
    assert!(is_included(Language::Python, "hello/__init__.py"));
    assert!(is_included(Language::Python, "pyproject.toml"));
    assert!(is_included(Language::Python, "MANIFEST.in"));
    assert!(is_included(Language::Python, "hello/py.typed"));
    assert!(!is_included(Language::Python, "hello/__pycache__/x.pyc"));
    assert!(!is_included(Language::Python, "hello/hello.wasm"));
}

#[test]
fn javascript_inclusion_rule() {
    assert!(is_included(Language::JavaScript, "package/src/index.js"));
    assert!(is_included(Language::JavaScript, "package/src/index.d.ts"));
    assert!(is_included(Language::JavaScript, "package/package.json"));
    assert!(!is_included(Language::JavaScript, "package/package-lock.json"));
    assert!(!is_included(Language::JavaScript, "package/node_modules/x/index.js"));
    assert!(!is_included(Language::JavaScript, "node_modules/index.js"));
    assert!(is_included(Language::JavaScript, "package/my_node_modules/index.js"));
}

#[test]
fn capture_selects_sorts_and_normalizes() {
    let generated = vec![
        file("pkg/b.py", "print(1)"),
        file("pkg/x.wasm", "binary"),
        file("pkg/a.py", "# wasmer-pack v0.7.1"),
        file("pyproject.toml", "[tool]"),
    ];
    let cap = capture(Language::Python, &generated);
    assert_eq!(cap.paths(), paths(&["pkg/a.py", "pkg/b.py", "pyproject.toml"]));
    assert_eq!(cap.files()[0].contents, "# wasmer-pack vX.Y.Z");
}

#[test]
fn empty_store_bootstraps() {
    let cap = capture(Language::Python, &vec![file("a.py", "1"), file("b.py", "2")]);
    let mut store = SnapshotStore::new();
    let diffs = store.check(&cap);
    assert!(diffs.is_empty());
    assert_eq!(store.manifest().clone(), Some(paths(&["a.py", "b.py"])));
    assert_eq!(store.baseline(&"a.py".to_string()), Some("1".to_string()));
    assert_eq!(store.baseline(&"b.py".to_string()), Some("2".to_string()));
}

#[test]
fn rerun_without_changes_is_clean() {
    let cap = capture(Language::Python, &vec![file("a.py", "1"), file("b.py", "2")]);
    let mut store = SnapshotStore::new();
    assert!(store.check(&cap).is_empty());
    assert!(store.check(&cap).is_empty());
    assert_eq!(store.entries().len(), 2);
}

#[test]
fn version_bump_is_no_difference() {
    let before = capture(Language::Python, &vec![file("a.py", "# wasmer-pack v0.5.0\nx = 1")]);
    let after = capture(Language::Python, &vec![file("a.py", "# wasmer-pack v0.6.13\nx = 1")]);
    let mut store = SnapshotStore::new();
    store.check(&before);
    assert!(store.check(&after).is_empty());
}

#[test]
fn content_change_is_one_difference() {
    let before = capture(Language::Python, &vec![file("a.py", "x = 1"), file("b.py", "y = 2")]);
    let after = capture(Language::Python, &vec![file("a.py", "x = 1"), file("b.py", "y = 3")]);
    let mut store = SnapshotStore::new();
    store.check(&before);
    let diffs = store.check(&after);
    assert_eq!(diffs.len(), 1);
    match &diffs[0] {
        Difference::Content { path, baseline, current } => {
            assert_eq!(path, "b.py");
            assert_eq!(baseline, "y = 2");
            assert_eq!(current, "y = 3");
        }
        other => panic!("unexpected {:?}", other),
    }
    assert_eq!(store.baseline(&"b.py".to_string()), Some("y = 2".to_string()));
}

#[test]
fn removed_file_is_a_manifest_difference() {
    let before = capture(Language::Python, &vec![file("a.py", "x"), file("b.py", "y")]);
    let after = capture(Language::Python, &vec![file("a.py", "x")]);
    let mut store = SnapshotStore::new();
    store.check(&before);
    let diffs = store.check(&after);
    assert_eq!(diffs.len(), 1);
    match &diffs[0] {
        Difference::Manifest { baseline, current } => {
            assert_eq!(baseline, &paths(&["a.py", "b.py"]));
            assert_eq!(current, &paths(&["a.py"]));
        }
        other => panic!("unexpected {:?}", other),
    }
}

#[test]
fn accept_replaces_baselines() {
    let before = capture(Language::Python, &vec![file("a.py", "x"), file("b.py", "y")]);
    let after = capture(Language::Python, &vec![file("a.py", "z")]);
    let mut store = SnapshotStore::new();
    store.check(&before);
    assert_eq!(store.check(&after).len(), 2);
    store.accept(&after);
    assert!(store.check(&after).is_empty());
    assert_eq!(store.baseline(&"b.py".to_string()), None);
}

#[test]
fn accept_one_file() {
    let before = capture(Language::Python, &vec![file("a.py", "x"), file("b.py", "y")]);
    let after = capture(Language::Python, &vec![file("a.py", "x"), file("b.py", "w")]);
    let mut store = SnapshotStore::new();
    store.check(&before);
    store.accept_file("b.py".to_string(), "w".to_string());
    assert!(store.check(&after).is_empty());
    assert_eq!(store.baseline(&"a.py".to_string()), Some("x".to_string()));
}

fn drive(run: &mut Run, fail_at: Option<(Language, Stage)>) -> (Vec<(Language, Stage)>, Action) {
    let mut done = Vec::new();
    loop {
        match run.next_action() {
            Action::Perform(l, s) => {
                done.push((l, s));
                run.report(fail_at != Some((l, s)));
            }
            other => return (done, other),
        }
    }
}

#[test]
fn both_languages_run_every_stage_in_order() {
    let set = detect_languages(&paths(&["tests/test_a.py", "tests/a.test.ts"]));
    let mut run = Run::new(&set);
    let (done, end) = drive(&mut run, None);
    assert_eq!(end, Action::Finish);
    assert_eq!(done.len(), 8);
    assert_eq!(done[0], (Language::JavaScript, Stage::Generate));
    assert_eq!(done[3], (Language::JavaScript, Stage::Snapshot));
    assert_eq!(done[4], (Language::Python, Stage::Generate));
    assert_eq!(done[6], (Language::Python, Stage::Test));
}

#[test]
fn failing_test_suite_stops_before_the_next_language() {
    let set = detect_languages(&paths(&["tests/test_a.py", "tests/a.test.ts"]));
    let mut run = Run::new(&set);
    let (done, end) = drive(&mut run, Some((Language::JavaScript, Stage::Test)));
    assert_eq!(end, Action::Abort(Language::JavaScript, Stage::Test));
    assert!(done.iter().all(|(l, _)| *l == Language::JavaScript));
    assert_eq!(done.len(), 3);
    assert_eq!(run.next_action(), Action::Abort(Language::JavaScript, Stage::Test));
}

#[test]
fn failure_of_the_last_language_aborts() {
    let set = detect_languages(&paths(&["tests/test_a.py", "tests/a.test.ts"]));
    let mut run = Run::new(&set);
    let (done, end) = drive(&mut run, Some((Language::Python, Stage::Test)));
    assert_eq!(end, Action::Abort(Language::Python, Stage::Test));
    assert_eq!(done.len(), 7);
}

#[test]
fn no_language_finishes_at_once() {
    let set = detect_languages(&Vec::new());
    let run = Run::new(&set);
    assert_eq!(run.next_action(), Action::Finish);
}
