use std::collections::HashMap;

use ctenv::plan::{materialize, Plan};

fn run(contents: &str, pkg: &str) -> Plan {
    materialize(contents.as_bytes(), pkg.as_bytes())
}

fn pairs(p: &Plan) -> Vec<(Vec<u8>, Vec<u8>)> {
    p.artifacts.iter().map(|a| (a.key.clone(), a.value.clone())).collect()
}

/// Writes the plan's artifacts, in order, into a directory modelled as a
/// map from file name to contents, overwriting as a real run would.
fn write_all(dir: &mut HashMap<Vec<u8>, Vec<u8>>, p: &Plan) {
    for a in &p.artifacts {
        dir.insert(a.key.clone(), a.value.clone());
    }
}

#[test]
fn owned_entries_become_artifacts_with_exact_contents() {
    let p = run("foo:BUF_SZ=128\nfoo:NAME=board\n", "foo");
    assert!(p.failure.is_none());
    assert_eq!(
        pairs(&p),
        vec![
            (b"BUF_SZ".to_vec(), b"128".to_vec()),
            (b"NAME".to_vec(), b"board".to_vec()),
        ]
    );
}

#[test]
fn foreign_entries_create_no_artifact() {
    let p = run("foo:BUF_SZ=128\nbar:OTHER=9\n", "foo");
    assert!(p.failure.is_none());
    assert_eq!(pairs(&p), vec![(b"BUF_SZ".to_vec(), b"128".to_vec())]);
}

#[test]
fn comment_then_entry() {
    let p = run("# note\nfoo:BUF_SZ=128", "foo");
    assert!(p.failure.is_none());
    assert_eq!(pairs(&p), vec![(b"BUF_SZ".to_vec(), b"128".to_vec())]);
}

#[test]
fn comments_never_error_and_never_contribute() {
    let p = run("# plain\n#foo:KEY=1\n#no delimiters\n#\n", "foo");
    assert!(p.failure.is_none());
    assert!(p.artifacts.is_empty());
}

#[test]
fn missing_equals_fails_with_line_one() {
    let p = run("foo:BUF_SZ128", "foo");
    assert_eq!(p.failure.as_ref().map(|e| e.line), Some(1));
    assert!(p.artifacts.is_empty());
}

#[test]
fn malformed_line_reports_its_line_and_halts() {
    let p = run("foo:A=1\nfoo:B=2\nnonsense\nfoo:C=3\n", "foo");
    assert_eq!(p.failure.as_ref().map(|e| e.line), Some(3));
    assert_eq!(
        pairs(&p),
        vec![(b"A".to_vec(), b"1".to_vec()), (b"B".to_vec(), b"2".to_vec())]
    );
}

#[test]
fn comment_lines_still_count_for_line_numbers() {
    let p = run("# one\n# two\nbroken", "foo");
    assert_eq!(p.failure.as_ref().map(|e| e.line), Some(3));
}

#[test]
fn blank_line_is_a_parse_failure() {
    let p = run("foo:A=1\n\nfoo:B=2", "foo");
    assert_eq!(p.failure.as_ref().map(|e| e.line), Some(2));
    assert_eq!(pairs(&p), vec![(b"A".to_vec(), b"1".to_vec())]);
}

#[test]
fn empty_file_plans_nothing_and_succeeds() {
    let p = run("", "foo");
    assert!(p.failure.is_none());
    assert!(p.artifacts.is_empty());
}

#[test]
fn trailing_newline_adds_no_line() {
    let with = run("foo:A=1\n", "foo");
    let without = run("foo:A=1", "foo");
    assert!(with.failure.is_none());
    assert!(without.failure.is_none());
    assert_eq!(pairs(&with), pairs(&without));
}

#[test]
fn carriage_returns_are_stripped_from_line_ends() {
    let p = run("foo:A=1\r\nfoo:B=2\r\n", "foo");
    assert!(p.failure.is_none());
    assert_eq!(
        pairs(&p),
        vec![(b"A".to_vec(), b"1".to_vec()), (b"B".to_vec(), b"2".to_vec())]
    );
}

#[test]
fn bare_carriage_return_at_end_of_file_stays_in_the_value() {
    let p = run("foo:A=1\r", "foo");
    assert!(p.failure.is_none());
    assert_eq!(pairs(&p), vec![(b"A".to_vec(), b"1\r".to_vec())]);
}

#[test]
fn value_with_equals_is_kept_verbatim() {
    let p = run("foo:KEY=a=b=c", "foo");
    assert!(p.failure.is_none());
    assert_eq!(pairs(&p), vec![(b"KEY".to_vec(), b"a=b=c".to_vec())]);
}

#[test]
fn empty_value_writes_an_empty_artifact() {
    let p = run("foo:EMPTY=", "foo");
    assert!(p.failure.is_none());
    assert_eq!(pairs(&p), vec![(b"EMPTY".to_vec(), b"".to_vec())]);
}

#[test]
fn owner_match_is_exact_string_equality() {
    let p = run("foobar:A=1\nfoo2:B=2\nFOO:C=3\nfo:D=4\n", "foo");
    assert!(p.failure.is_none());
    assert!(p.artifacts.is_empty());
}

#[test]
fn duplicate_key_writes_land_on_the_last_value() {
    let p = run("foo:K=first\nfoo:K=second\n", "foo");
    assert!(p.failure.is_none());
    let mut dir: HashMap<Vec<u8>, Vec<u8>> = HashMap::new();
    write_all(&mut dir, &p);
    assert_eq!(dir.get(&b"K".to_vec()), Some(&b"second".to_vec()));
}

#[test]
fn running_twice_on_an_unchanged_file_changes_nothing() {
    let contents = "# shared\nfoo:BUF_SZ=128\nbar:OTHER=9\nfoo:NAME=board\n";
    let first = run(contents, "foo");
    let second = run(contents, "foo");
    assert!(first.failure.is_none());
    assert_eq!(pairs(&first), pairs(&second));

    let mut dir: HashMap<Vec<u8>, Vec<u8>> = HashMap::new();
    write_all(&mut dir, &first);
    let after_once = dir.clone();
    write_all(&mut dir, &second);
    assert_eq!(dir, after_once);
}

#[test]
fn stale_artifacts_from_removed_keys_persist() {
    // Known staleness property: a run never deletes artifacts, so a key
    // removed from the configuration file keeps its old artifact until
    // the directory itself is recycled.
    let mut dir: HashMap<Vec<u8>, Vec<u8>> = HashMap::new();
    write_all(&mut dir, &run("foo:OLD=1\nfoo:KEPT=2\n", "foo"));
    write_all(&mut dir, &run("foo:KEPT=2\n", "foo"));
    assert_eq!(dir.get(&b"OLD".to_vec()), Some(&b"1".to_vec()));
    assert_eq!(dir.get(&b"KEPT".to_vec()), Some(&b"2".to_vec()));
}
