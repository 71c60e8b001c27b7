use std::collections::HashMap;

use file_mover::entry::{FileEntry, TransferOperation};
use file_mover::pass::{start, UNBOUNDED};

fn file(name: &str) -> FileEntry {
    FileEntry { name: name.to_string(), is_dir: false }
}

fn dir(name: &str) -> FileEntry {
    FileEntry { name: name.to_string(), is_dir: true }
}

fn transfer(source: &str, destination: &str, delete_after: bool) -> TransferOperation {
    TransferOperation {
        source: source.to_string(),
        destination: destination.to_string(),
        delete_after,
    }
}

/// Carries the operations out on files kept in memory, one after the other.
fn carry_out(files: &mut HashMap<String, Vec<u8>>, operations: &[TransferOperation]) {
    for operation in operations {
        let contents = files.get(&operation.source).expect("nothing to read").clone();
        files.insert(operation.destination.clone(), contents);
        if operation.delete_after {
            files.remove(&operation.source);
        }
    }
}

fn on_disk(files: &[(&str, &str)]) -> HashMap<String, Vec<u8>> {
    files.iter().map(|(path, text)| (path.to_string(), text.as_bytes().to_vec())).collect()
}

#[test]
fn unbounded_is_minus_one() {
    assert_eq!(UNBOUNDED, -1);
}

#[test]
fn one_file_is_copied_and_kept() {
    let entries = vec![file("Something.txt")];
    let operations = start("tests/from", "tests/to", &entries, false, -1);
    assert_eq!(
        operations,
        vec![transfer("tests/from/Something.txt", "./tests/to/Something.txt", false)]
    );

    let mut files = on_disk(&[("tests/from/Something.txt", "Some Text")]);
    carry_out(&mut files, &operations);
    assert_eq!(files["./tests/to/Something.txt"], b"Some Text");
    assert_eq!(files["tests/from/Something.txt"], b"Some Text");
    assert_eq!(files.len(), 2);
}

#[test]
fn one_file_is_copied_and_deleted() {
    let entries = vec![file("Something.txt")];
    let operations = start("tests/from", "tests/to", &entries, true, -1);
    assert_eq!(
        operations,
        vec![transfer("tests/from/Something.txt", "./tests/to/Something.txt", true)]
    );

    let mut files = on_disk(&[("tests/from/Something.txt", "Some Text")]);
    carry_out(&mut files, &operations);
    assert_eq!(files["./tests/to/Something.txt"], b"Some Text");
    assert!(!files.contains_key("tests/from/Something.txt"));
    assert_eq!(files.len(), 1);
}

#[test]
fn an_empty_listing_gives_no_operation() {
    assert!(start("from", "to", &Vec::new(), true, -1).is_empty());
    assert!(start("from", "to", &Vec::new(), false, 5).is_empty());
}

#[test]
fn an_unbounded_pass_takes_every_file() {
    let entries = vec![file("a"), file("b"), file("c"), file("d")];
    let operations = start("from", "to", &entries, false, UNBOUNDED);
    assert_eq!(
        operations,
        vec![
            transfer("from/a", "./to/a", false),
            transfer("from/b", "./to/b", false),
            transfer("from/c", "./to/c", false),
            transfer("from/d", "./to/d", false),
        ]
    );
}

#[test]
fn every_file_arrives_with_its_bytes() {
    let entries = vec![file("a.bin"), dir("sub"), file("b.txt"), file("empty")];
    let before = on_disk(&[
        ("from/a.bin", "\u{0}\u{1}\u{2}"),
        ("from/b.txt", "You dumb"),
        ("from/empty", ""),
        ("./to/old", "stays"),
    ]);
    let mut after = before.clone();
    carry_out(&mut after, &start("from", "to", &entries, false, UNBOUNDED));
    for name in ["a.bin", "b.txt", "empty"] {
        assert_eq!(after[&format!("./to/{}", name)], before[&format!("from/{}", name)]);
        assert_eq!(after[&format!("from/{}", name)], before[&format!("from/{}", name)]);
    }
    assert_eq!(after["./to/b.txt"].len(), 8);
    assert_eq!(after["./to/old"], b"stays");
    assert_eq!(after.len(), 7);
}

#[test]
fn delete_removes_each_transferred_source() {
    let entries = vec![file("a"), file("b")];
    let before = on_disk(&[("from/a", "first"), ("from/b", "second")]);

    let mut moved = before.clone();
    carry_out(&mut moved, &start("from", "to", &entries, true, UNBOUNDED));
    assert_eq!(moved, on_disk(&[("./to/a", "first"), ("./to/b", "second")]));

    let mut copied = before.clone();
    carry_out(&mut copied, &start("from", "to", &entries, false, UNBOUNDED));
    assert_eq!(
        copied,
        on_disk(&[
            ("from/a", "first"),
            ("from/b", "second"),
            ("./to/a", "first"),
            ("./to/b", "second"),
        ])
    );
}

#[test]
fn a_bounded_pass_takes_exactly_the_first_files() {
    let entries = vec![file("a"), file("b"), file("c")];
    assert_eq!(
        start("from", "to", &entries, true, 2),
        vec![transfer("from/a", "./to/a", true), transfer("from/b", "./to/b", true)]
    );
    assert_eq!(start("from", "to", &entries, true, 1), vec![transfer("from/a", "./to/a", true)]);
}

#[test]
fn a_bounded_pass_leaves_the_rest_alone() {
    let entries = vec![file("a"), file("b"), file("c")];
    let before = on_disk(&[("from/a", "1"), ("from/b", "2"), ("from/c", "3")]);
    let mut after = before.clone();
    carry_out(&mut after, &start("from", "to", &entries, true, 1));
    assert_eq!(after, on_disk(&[("./to/a", "1"), ("from/b", "2"), ("from/c", "3")]));
}

#[test]
fn the_count_starts_anew_with_every_pass() {
    let first = vec![file("a"), file("b"), file("c")];
    let second = vec![file("b"), file("c")];
    assert_eq!(start("from", "to", &first, true, 1).len(), 1);
    assert_eq!(start("from", "to", &second, true, 1), vec![transfer("from/b", "./to/b", true)]);
}

#[test]
fn a_count_of_zero_takes_nothing() {
    let entries = vec![file("a"), file("b")];
    assert!(start("from", "to", &entries, false, 0).is_empty());
}

#[test]
fn a_count_below_minus_one_takes_nothing() {
    let entries = vec![file("a"), file("b")];
    assert!(start("from", "to", &entries, false, -2).is_empty());
    assert!(start("from", "to", &entries, true, i16::MIN).is_empty());
}

#[test]
fn a_count_beyond_the_files_takes_them_all() {
    let entries = vec![file("a"), dir("d"), file("b")];
    let expected = vec![transfer("from/a", "./to/a", false), transfer("from/b", "./to/b", false)];
    assert_eq!(start("from", "to", &entries, false, 2), expected);
    assert_eq!(start("from", "to", &entries, false, 3), expected);
    assert_eq!(start("from", "to", &entries, false, i16::MAX), expected);
}

#[test]
fn directories_are_passed_over() {
    let entries = vec![dir("first"), file("a"), dir("second"), dir("third"), file("b")];
    let operations = start("from", "to", &entries, true, UNBOUNDED);
    assert_eq!(operations, vec![transfer("from/a", "./to/a", true), transfer("from/b", "./to/b", true)]);
    for operation in &operations {
        for name in ["first", "second", "third"] {
            assert_ne!(operation.source, format!("from/{}", name));
            assert_ne!(operation.destination, format!("./to/{}", name));
        }
    }
}

#[test]
fn directories_do_not_count() {
    let entries = vec![dir("first"), dir("second"), file("a"), file("b")];
    assert_eq!(start("from", "to", &entries, false, 1), vec![transfer("from/a", "./to/a", false)]);
}

#[test]
fn only_directories_give_no_operation() {
    let entries = vec![dir("first"), dir("second")];
    assert!(start("from", "to", &entries, true, UNBOUNDED).is_empty());
}

#[test]
fn an_absolute_destination_is_kept() {
    let entries = vec![file("a")];
    assert_eq!(
        start("/var/in", "/var/out", &entries, false, UNBOUNDED),
        vec![transfer("/var/in/a", "/var/out/a", false)]
    );
}

#[test]
fn folders_may_end_in_a_separator() {
    let entries = vec![file("a")];
    assert_eq!(
        start("in/", "out/", &entries, false, UNBOUNDED),
        vec![transfer("in/a", "./out/a", false)]
    );
}

#[test]
fn the_listing_is_left_as_it_was() {
    let entries = vec![file("a"), dir("d")];
    let kept = entries.clone();
    let _ = start("from", "to", &entries, true, UNBOUNDED);
    assert_eq!(entries, kept);
}
