use ninja_editor::{generate_new_file, Change, Location, PatchError, SourceId};

fn edit(start: usize, stop: usize, text: &str) -> Change {
    Change {
        loc: Location { start, stop, source_id: SourceId(0) },
        new_text: text.as_bytes().to_vec(),
    }
}

#[test]
fn edits_apply_in_order_of_start() {
    let text = b"hello world";
    let edits = vec![edit(6, 11, "there"), edit(0, 5, "HI"), edit(5, 5, ",")];
    let out = generate_new_file(text, &edits).unwrap();
    assert_eq!(String::from_utf8(out).unwrap(), "HI, there");
}

#[test]
fn no_edits_keep_the_text() {
    let out = generate_new_file(b"abc", &Vec::new()).unwrap();
    assert_eq!(out, b"abc".to_vec());
}

#[test]
fn insertion_at_end() {
    let out = generate_new_file(b"abc", &vec![edit(3, 3, "!")]).unwrap();
    assert_eq!(out, b"abc!".to_vec());
}

#[test]
fn same_start_conflicts() {
    let r = generate_new_file(b"abcdef", &vec![edit(2, 2, "x"), edit(2, 4, "y")]);
    assert_eq!(r.err().unwrap(), PatchError::Overlap);
}

#[test]
fn overlap_conflicts() {
    let r = generate_new_file(b"abcdef", &vec![edit(1, 4, "x"), edit(3, 5, "y")]);
    assert_eq!(r.err().unwrap(), PatchError::Overlap);
}

#[test]
fn adjacent_edits_are_fine() {
    let out = generate_new_file(b"abcdef", &vec![edit(3, 6, "Z"), edit(0, 3, "Y")]).unwrap();
    assert_eq!(out, b"YZ".to_vec());
}

#[test]
fn range_past_the_end() {
    let r = generate_new_file(b"abc", &vec![edit(2, 4, "x")]);
    assert_eq!(r.err().unwrap(), PatchError::OutOfRange);
}

#[test]
fn reversed_range() {
    let r = generate_new_file(b"abc", &vec![edit(2, 1, "x")]);
    assert_eq!(r.err().unwrap(), PatchError::OutOfRange);
}
