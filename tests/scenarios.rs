use ninja_editor::{ErrorKind, Ninja, ParseError, PatchError, Progress, Session, SourceId};

fn load(files: &[(&str, &str)]) -> Result<Ninja, ParseError> {
    let mut session = Session::new();
    let (root, text) = files[0];
    session.open(root.to_string(), text.as_bytes())?;
    while let Some(path) = session.resume()? {
        let name = String::from_utf8(path.elem.clone()).unwrap();
        let text = files
            .iter()
            .find(|(n, _)| *n == name)
            .map(|(_, t)| *t)
            .expect("file named by the project");
        session.open(name, text.as_bytes())?;
    }
    Ok(session.finish())
}

fn load_err(files: &[(&str, &str)]) -> ParseError {
    match load(files) {
        Ok(_) => panic!("load should fail"),
        Err(e) => e,
    }
}

const MINIMAL: &str = "rule cc\n  command = gcc -c $in -o $out\n\nbuild out.o: cc in.c\n";

#[test]
fn minimal_build_graph() {
    let ninja = load(&[("build.ninja", MINIMAL)]).unwrap();
    let data = ninja.data();
    let cc = data.rule_by_name(b"cc").expect("rule cc");
    assert_eq!(data.rule(cc).name.elem, b"cc".to_vec());
    assert_eq!(data.rule_count(), 2);
    assert_eq!(data.edge_count(), 1);
    let keys = data.edge_keys();
    assert_eq!(keys.len(), 1);
    let edge = data.edge(keys[0]);
    assert_eq!(edge.rule, cc);
    assert_eq!(edge.outputs.len(), 1);
    assert_eq!(edge.outputs[0].elem, b"out.o".to_vec());
    assert_eq!(edge.inputs.len(), 1);
    assert_eq!(edge.inputs[0].elem, b"in.c".to_vec());
    let out = data.node(b"out.o").expect("node out.o");
    assert_eq!(out.locations.len(), 1);
    assert_eq!(out.locations[0].start, 46);
    assert_eq!(out.locations[0].stop, 51);
    let inp = data.node(b"in.c").expect("node in.c");
    assert_eq!(inp.locations.len(), 1);
    assert_eq!(data.nodes().len(), 2);

    let mut changes = ninja.change();
    changes.rename_rule(cc, b"cc2");
    let files = changes.commit().unwrap();
    assert_eq!(files.len(), 1);
    assert_eq!(files[0].source_id, SourceId(0));
    assert_eq!(
        String::from_utf8(files[0].text.clone()).unwrap(),
        "rule cc2\n  command = gcc -c $in -o $out\n\nbuild out.o: cc2 in.c\n"
    );
}

#[test]
fn duplicate_rule_rejected() {
    let text = "rule foo\n  command = a\nrule foo\n  command = b\n";
    let e = load_err(&[("build.ninja", text)]);
    assert_eq!(e.kind, ErrorKind::DuplicateRule);
    assert_eq!(e.loc.source_id, SourceId(0));
    assert_eq!(e.loc.start, 28);
    assert_eq!(e.loc.stop, 31);
}

#[test]
fn phony_is_taken() {
    let e = load_err(&[("build.ninja", "rule phony\n  command = a\n")]);
    assert_eq!(e.kind, ErrorKind::DuplicateRule);
    assert_eq!(e.loc.start, 5);
}

#[test]
fn unknown_rule_rejected() {
    let e = load_err(&[("build.ninja", "build x: bar y\n")]);
    assert_eq!(e.kind, ErrorKind::UnknownRule);
    assert_eq!(e.loc.start, 9);
    assert_eq!(e.loc.stop, 12);
}

#[test]
fn include_propagation() {
    let root = "include sub.ninja\nbuild out: cc in\n";
    let sub = "rule cc\n  command = cc $in\n";
    let ninja = load(&[("build.ninja", root), ("sub.ninja", sub)]).unwrap();
    assert_eq!(ninja.source_count(), 2);
    let cc = ninja.data().rule_by_name(b"cc").unwrap();
    assert_eq!(ninja.data().rule(cc).name.loc.source_id, SourceId(1));
    let mut changes = ninja.change();
    changes.rename_rule(cc, b"compile");
    let files = changes.commit().unwrap();
    assert_eq!(files.len(), 2);
    assert_eq!(files[0].source_id, SourceId(0));
    assert_eq!(
        String::from_utf8(files[0].text.clone()).unwrap(),
        "include sub.ninja\nbuild out: compile in\n"
    );
    assert_eq!(files[1].source_id, SourceId(1));
    assert_eq!(
        String::from_utf8(files[1].text.clone()).unwrap(),
        "rule compile\n  command = cc $in\n"
    );
}

#[test]
fn subninja_shares_rules() {
    let root = "rule cc\n  command = cc\nsubninja sub.ninja\n";
    let sub = "build a: cc b\n";
    let ninja = load(&[("build.ninja", root), ("sub.ninja", sub)]).unwrap();
    assert_eq!(ninja.data().edge_count(), 1);
    let loc = ninja.data().node(b"a").unwrap().locations[0];
    assert_eq!(loc.source_id, SourceId(1));
    assert_eq!(loc.start, 6);
}

#[test]
fn no_op_commit() {
    let ninja = load(&[("build.ninja", MINIMAL)]).unwrap();
    let changes = ninja.change();
    let files = changes.commit().unwrap();
    assert!(files.is_empty());
}

#[test]
fn rename_reaches_every_reference() {
    let text = "rule cc\n  command = x\nrule ld\n  command = y\nbuild a.o: cc a.c\nbuild b.o: cc b.c\nbuild app: ld a.o b.o\nbuild c.o: cc c.c\n";
    let ninja = load(&[("build.ninja", text)]).unwrap();
    let cc = ninja.data().rule_by_name(b"cc").unwrap();
    let mut changes = ninja.change();
    changes.rename_rule(cc, b"X");
    let files = changes.commit().unwrap();
    assert_eq!(files.len(), 1);
    assert_eq!(
        String::from_utf8(files[0].text.clone()).unwrap(),
        "rule X\n  command = x\nrule ld\n  command = y\nbuild a.o: X a.c\nbuild b.o: X b.c\nbuild app: ld a.o b.o\nbuild c.o: X c.c\n"
    );
}

#[test]
fn node_rename_reaches_every_occurrence() {
    let text = "rule cc\n  command = x\nbuild a.o: cc a.c\nbuild app: cc a.o | a.o || a.o\n";
    let ninja = load(&[("build.ninja", text)]).unwrap();
    assert_eq!(ninja.data().node(b"a.o").unwrap().locations.len(), 4);
    let mut changes = ninja.change();
    changes.rename_path(b"a.o", b"obj/a.o");
    let files = changes.commit().unwrap();
    assert_eq!(
        String::from_utf8(files[0].text.clone()).unwrap(),
        "rule cc\n  command = x\nbuild obj/a.o: cc a.c\nbuild app: cc obj/a.o | obj/a.o || obj/a.o\n"
    );
}

#[test]
fn rename_of_absent_path_queues_nothing() {
    let ninja = load(&[("build.ninja", MINIMAL)]).unwrap();
    let mut changes = ninja.change();
    changes.rename_path(b"nothing", b"x");
    assert!(changes.commit().unwrap().is_empty());
}

#[test]
fn load_is_deterministic() {
    let text = "rule cc\n  command = x\nbuild a.o b.o: cc a.c\nbuild app: cc a.o b.o\nv = 1\ndefault app\n";
    let first = load(&[("build.ninja", text)]).unwrap();
    let second = load(&[("build.ninja", text)]).unwrap();
    let (a, b) = (first.data(), second.data());
    assert_eq!(a.rule_count(), b.rule_count());
    assert_eq!(a.edge_count(), b.edge_count());
    assert_eq!(a.nodes().len(), b.nodes().len());
    for (x, y) in a.nodes().iter().zip(b.nodes().iter()) {
        assert_eq!(x.path, y.path);
        assert_eq!(x.locations, y.locations);
    }
    assert_eq!(a.vars().len(), 1);
    assert_eq!(a.vars()[0].value.elem, b"1".to_vec());
    assert_eq!(a.default_target().as_ref().unwrap().elem, b"app".to_vec());
}

#[test]
fn missing_command_rejected() {
    let e = load_err(&[("build.ninja", "rule cc\n  description = x\n")]);
    assert_eq!(e.kind, ErrorKind::MissingCommand);
    assert_eq!(e.loc.start, 5);
}

#[test]
fn duplicate_variable_rejected() {
    let e = load_err(&[("build.ninja", "a = 1\na = 2\n")]);
    assert_eq!(e.kind, ErrorKind::DuplicateVariable);
    assert_eq!(e.loc.start, 6);
}

#[test]
fn second_default_rejected() {
    let e = load_err(&[("build.ninja", "default a\ndefault b\n")]);
    assert_eq!(e.kind, ErrorKind::DuplicateDefault);
    assert_eq!(e.loc.start, 18);
}

#[test]
fn nul_in_source_rejected() {
    let e = load_err(&[("build.ninja", "rule\0cc\n")]);
    assert_eq!(e.kind, ErrorKind::NulInSource);
    assert_eq!(e.loc.start, 4);
}

#[test]
fn missing_newline_after_rule_name() {
    let e = load_err(&[("build.ninja", "rule cc x\n")]);
    assert_eq!(e.kind, ErrorKind::UnexpectedToken);
    assert_eq!(e.loc.start, 8);
}

#[test]
fn stray_character_rejected() {
    let e = load_err(&[("build.ninja", "rule cc\n  command = x\n/x = 1\n")]);
    assert_eq!(e.kind, ErrorKind::UnexpectedChar);
    assert_eq!(e.loc.start, 22);
}

#[test]
fn comments_and_blank_lines_are_skipped() {
    let text = "# a comment\n\nrule cc\n  command = x\n# another\nbuild o: cc i\n";
    let ninja = load(&[("build.ninja", text)]).unwrap();
    assert_eq!(ninja.data().edge_count(), 1);
}

#[test]
fn crlf_lines() {
    let text = "rule cc\r\n  command = x\r\nbuild o: cc i\r\n";
    let ninja = load(&[("build.ninja", text)]).unwrap();
    assert_eq!(ninja.data().edge_count(), 1);
    assert_eq!(ninja.data().node(b"i").unwrap().locations[0].stop, 37);
}

#[test]
fn overlapping_edits_rejected() {
    let ninja = load(&[("build.ninja", MINIMAL)]).unwrap();
    let cc = ninja.data().rule_by_name(b"cc").unwrap();
    let loc = ninja.data().rule(cc).name.loc;
    let mut changes = ninja.change();
    changes.rename_rule(cc, b"a");
    changes.change(loc, b"b");
    let e = changes.commit().err().unwrap();
    assert_eq!(e.kind, PatchError::Overlap);
    assert_eq!(e.source_id, SourceId(0));
}

#[test]
fn out_of_range_edit_rejected() {
    let ninja = load(&[("build.ninja", MINIMAL)]).unwrap();
    let mut changes = ninja.change();
    let loc = ninja_editor::Location { start: 10, stop: 1000, source_id: SourceId(0) };
    changes.change(loc, b"x");
    assert_eq!(changes.commit().err().unwrap().kind, PatchError::OutOfRange);
}

#[test]
fn edit_of_unknown_file_rejected() {
    let ninja = load(&[("build.ninja", MINIMAL)]).unwrap();
    let mut changes = ninja.change();
    let loc = ninja_editor::Location { start: 0, stop: 1, source_id: SourceId(7) };
    changes.change(loc, b"x");
    let e = changes.commit().err().unwrap();
    assert_eq!(e.kind, PatchError::UnknownSource);
    assert_eq!(e.source_id, SourceId(7));
}

#[test]
fn renaming_phony_is_refused_at_commit() {
    let ninja = load(&[("build.ninja", MINIMAL)]).unwrap();
    let phony = ninja.data().phony();
    let mut changes = ninja.change();
    changes.rename_rule(phony, b"fake");
    assert_eq!(changes.commit().err().unwrap().kind, PatchError::UnknownSource);
}

#[test]
fn stepping_through_files() {
    let mut session = Session::new();
    assert!(matches!(session.step(), Ok(Progress::Finished)));
    session.open("build.ninja".to_string(), b"subninja a.ninja\nx = 1\n").unwrap();
    let named = match session.step() {
        Ok(Progress::Named(path)) => path,
        _ => panic!("expected a named file"),
    };
    assert_eq!(named.elem, b"a.ninja".to_vec());
    assert_eq!(named.loc.start, 9);
    assert_eq!(named.loc.stop, 16);
    session.open("a.ninja".to_string(), b"y = 2\n").unwrap();
    assert!(matches!(session.step(), Ok(Progress::FileDone)));
    assert!(matches!(session.step(), Ok(Progress::FileDone)));
    assert!(matches!(session.step(), Ok(Progress::Finished)));
    let ninja = session.finish();
    assert_eq!(ninja.data().vars().len(), 2);
    assert_eq!(ninja.data().vars()[0].name.elem, b"y".to_vec());
    assert_eq!(ninja.data().vars()[1].name.elem, b"x".to_vec());
}

#[test]
fn comment_line_inside_a_rule_block() {
    let text = "rule cc\n# note\n  command = x\nbuild o: cc i\n";
    let ninja = load(&[("build.ninja", text)]).unwrap();
    assert_eq!(ninja.data().edge_count(), 1);
    let cc = ninja.data().rule_by_name(b"cc").unwrap();
    assert_eq!(ninja.data().rule(cc).name.loc.start, 5);
}

#[test]
fn binding_values_and_default_are_kept() {
    let text = "cflags = -O2 $\n    -g\ndefault all\n";
    let ninja = load(&[("build.ninja", text)]).unwrap();
    let vars = ninja.data().vars();
    assert_eq!(vars.len(), 1);
    assert_eq!(vars[0].value.elem, b"-O2 -g".to_vec());
    assert_eq!(vars[0].value.loc.start, 9);
    let d = ninja.data().default_target().as_ref().unwrap();
    assert_eq!(d.elem, b"all".to_vec());
    assert_eq!(d.loc.start, 30);
}
