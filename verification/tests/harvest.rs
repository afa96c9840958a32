use lib::cli::Toolbox;
use lib::harvest::{parse_records, Record};
use lib::kinds::{NAKED_TRIPLE, XY_WING};

const FIXTURE: &str = "\
# harvested fixtures
force xy-wing
toolbox drill
window 100000 2000
hit 100003 ....5.14...
sample 146012 ...6...

# a positive-only record
force naked-triple:2
force xy-wing
sample 7 12.3
";

#[test]
fn reads_records_in_order() {
    let recs = parse_records(FIXTURE).unwrap();
    assert_eq!(recs.len(), 2);
    assert_eq!(recs[0].forces, vec![(XY_WING, 1)]);
    assert_eq!(recs[0].toolbox, Toolbox::Drill);
    assert_eq!(recs[0].window, Some((100000, 2000)));
    assert_eq!(recs[0].hits, vec![(100003, "....5.14...".to_string())]);
    assert_eq!(recs[0].samples, vec![(146012, "...6...".to_string())]);
    assert_eq!(recs[1].forces, vec![(NAKED_TRIPLE, 2), (XY_WING, 1)]);
    assert_eq!(recs[1].toolbox, Toolbox::Train);
    assert_eq!(recs[1].window, None);
    assert!(recs[1].hits.is_empty());
    assert!(recs[1].has_positive());
    assert_eq!(recs[1].label(), "naked-triplex2 + xy-wing");
    assert_eq!(recs[1].force_tokens(), vec!["naked-triple:2".to_string(), "xy-wing".to_string()]);
}

#[test]
fn written_blocks_read_back() {
    let rec = Record {
        forces: vec![(XY_WING, 1), (NAKED_TRIPLE, 3)],
        toolbox: Toolbox::Full,
        window: Some((5, 10)),
        hits: vec![(6, "1.2".to_string()), (9, "..3".to_string())],
        samples: vec![(42, "4..".to_string())],
    };
    let mut buf = String::new();
    rec.write_block(&mut buf);
    assert_eq!(
        buf,
        "force xy-wing\nforce naked-triple:3\ntoolbox full\nwindow 5 10\nhit 6 1.2\nhit 9 ..3\nsample 42 4..\n"
    );
    let back = parse_records(&buf).unwrap();
    assert_eq!(back.len(), 1);
    assert_eq!(back[0].forces, rec.forces);
    assert_eq!(back[0].toolbox, rec.toolbox);
    assert_eq!(back[0].window, rec.window);
    assert_eq!(back[0].hits, rec.hits);
    assert_eq!(back[0].samples, rec.samples);
}

#[test]
fn blocks_without_force_are_skipped() {
    let recs = parse_records("toolbox full\n\n# only a comment\n\n\n").unwrap();
    assert!(recs.is_empty());
    assert!(parse_records("").unwrap().is_empty());
}

#[test]
fn malformed_lines_are_errors() {
    let err = |t: &str| parse_records(t).err().unwrap();
    assert_eq!(err("force\n"), "'force' needs a NAME[:COUNT]");
    assert_eq!(err("force x-wing\nwindow ten 3\n"), "bad 'window' base");
    assert_eq!(err("force x-wing\nwindow 10\n"), "bad 'window' span");
    assert_eq!(err("force x-wing\nhit -1 ...\n"), "bad seed");
    assert_eq!(err("force x-wing\nsample 3\n"), "missing puzzle");
    assert_eq!(err("force x-wing\nbogus 1\n"), "unknown directive \"bogus\"");
    assert!(err("force nothing\n").starts_with("unknown kind \"nothing\"; known: naked-single, "));
}

#[test]
fn crlf_and_indentation_are_trimmed() {
    let recs = parse_records("  force x-wing \r\n\ttoolbox drill\r\n\r\nforce swordfish").unwrap();
    assert_eq!(recs.len(), 2);
    assert_eq!(recs[0].toolbox, Toolbox::Drill);
    assert_eq!(recs[1].forces.len(), 1);
}
