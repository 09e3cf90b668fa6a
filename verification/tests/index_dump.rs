use lemma::index_dump::{analyze_dump, parse_entry_line};

#[test]
fn entry_line_is_read() {
    let e = parse_entry_line("indx[3].entries[42] = { label = \"Έδειχναν\", label_bytes = 16 }").unwrap();
    assert_eq!((e.record, e.entry, e.label.as_str()), (3, 42, "Έδειχναν"));
    let r = parse_entry_line("indx[0].entries[1] = { routing_label = \"AB\", label_bytes = 4 }").unwrap();
    assert_eq!((r.record, r.entry, r.label.as_str()), (0, 1, "AB"));
    let plus = parse_entry_line("indx[+7].entries[+0] = { label = \"x\" }").unwrap();
    assert_eq!((plus.record, plus.entry), (7, 0));
}

#[test]
fn other_lines_are_skipped() {
    assert!(parse_entry_line("indx[3] = { count = 2 }").is_none());
    assert!(parse_entry_line("indx[x].entries[1] = { label = \"a\" }").is_none());
    assert!(parse_entry_line("indx[1].entries[] = { label = \"a\" }").is_none());
    assert!(parse_entry_line("indx[1].entries[2] = { count = 3 }").is_none());
    assert!(parse_entry_line("indx[-1].entries[2] = { label = \"a\" }").is_none());
    assert!(parse_entry_line("indx[99999999999999999999999].entries[2] = { label = \"a\" }").is_none());
    assert!(parse_entry_line(" indx[1].entries[2] = { label = \"a\" }").is_none());
}

#[test]
fn dump_is_grouped_checked_and_searched() {
    let dump = "header line\n\
indx[2].entries[0] = { label = \"β\" }\n\
indx[1].entries[0] = { label = \"α\" }\r\n\
indx[1].entries[1] = { label = \"γ\" }\n\
indx[2].entries[1] = { label = \"α\" }\n\
indx[1].entries[2] = { label = \"γ\" }\n";
    let targets = vec!["γ".to_string(), "δ".to_string(), "α".to_string()];
    let report = analyze_dump(dump, &targets);
    assert_eq!(report.entries.len(), 5);
    assert_eq!(report.records.len(), 2);
    assert_eq!(report.records[0].record, 1);
    assert_eq!(report.records[0].positions, vec![1, 2, 4]);
    assert_eq!(report.records[1].record, 2);
    assert_eq!(report.records[1].positions, vec![0, 3]);
    assert_eq!(report.violations.len(), 1);
    let v = &report.violations[0];
    assert_eq!((v.record, v.previous.as_str(), v.previous_entry, v.label.as_str(), v.entry), (2, "β", 0, "α", 1));
    assert_eq!(report.lookups.len(), 3);
    assert!(report.lookups[0].found);
    assert_eq!(report.lookups[0].hits, vec![(1, 1), (1, 2)]);
    assert!(!report.lookups[1].found);
    assert!(report.lookups[1].hits.is_empty());
    assert_eq!(report.lookups[2].target, "α");
    assert_eq!(report.lookups[2].hits, vec![(1, 0), (2, 1)]);
}

#[test]
fn ordered_dump_has_no_violation() {
    let dump = "indx[0].entries[0] = { label = \"Α\" }\nindx[0].entries[1] = { label = \"α\" }\nindx[0].entries[2] = { label = \"α\" }";
    let report = analyze_dump(dump, &vec![]);
    assert!(report.violations.is_empty());
    assert!(report.lookups.is_empty());
    assert_eq!(report.entries.len(), 3);
}
