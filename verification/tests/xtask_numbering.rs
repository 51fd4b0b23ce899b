use monospace::xtask::numbering::{
    claimed_twice, entries_of, number_of, numbered, padded_out, report, verdict,
};

#[test]
fn one_number_per_entry_is_no_clash() {
    let entries = vec![
        "0000-first-record.md".to_string(),
        "0001-second-record.md".to_string(),
    ];

    assert!(claimed_twice(&entries).is_empty());
}

#[test]
fn two_entries_under_one_number_clash() {
    let entries = vec![
        "0063-first-thing.md".to_string(),
        "0063-second-thing.md".to_string(),
    ];

    let clash = claimed_twice(&entries);
    assert_eq!(clash.len(), 1);
    assert_eq!(clash[0].number, "63");
    assert_eq!(clash[0].claiming.len(), 2);
}

#[test]
fn three_entries_under_one_number_are_one_clash() {
    let entries = vec![
        "0063-a.md".to_string(),
        "0063-b.md".to_string(),
        "0063-c.md".to_string(),
    ];

    assert_eq!(claimed_twice(&entries).len(), 1);
}

#[test]
fn a_name_without_leading_digits_claims_no_number() {
    let entries = vec![
        "README.md".to_string(),
        "adr-template.md".to_string(),
        "constitution-history.md".to_string(),
    ];

    assert!(claimed_twice(&entries).is_empty());
}

#[test]
fn the_report_names_the_number_the_entries_and_the_fix() {
    let entries = vec!["0063-a.md".to_string(), "0063-b.md".to_string()];

    let message = report("docs/decisions", numbered()[0].1, &claimed_twice(&entries)[0]);

    assert!(message.contains("0063"), "{message}");
    assert!(message.contains("docs/decisions/0063-a.md"), "{message}");
    assert!(message.contains("docs/decisions/0063-b.md"), "{message}");
    assert!(message.contains("README.md"), "{message}");
}

#[test]
fn a_name_of_nothing_but_digits_claims_all_of_itself() {
    assert_eq!(number_of("0063").as_deref(), Some("0063"));
}

#[test]
fn a_directory_is_an_entry_by_its_first_segment() {
    assert_eq!(number_of("079-a-diagram-holds-shapes").as_deref(), Some("079"));
}

#[test]
fn two_spellings_of_one_number_are_one_clash() {
    let entries = vec![
        "0006-record-the-session.md".to_string(),
        "6-the-same-number-written-differently.md".to_string(),
    ];

    let clash = claimed_twice(&entries);
    assert_eq!(clash.len(), 1);
    assert_eq!(clash[0].claiming.len(), 2);
}

#[test]
fn the_report_prints_the_bare_number_and_the_names_as_they_are() {
    let entries = vec![
        "0006-record-the-session.md".to_string(),
        "6-the-same-number-written-differently.md".to_string(),
    ];

    let message = report("docs/decisions", numbered()[0].1, &claimed_twice(&entries)[0]);

    assert!(message.contains("claim the number 6:"), "{message}");
    assert!(message.contains("0006-record-the-session.md"), "{message}");
    assert!(
        message.contains("6-the-same-number-written-differently.md"),
        "{message}"
    );
}

#[test]
fn a_run_of_zeros_is_the_number_zero() {
    assert_eq!(padded_out("0000"), "0");
    assert_eq!(padded_out("0"), "0");
}

#[test]
fn the_digits_are_read_as_written() {
    assert_eq!(number_of("006-give-a-glyph-a-type").as_deref(), Some("006"));
    assert_eq!(number_of("0006-record-the-session.md").as_deref(), Some("0006"));
}

#[test]
fn a_name_opening_with_a_letter_has_no_number() {
    assert_eq!(number_of("README.md"), None);
}

#[test]
fn the_report_is_written_out_exactly() {
    let entries = vec!["0063-a.md".to_string(), "63-b.md".to_string()];
    let message = report("docs/decisions", "Fix it.", &claimed_twice(&entries)[0]);

    assert_eq!(
        message,
        "\nxtask: 2 entries under docs/decisions claim the number 63:\n\n    \
         docs/decisions/0063-a.md\n    docs/decisions/63-b.md\n\n    Fix it."
    );
}

#[test]
fn clashes_come_out_in_order_of_their_number() {
    let entries = vec![
        "10-a.md".to_string(),
        "9-a.md".to_string(),
        "010-b.md".to_string(),
        "9-b.md".to_string(),
        "11-alone.md".to_string(),
    ];
    let clashes = claimed_twice(&entries);
    let numbers: Vec<&str> = clashes.iter().map(|c| c.number.as_str()).collect();

    assert_eq!(numbers, vec!["10", "9"]);
}

#[test]
fn no_clash_is_a_passing_verdict() {
    assert_eq!(verdict(&Vec::new(), 4), Ok(()));
}

#[test]
fn a_clash_fails_the_verdict_and_counts_what_was_looked_at() {
    let clashes = vec!["first".to_string(), "second".to_string()];

    assert_eq!(
        verdict(&clashes, 7),
        Err("first\nsecond\n2 of 7 entries claim a number another one claims.".to_string())
    );
}

#[test]
fn entries_are_the_first_segments_under_the_tree_each_once() {
    let listing = "specs/079-a/one.md\nspecs/079-a/two.md\nspecs/006-b/one.md\ndocs/x.md\nspecs/top.md";
    let entries = entries_of(listing, "specs");

    assert_eq!(entries, vec!["006-b".to_string(), "079-a".to_string(), "top.md".to_string()]);
}
