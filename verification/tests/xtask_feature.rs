use monospace::xtask::feature::{
    directory_of, feature_json, label_edits, label_names, not_merged, sheet_answered,
    branch_name, describe_pending, find_slug, format_issue_number, parse_issue, parse_stage,
    pending_lines, slugify, stage_from_labels, Stage,
};

#[test]
fn slugify_plain_title() {
    assert_eq!(
        slugify("Draw shapes instead of individual cells").unwrap(),
        "draw-shapes-instead-of-individual-cells"
    );
}

#[test]
fn slugify_folds_accented_letters() {
    assert_eq!(
        slugify("A naïve café soirée, jalapeño").unwrap(),
        "a-naive-cafe-soiree-jalapeno"
    );
}

#[test]
fn slugify_collapses_punctuation_and_spaces() {
    assert_eq!(slugify("Fix   bug!!  (urgent)").unwrap(), "fix-bug-urgent");
}

#[test]
fn slugify_truncates_to_forty_characters_with_no_trailing_hyphen() {
    let title = "This is a very long issue title that exceeds forty characters easily";
    let slug = slugify(title).unwrap();
    assert!(
        slug.chars().count() <= 40,
        "slug longer than 40 characters: {slug}"
    );
    assert!(!slug.ends_with('-'), "slug ends in a hyphen: {slug}");
}

#[test]
fn slugify_rejects_punctuation_only_title() {
    assert!(slugify("!!! ??? ---").is_err());
}

#[test]
fn format_issue_number_pads_to_three_digits() {
    assert_eq!(format_issue_number(39), "039");
    assert_eq!(format_issue_number(6), "006");
}

#[test]
fn format_issue_number_keeps_extra_digits() {
    assert_eq!(format_issue_number(1234), "1234");
}

#[test]
fn branch_name_for_each_stage() {
    assert_eq!(
        branch_name("039", "draw-shapes", Stage::Deciding),
        "039-draw-shapes-deciding"
    );
    assert_eq!(
        branch_name("039", "draw-shapes", Stage::Building),
        "039-draw-shapes-building"
    );
}

#[test]
fn parse_stage_takes_build_and_nothing_else() {
    assert!(parse_stage(Some("build")).is_ok());

    let error = parse_stage(Some("plan")).unwrap_err();
    assert!(
        error.contains("`build`"),
        "error did not name the only stage: {error}"
    );

    let error = parse_stage(None).unwrap_err();
    assert!(
        error.contains("`build`"),
        "error did not name the only stage: {error}"
    );
}

#[test]
fn find_slug_picks_the_single_match() {
    let entries = vec!["specs/006-foo".to_string(), "specs/012-bar".to_string()];
    assert_eq!(find_slug(&entries, "012").unwrap(), "bar");
}

#[test]
fn find_slug_errors_on_no_match() {
    let entries = vec!["specs/006-foo".to_string()];
    let error = find_slug(&entries, "999").unwrap_err();
    assert!(
        error.contains("999"),
        "error did not name the missing issue: {error}"
    );
}

#[test]
fn find_slug_errors_on_two_matches() {
    let entries = vec!["specs/012-bar".to_string(), "specs/012-baz".to_string()];
    let error = find_slug(&entries, "012").unwrap_err();
    assert!(
        error.contains("specs/012-bar"),
        "error did not name what was found: {error}"
    );
    assert!(
        error.contains("specs/012-baz"),
        "error did not name what was found: {error}"
    );
}

#[test]
fn stage_from_labels_maps_each_state_label() {
    assert_eq!(
        stage_from_labels(&["deciding".to_string()]).unwrap(),
        Stage::Deciding
    );
    assert_eq!(
        stage_from_labels(&["building".to_string()]).unwrap(),
        Stage::Building
    );
}

#[test]
fn stage_from_labels_names_wish_explicitly() {
    let error = stage_from_labels(&["wish".to_string()]).unwrap_err();
    assert!(
        error.contains("spec new"),
        "error did not point at `spec new`: {error}"
    );
}

#[test]
fn stage_from_labels_errors_naming_what_it_carries() {
    let error = stage_from_labels(&["triage".to_string()]).unwrap_err();
    assert!(
        error.contains("triage"),
        "error did not name the labels found: {error}"
    );
}

/// A sheet shaped like the decision sheet's template, with `answered` deciding whether its three
/// `_pending_` markers are still there.
fn sheet(answered: bool) -> String {
    let (header, first, second) = if answered {
        (
            "2026-09-21",
            "Yes, the ranking stays.",
            "Module, in arrow.rs.",
        )
    } else {
        ("_pending_", "_pending_", "_pending_")
    };

    format!(
        "# Decisions: Route an arrow\n\
         \n\
         **Feature**: `103-route` | **Written**: 2026-09-20 | **Answered**: {header}\n\
         \n\
         ## D1 — Which route wins a tie?\n\
         \n\
         - **Answer**: {first}\n\
         \n\
         ## D2 — Where does the rule live?\n\
         \n\
         - **Answer**: {second}\n"
    )
}

#[test]
fn pending_lines_finds_nothing_in_an_answered_sheet() {
    assert!(pending_lines(&sheet(true)).is_empty());
}

#[test]
fn pending_lines_finds_the_header_and_every_entry() {
    let pending = pending_lines(&sheet(false));
    let numbers: Vec<usize> = pending.iter().map(|(number, _)| *number).collect();
    assert_eq!(numbers, vec![3, 7, 11]);
    assert_eq!(pending[1].1, "- **Answer**: _pending_");
}

#[test]
fn describe_pending_quotes_three_and_counts_the_rest() {
    let pending: Vec<(usize, String)> = (1..=5)
        .map(|number| (number, "- **Answer**: _pending_".to_string()))
        .collect();
    let described = describe_pending(&pending);
    assert!(
        described.starts_with("line 1 reads `- **Answer**: _pending_`"),
        "the first pending line was not quoted: {described}"
    );
    assert!(
        described.ends_with("and 2 more"),
        "the rest were not counted: {described}"
    );
}

#[test]
fn describe_pending_lists_three_or_fewer_whole() {
    let pending = vec![(3, "a".to_string()), (7, "b".to_string())];
    assert_eq!(describe_pending(&pending), "line 3 reads `a`, line 7 reads `b`");
}

#[test]
fn slugify_stops_at_forty_characters_exactly() {
    let title = "This is a very long issue title that exceeds forty characters easily";
    assert_eq!(slugify(title).unwrap(), "this-is-a-very-long-issue-title-that-exc");
}

#[test]
fn parse_issue_needs_a_number() {
    assert_eq!(parse_issue(Some("42".to_string())), Ok(42));
    assert_eq!(
        parse_issue(Some("x42".to_string())),
        Err("xtask: `x42` is not a valid issue number".to_string())
    );
    assert_eq!(
        parse_issue(None),
        Err("xtask: spec requires an issue number".to_string())
    );
}

#[test]
fn each_stage_names_itself_and_the_label_it_replaces() {
    assert_eq!(Stage::Deciding.name(), "deciding");
    assert_eq!(Stage::Building.name(), "building");
    assert_eq!(Stage::Deciding.label_to_remove(), "wish");
    assert_eq!(Stage::Building.label_to_remove(), "deciding");
}

#[test]
fn moving_a_label_edits_only_what_is_needed() {
    let wish = vec!["wish".to_string(), "bug".to_string()];
    assert_eq!(label_edits(&wish, Stage::Deciding), (true, true));
    let deciding = vec!["deciding".to_string()];
    assert_eq!(label_edits(&deciding, Stage::Deciding), (false, false));
    assert_eq!(label_edits(&deciding, Stage::Building), (true, true));
    assert_eq!(label_edits(&[], Stage::Building), (false, true));
}

#[test]
fn label_names_are_the_non_empty_lines() {
    assert_eq!(label_names("deciding\n\nbug\n"), vec!["deciding".to_string(), "bug".to_string()]);
    assert!(label_names("").is_empty());
}

#[test]
fn the_feature_pointer_names_its_directory() {
    let directory = directory_of("039", "draw-shapes");
    assert_eq!(directory, "specs/039-draw-shapes");
    assert_eq!(feature_json(&directory), "{\"feature_directory\": \"specs/039-draw-shapes\"}\n");
}

#[test]
fn an_unmerged_file_and_an_unanswered_sheet_are_named() {
    assert_eq!(
        not_merged("specs/039-x/decisions.md"),
        "xtask: the deciding pull request is not merged: `specs/039-x/decisions.md` does not exist in origin/main"
    );
    assert_eq!(sheet_answered("d.md", &sheet(true)), Ok(()));
    let error = sheet_answered("d.md", &sheet(false)).unwrap_err();
    assert!(error.starts_with("xtask: `d.md` is not answered: line 3 reads `"), "{error}");
    assert!(error.ends_with("merge that first."), "{error}");
}

#[test]
fn every_slug_is_short_and_clean() {
    for title in [
        "Draw shapes instead of individual cells",
        "  --Leading and trailing--  ",
        "Ünïcödé Ñame — with ‘quotes’ and 123 numbers!!",
        "This is a very long issue title that exceeds forty characters easily",
        "abcdefghijklmnopqrstuvwxyzabcdefghijklm-n",
    ] {
        let slug = slugify(title).unwrap();
        assert!(slug.chars().count() <= 40, "{slug}");
        assert!(!slug.starts_with('-') && !slug.ends_with('-'), "{slug}");
        assert!(!slug.contains("--"), "{slug}");
        assert!(
            slug.chars().all(|c| c.is_ascii_lowercase() || c.is_ascii_digit() || c == '-'),
            "{slug}"
        );
    }
    assert_eq!(
        slugify("abcdefghijklmnopqrstuvwxyzabcdefghijklm-n").unwrap(),
        "abcdefghijklmnopqrstuvwxyzabcdefghijklm"
    );
}
