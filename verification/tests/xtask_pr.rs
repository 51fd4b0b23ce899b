use monospace::xtask::pr::{
    body_text, check_branch, check_clean, check_filled, first_commit_title, issue_title, empty_sections, is_keyword_line, issue_from_branch,
    parse_flag, parse_issue_argument, resolve_issue, shape_from_branch, strip_comments, Shape,
};

#[test]
fn shape_reads_the_branch_suffix() {
    assert_eq!(
        shape_from_branch("023-read-a-description-deciding"),
        Shape::Deciding
    );
    assert_eq!(
        shape_from_branch("023-read-a-description-building"),
        Shape::Building
    );
    assert_eq!(shape_from_branch("sdd-v2-two-stages"), Shape::Tooling);
}

#[test]
fn each_shape_carries_its_own_keyword() {
    assert_eq!(Shape::Deciding.keyword(), "Refs");
    assert_eq!(Shape::Building.keyword(), "Closes");
    assert_eq!(Shape::Tooling.keyword(), "Closes");
}

#[test]
fn issue_from_branch_reads_the_leading_digits_only() {
    assert_eq!(
        issue_from_branch("023-read-a-description-deciding"),
        Some(23)
    );
    assert_eq!(issue_from_branch("1234-something-building"), Some(1234));
    assert_eq!(issue_from_branch("sdd-v2-two-stages"), None);
}

#[test]
fn resolve_issue_prefers_the_branch_and_catches_a_disagreement() {
    assert_eq!(
        resolve_issue("023-foo-deciding", Shape::Deciding, None).unwrap(),
        23
    );
    assert_eq!(
        resolve_issue("023-foo-deciding", Shape::Deciding, Some(23)).unwrap(),
        23
    );

    let error = resolve_issue("023-foo-deciding", Shape::Deciding, Some(24)).unwrap_err();
    assert!(
        error.contains("23") && error.contains("24"),
        "error did not name both numbers: {error}"
    );

    let error = resolve_issue("sdd-v2-two-stages", Shape::Tooling, None).unwrap_err();
    assert!(
        error.contains("pr body <issue>"),
        "error did not say how to supply one: {error}"
    );
}

#[test]
fn a_body_straight_out_of_a_template_is_every_section() {
    let body = "<!-- a note about the file -->\n\
                \n\
                ## What changes\n\
                \n\
                <!-- One or two lines. -->\n\
                \n\
                ## Why now\n\
                \n\
                <!-- What forced it,\n\
                across two lines. -->\n\
                \n\
                Closes #34\n";
    assert_eq!(empty_sections(body), vec!["What changes", "Why now"]);
}

#[test]
fn a_filled_body_has_no_empty_section() {
    let body = "## What changes\n\
                \n\
                <!-- One or two lines. -->\n\
                \n\
                Two stages instead of three.\n\
                \n\
                ## Why now\n\
                \n\
                None.\n\
                \n\
                Closes #34\n";
    assert!(empty_sections(body).is_empty());
}

#[test]
fn text_after_a_comment_on_the_same_line_is_content() {
    let body = "## What changes\n<!-- prompt --> It changes this.\n";
    assert!(empty_sections(body).is_empty());
}

#[test]
fn the_keyword_line_is_not_content() {
    assert!(is_keyword_line("Refs #23"));
    assert!(is_keyword_line("Closes #1234"));
    assert!(!is_keyword_line("Closes #"));
    assert!(!is_keyword_line("Closes the loop on #23"));
}

#[test]
fn a_tooling_branch_takes_the_issue_from_the_argument() {
    assert_eq!(resolve_issue("sdd-v2-two-stages", Shape::Tooling, Some(7)), Ok(7));
}

#[test]
fn a_comment_carries_over_to_the_next_line() {
    let mut open = false;
    assert_eq!(strip_comments("before <!-- start", &mut open), "before ");
    assert!(open);
    assert_eq!(strip_comments("still inside --> after", &mut open), " after");
    assert!(!open);
}

#[test]
fn the_positional_argument_is_the_issue() {
    let args = vec!["--title".to_string(), "42".to_string()];
    assert_eq!(parse_issue_argument(&args), Ok(Some(42)));
    let args = vec!["--refs-only".to_string()];
    assert_eq!(parse_issue_argument(&args), Ok(None));
    let args = vec!["forty".to_string()];
    assert_eq!(
        parse_issue_argument(&args),
        Err("xtask: `forty` is not a valid issue number".to_string())
    );
}

#[test]
fn a_flag_takes_the_argument_after_it() {
    let args = vec!["--title".to_string(), "A title".to_string()];
    assert_eq!(parse_flag(&args, "--title"), Ok(Some("A title".to_string())));
    assert_eq!(parse_flag(&args, "--base"), Ok(None));
    let args = vec!["--title".to_string()];
    assert_eq!(
        parse_flag(&args, "--title"),
        Err("xtask: `--title` needs a value".to_string())
    );
}

#[test]
fn the_body_ends_with_the_keyword_line() {
    assert_eq!(
        body_text("## What changes\n\n", Shape::Building, false, 23),
        "## What changes\nCloses #23\n"
    );
    assert_eq!(
        body_text("## What changes\n", Shape::Building, true, 23),
        "## What changes\nRefs #23\n"
    );
}

#[test]
fn main_and_a_detached_head_propose_nothing() {
    assert!(check_branch("main".to_string()).is_err());
    assert!(check_branch("HEAD".to_string()).is_err());
    assert_eq!(check_branch("023-foo-building".to_string()), Ok("023-foo-building".to_string()));
}

#[test]
fn only_a_clean_tree_opens_a_pull_request() {
    assert_eq!(check_clean(""), Ok(()));
    assert_eq!(
        check_clean(" M src/lib.rs\n"),
        Err("xtask: the working tree is not clean, so the pull request would not hold everything \
             you have:\n M src/lib.rs\n"
            .to_string())
    );
}

#[test]
fn an_empty_section_refuses_the_body_and_is_named() {
    assert_eq!(check_filled("## What changes\n\nIt changes.\n"), Ok(()));
    assert_eq!(
        check_filled("## What changes\n\n## Why now\nBecause.\n"),
        Err("xtask: a section of the body is still empty: What changes. A section with nothing \
             to say says \"None.\""
            .to_string())
    );
    assert_eq!(
        check_filled("## What changes\n\n## Why now\n"),
        Err("xtask: part of the body is still empty: What changes, Why now. A section with \
             nothing to say says \"None.\""
            .to_string())
    );
}

#[test]
fn a_title_is_the_verb_and_the_issue_title_or_the_first_commit() {
    assert_eq!(issue_title("Decide", "Route an arrow"), "Decide: Route an arrow");
    assert_eq!(first_commit_title("First\nSecond\n"), Ok("First".to_string()));
    assert!(first_commit_title("").unwrap_err().contains("no commit"));
}
