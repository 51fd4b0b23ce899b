use monospace::xtask::markers::{
    picture_action, PictureAction,
    current_picture, summary, expected, fence_width, indent, parse, report, rewritten, trim_trailing_blanks,
};

#[test]
fn a_file_with_no_marker_has_nothing_to_render() {
    let lines = vec![
        "# Title",
        "",
        "Some prose.",
        "",
        "```text",
        "hand drawn",
        "```",
    ];

    assert!(
        parse(&lines, "x.md")
            .expect("no marker is not an error")
            .is_empty()
    );
}

#[test]
fn a_well_formed_marker_carries_its_description_and_its_fence() {
    let lines = vec![
        "prose",
        "<!-- render:",
        "{ \"canvas\": 1,",
        "  \"shapes\": [] }",
        "-->",
        "",
        "```text",
        "┌┐",
        "└┘",
        "```",
        "",
        "<!-- /render -->",
        "more prose",
    ];

    let markers = parse(&lines, "x.md").expect("this marker is well formed");

    assert_eq!(markers.len(), 1);
    assert_eq!(markers[0].line, 2);
    assert_eq!(
        markers[0].description,
        "{ \"canvas\": 1,\n  \"shapes\": [] }"
    );
    assert_eq!(
        lines[markers[0].fence_open + 1..markers[0].fence_close].join("\n"),
        "┌┐\n└┘"
    );
}

#[test]
fn two_markers_in_one_file_are_both_found() {
    let one = vec![
        "<!-- render:",
        "{}",
        "-->",
        "",
        "```text",
        "a",
        "```",
        "",
        "<!-- /render -->",
    ];
    let lines: Vec<&str> = one.iter().chain(one.iter()).copied().collect();

    assert_eq!(
        parse(&lines, "x.md").expect("both are well formed").len(),
        2
    );
}

#[test]
fn a_marker_with_no_fence_is_reported_by_line() {
    let lines = vec!["<!-- render:", "{}", "-->", "", "not a fence"];

    let error = parse(&lines, "docs/model.md").expect_err("a marker with no fence is an error");

    assert!(error.contains("docs/model.md:1"), "{error}");
    assert!(error.contains("fence"), "{error}");
}

#[test]
fn a_marker_with_no_description_end_is_reported() {
    let lines = vec!["<!-- render:", "{}"];

    let error = parse(&lines, "x.md").expect_err("an unclosed description is an error");

    assert!(error.contains("-->"), "{error}");
}

#[test]
fn a_marker_with_no_closing_comment_is_reported() {
    let lines = vec!["<!-- render:", "{}", "-->", "", "```text", "a", "```", ""];

    let error = parse(&lines, "x.md").expect_err("a marker with no close is an error");

    assert!(error.contains("/render"), "{error}");
}

#[test]
fn a_marker_inside_a_longer_fence_is_not_a_marker() {
    let lines = vec![
        "````markdown",
        "<!-- render:",
        "{ \"shapes\": [ … ] }",
        "-->",
        "",
        "```text",
        "```",
        "",
        "<!-- /render -->",
        "````",
    ];

    assert!(
        parse(&lines, "template.md")
            .expect("an illustrated marker is not parsed")
            .is_empty()
    );
}

#[test]
fn a_marker_after_a_fence_is_still_found() {
    let lines = vec![
        "```text",
        "hand drawn",
        "```",
        "<!-- render:",
        "{}",
        "-->",
        "",
        "```text",
        "a",
        "```",
        "",
        "<!-- /render -->",
    ];

    assert_eq!(parse(&lines, "x.md").expect("well formed").len(), 1);
}

#[test]
fn a_fence_is_closed_only_by_one_at_least_as_long() {
    assert_eq!(fence_width("```text"), Some(3));
    assert_eq!(fence_width("````markdown"), Some(4));
    assert_eq!(fence_width("``not a fence"), None);
    assert_eq!(fence_width("prose"), None);
}

#[test]
fn trimming_drops_the_padding_and_the_final_newline() {
    assert_eq!(trim_trailing_blanks("┌┐  \n└┘  \n"), "┌┐\n└┘");
}

#[test]
fn trimming_keeps_a_blank_line_inside_a_picture() {
    assert_eq!(trim_trailing_blanks("a  \n   \nb\n"), "a\n\nb");
}

#[test]
fn the_malformed_marker_message_names_the_file_the_line_and_the_grammar() {
    assert_eq!(
        expected("x.md", 4, "a ````text` fence"),
        "xtask: x.md:4: the marker opened here needs a ````text` fence.\n\n    A generated \
         picture is written as `<!-- render:`, the description, `-->`, the fence holding the \
         picture, then `<!-- /render -->`."
    );
}

#[test]
fn a_picture_is_indented_by_four_spaces_line_by_line() {
    assert_eq!(indent("ab\ncd"), "    ab\n    cd");
}

#[test]
fn a_stale_picture_is_reported_with_both_pictures_whole() {
    assert_eq!(
        report("docs/a.md", 7, "old", "new\npic"),
        "\ndocs/a.md:7: the picture is not what its description renders.\n\n  in the file:\n    \
         old\n\n  from the description:\n    new\n    pic"
    );
}

#[test]
fn rewriting_replaces_only_the_picture_that_moved() {
    let lines = vec![
        "prose",
        "<!-- render:",
        "{}",
        "-->",
        "",
        "```text",
        "old",
        "```",
        "",
        "<!-- /render -->",
        "<!-- render:",
        "{}",
        "-->",
        "```text",
        "kept",
        "```",
        "<!-- /render -->",
    ];
    let markers = parse(&lines, "x.md").expect("well formed");
    assert_eq!(markers.len(), 2);

    let wanted = vec![(markers[0].fence_open, "new\npicture".to_string())];
    let text = rewritten(&lines, &markers, &wanted);

    assert_eq!(
        text,
        "prose\n<!-- render:\n{}\n-->\n\n```text\nnew\npicture\n```\n\n<!-- /render -->\n\
         <!-- render:\n{}\n-->\n```text\nkept\n```\n<!-- /render -->"
    );
}

#[test]
fn rewriting_with_nothing_wanted_gives_the_file_back() {
    let lines = vec!["a", "```text", "x", "```", "b"];
    let markers = parse(&lines, "x.md").expect("no markers");

    assert_eq!(rewritten(&lines, &markers, &[]), "a\n```text\nx\n```\nb");
}

#[test]
fn the_current_picture_is_what_the_fence_holds() {
    let lines = vec!["<!-- render:", "{}", "-->", "```text", "a", "b", "```", "<!-- /render -->"];
    let markers = parse(&lines, "x.md").expect("well formed");
    assert_eq!(current_picture(&lines, &markers[0]), "a\nb");
}

#[test]
fn the_summary_fails_on_a_stale_picture_and_otherwise_says_what_it_did() {
    assert_eq!(
        summary(&["one".to_string()], 3, true, 0),
        Err("one\n1 of 3 picture(s) have parted from the description beside them. Run `cargo xtask render`.".to_string())
    );
    assert_eq!(summary(&[], 3, true, 0), Ok(Some("3 generated picture(s) match their descriptions".to_string())));
    assert_eq!(summary(&[], 3, false, 0), Ok(Some("3 generated picture(s) were already up to date".to_string())));
    assert_eq!(summary(&[], 3, false, 2), Ok(None));
}

#[test]
fn a_stale_picture_is_reported_when_checking_and_rewritten_otherwise() {
    assert_eq!(picture_action(true, "a", "a"), PictureAction::Keep);
    assert_eq!(picture_action(false, "a", "a"), PictureAction::Keep);
    assert_eq!(picture_action(true, "a", "b"), PictureAction::Report);
    assert_eq!(picture_action(false, "a", "b"), PictureAction::Rewrite);
}
