use monospace::xtask::eol::{needs_rewrite, parse, to_lf, to_rewrite};

#[test]
fn a_crlf_file_is_rewritten() {
    assert!(needs_rewrite("crlf", false));
}

#[test]
fn a_binary_file_is_left_alone() {
    assert!(!needs_rewrite("-text", false));
}

#[test]
fn a_file_with_nothing_to_normalize_is_left_alone() {
    assert!(!needs_rewrite("lf", false));
    assert!(!needs_rewrite("none", false));
}

#[test]
fn a_file_gitattributes_wants_in_crlf_is_left_alone() {
    assert!(!needs_rewrite("crlf", true));
    assert!(!needs_rewrite("mixed", true));
}

#[test]
fn a_mixed_file_is_rewritten() {
    assert!(needs_rewrite("mixed", false));
}

#[test]
fn a_record_is_read_by_prefix_rather_than_by_position() {
    let file = parse("i/      w/mixed attr/text=auto eol=lf\t.specify/integration.json")
        .expect("a record Git would print");

    assert_eq!(file.relative, ".specify/integration.json");
    assert_eq!(file.endings, "mixed");
    assert!(!file.wants_crlf);
}

#[test]
fn a_batch_file_is_recognized_by_its_attribute() {
    let file = parse("i/      w/crlf  attr/text eol=crlf\ttools/build.cmd")
        .expect("a record Git would print");

    assert_eq!(file.endings, "crlf");
    assert!(file.wants_crlf);
    assert!(!needs_rewrite(&file.endings, file.wants_crlf));
}

#[test]
fn a_path_holding_a_space_and_a_tab_is_read_whole() {
    let file = parse("i/lf    w/lf    attr/text=auto eol=lf\ta file\twith a tab.md")
        .expect("a record Git would print");

    assert_eq!(file.relative, "a file\twith a tab.md");
}

#[test]
fn a_record_with_no_path_in_it_is_reported() {
    let error = parse("i/lf w/lf attr/text=auto eol=lf").expect_err("there is no tab in it");

    assert!(error.contains("no path"), "{error}");
}

#[test]
fn every_crlf_becomes_a_bare_lf() {
    let (fixed, lines) = to_lf(b"alpha\r\nbeta\r\n");

    assert_eq!(fixed, b"alpha\nbeta\n");
    assert_eq!(lines, 2);
}

#[test]
fn a_file_with_no_crlf_comes_back_unchanged() {
    let (fixed, lines) = to_lf(b"alpha\nbeta\n");

    assert_eq!(fixed, b"alpha\nbeta\n");
    assert_eq!(lines, 0);
}

#[test]
fn a_lone_carriage_return_is_not_a_line_ending() {
    let (fixed, lines) = to_lf(b"alpha\r\r\nbeta");

    assert_eq!(fixed, b"alpha\r\nbeta");
    assert_eq!(lines, 1);
}

#[test]
fn an_empty_file_stays_empty() {
    assert_eq!(to_lf(b""), (Vec::new(), 0));
}

#[test]
fn a_listing_keeps_only_the_files_to_rewrite_in_order() {
    let listing = "i/lf    w/crlf  attr/text=auto eol=lf\ta.md\0\
                   i/lf    w/lf    attr/text=auto eol=lf\tb.md\0\
                   i/crlf  w/crlf  attr/text eol=crlf\tc.cmd\0\
                   i/lf    w/mixed attr/text=auto eol=lf\td.md\0";
    let files = to_rewrite(listing).expect("every record has a path");

    let names: Vec<&str> = files.iter().map(|f| f.relative.as_str()).collect();
    assert_eq!(names, vec!["a.md", "d.md"]);
}

#[test]
fn a_listing_with_a_record_missing_its_path_is_refused() {
    let listing = "i/lf    w/crlf  attr/text=auto eol=lf\ta.md\0i/lf w/lf attr/text=auto eol=lf\0";
    let error = to_rewrite(listing).expect_err("the second record has no path");

    assert!(error.contains("no path"), "{error}");
}

#[test]
fn an_empty_listing_has_nothing_to_rewrite() {
    assert!(to_rewrite("").expect("nothing to read").is_empty());
}

#[test]
fn a_second_run_finds_no_work() {
    let (once, lines) = to_lf(b"alpha\r\nbeta\r\n\r\ngamma");
    assert_eq!(lines, 3);
    assert_eq!(to_lf(&once), (once.clone(), 0));
}

#[test]
fn a_cr_before_a_crlf_leaves_work_for_a_second_run() {
    let (once, lines) = to_lf(b"alpha\r\r\nbeta");
    assert_eq!(lines, 1);
    assert_eq!(to_lf(&once), (b"alpha\nbeta".to_vec(), 1));
}
