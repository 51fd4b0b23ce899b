//! Pull requests: the shape of change a branch carries, the issue it references, the arguments
//! the command takes, and which sections of a body are still empty.
use vstd::prelude::*;

use crate::strings::{
    all_digits, copy_range, decimal, equals, join, find_from, has_prefix, has_suffix, lines, lines_of, occurs_at,
    parse_u32, parse_u32_spec, push_decimal, push_vec, trim, trim_end, trimmed, trimmed_end,
};
use crate::text::{char_is_digit, chars_of, is_digit, push_chars, string_of};

verus! {

/// One of the three shapes of change the repository has, each with its own pull request body.
#[derive(Debug, Clone, Copy, PartialEq, Eq, Structural)]
pub enum Shape {
    /// Stage one of a feature: the spec, the research and the answered decision sheet.
    Deciding,
    /// Stage two of a feature: the design, the tasks, the code and the tests.
    Building,
    /// A change to the repository's own tooling, documents or rules.
    Tooling,
}

impl Shape {
    /// The template this shape's body is copied from, relative to the workspace root.
    pub fn template(self) -> (r: &'static str)
        ensures
            r@ == (match self {
                Shape::Deciding => ".github/PULL_REQUEST_TEMPLATE/deciding.md"@,
                Shape::Building => ".github/PULL_REQUEST_TEMPLATE/building.md"@,
                Shape::Tooling => ".github/pull_request_template.md"@,
            }),
    {
        match self {
            Shape::Deciding => ".github/PULL_REQUEST_TEMPLATE/deciding.md",
            Shape::Building => ".github/PULL_REQUEST_TEMPLATE/building.md",
            Shape::Tooling => ".github/pull_request_template.md",
        }
    }

    /// The keyword this shape's body carries: only the last pull request of a feature closes
    /// the issue.
    pub fn keyword(self) -> (r: &'static str)
        ensures
            r@ == (if self is Deciding {
                "Refs"@
            } else {
                "Closes"@
            }),
    {
        match self {
            Shape::Deciding => "Refs",
            Shape::Building | Shape::Tooling => "Closes",
        }
    }

    /// What this shape prefixes a title derived from the issue with.
    pub fn title_prefix(self) -> (r: Option<&'static str>)
        ensures
            self is Deciding ==> (r matches Some(p) && p@ == "Decide"@),
            self is Building ==> (r matches Some(p) && p@ == "Build"@),
            self is Tooling ==> r is None,
    {
        match self {
            Shape::Deciding => Some("Decide"),
            Shape::Building => Some("Build"),
            Shape::Tooling => None,
        }
    }

    /// How this shape reads in a message.
    pub fn name(self) -> (r: &'static str)
        ensures
            r@ == spec_shape_name(self),
    {
        match self {
            Shape::Deciding => "deciding",
            Shape::Building => "building",
            Shape::Tooling => "tooling",
        }
    }
}

/// How a shape reads in a message.
pub open spec fn spec_shape_name(shape: Shape) -> Seq<char> {
    match shape {
        Shape::Deciding => "deciding"@,
        Shape::Building => "building"@,
        Shape::Tooling => "tooling"@,
    }
}

/// The shape a branch carries, read from the suffix the feature commands give it.
pub open spec fn spec_shape_from_branch(branch: Seq<char>) -> Shape {
    if has_suffix(branch, "-deciding"@) {
        Shape::Deciding
    } else if has_suffix(branch, "-building"@) {
        Shape::Building
    } else {
        Shape::Tooling
    }
}

/// Which shape of change `branch` carries, read from its suffix.
pub fn shape_from_branch(branch: &str) -> (r: Shape)
    ensures
        r == spec_shape_from_branch(branch@),
{
    let b = chars_of(branch);
    if crate::strings::finishes_with(&b, "-deciding") {
        Shape::Deciding
    } else if crate::strings::finishes_with(&b, "-building") {
        Shape::Building
    } else {
        Shape::Tooling
    }
}

/// How many decimal digits `s` opens with.
pub open spec fn leading_digits(s: Seq<char>) -> int
    decreases s.len(),
{
    if s.len() > 0 && is_digit(s[0]) {
        1 + leading_digits(s.drop_first())
    } else {
        0
    }
}

proof fn lemma_leading_digits(s: Seq<char>, k: int)
    requires
        0 <= k <= s.len(),
        forall|j: int| 0 <= j < k ==> is_digit(s[j]),
        k == s.len() || !is_digit(s[k]),
    ensures
        leading_digits(s) == k,
    decreases k,
{
    if k > 0 {
        assert forall|j: int| 0 <= j < k - 1 implies is_digit(s.drop_first()[j]) by {
            assert(s.drop_first()[j] == s[j + 1]);
        }
        if k < s.len() {
            assert(s.drop_first()[k - 1] == s[k]);
        }
        lemma_leading_digits(s.drop_first(), k - 1);
    }
}

/// The issue number a branch starts with: its leading digits read as a number, where there are
/// any and they fit.
pub open spec fn spec_issue_from_branch(branch: Seq<char>) -> Option<u32> {
    parse_u32_spec(branch.take(leading_digits(branch)))
}

/// The issue number `branch` starts with, where it starts with one.
pub fn issue_from_branch(branch: &str) -> (r: Option<u32>)
    ensures
        r == spec_issue_from_branch(branch@),
{
    let b = chars_of(branch);
    let mut k: usize = 0;
    while k < b.len() && char_is_digit(b[k])
        invariant
            k <= b@.len(),
            forall|j: int| 0 <= j < k ==> is_digit(b@[j]),
        decreases b@.len() - k,
    {
        k += 1;
    }
    proof {
        lemma_leading_digits(b@, k as int);
    }
    let digits = copy_range(&b, 0, k);
    assert(digits@ =~= b@.take(k as int));
    parse_u32(&digits)
}

/// The message a branch disagreeing with the issue given produces.
pub open spec fn disagree_message(branch: Seq<char>, from_branch: u32, given: u32) -> Seq<char> {
    "xtask: branch `"@ + branch + "` is feature "@ + decimal(from_branch as nat) + ", but "@
        + decimal(given as nat) + " was given"@
}

/// The message a branch with no issue number and no argument produces.
pub open spec fn missing_issue_message(shape: Shape) -> Seq<char> {
    "xtask: a "@ + spec_shape_name(shape)
        + " branch carries no issue number, so this needs one: `cargo xtask pr body <issue>`"@
}

/// Settles which issue the body references: the branch's, the argument, or an error saying which
/// is missing or that the two disagree.
pub fn resolve_issue(branch: &str, shape: Shape, argument: Option<u32>) -> (r: Result<u32, String>)
    ensures
        ({
            let from = spec_issue_from_branch(branch@);
            match (from, argument) {
                (Some(b), None) => r == Ok::<u32, String>(b),
                (Some(b), Some(g)) => if b == g {
                    r == Ok::<u32, String>(b)
                } else {
                    r matches Err(m) && m@ == disagree_message(branch@, b, g)
                },
                (None, Some(g)) => r == Ok::<u32, String>(g),
                (None, None) => r matches Err(m) && m@ == missing_issue_message(shape),
            }
        }),
{
    match (issue_from_branch(branch), argument) {
        (Some(from_branch), None) => Ok(from_branch),
        (Some(from_branch), Some(given)) => {
            if from_branch == given {
                Ok(from_branch)
            } else {
                let mut m = String::new();
                push_chars(&mut m, "xtask: branch `");
                push_chars(&mut m, branch);
                push_chars(&mut m, "` is feature ");
                push_decimal(&mut m, from_branch as u64);
                push_chars(&mut m, ", but ");
                push_decimal(&mut m, given as u64);
                push_chars(&mut m, " was given");
                Err(m)
            }
        },
        (None, Some(given)) => Ok(given),
        (None, None) => {
            let mut m = String::new();
            push_chars(&mut m, "xtask: a ");
            push_chars(&mut m, shape.name());
            push_chars(
                &mut m,
                " branch carries no issue number, so this needs one: `cargo xtask pr body <issue>`",
            );
            Err(m)
        },
    }
}

/// The characters of each string of `v`.
pub open spec fn views(v: Seq<String>) -> Seq<Seq<char>> {
    v.map_values(|s: String| s@)
}

/// Where the first argument that does not start with `--` is, or the number of arguments.
pub open spec fn first_positional(args: Seq<Seq<char>>) -> int
    decreases args.len(),
{
    if args.len() == 0 {
        0
    } else if !has_prefix(args[0], "--"@) {
        0
    } else {
        1 + first_positional(args.drop_first())
    }
}

proof fn lemma_first_positional(args: Seq<Seq<char>>, k: int)
    requires
        0 <= k <= args.len(),
        forall|j: int| 0 <= j < k ==> has_prefix(#[trigger] args[j], "--"@),
        k == args.len() || !has_prefix(args[k], "--"@),
    ensures
        first_positional(args) == k,
    decreases k,
{
    if k > 0 {
        assert forall|j: int| 0 <= j < k - 1 implies has_prefix(#[trigger] args.drop_first()[j], "--"@) by {
            assert(args.drop_first()[j] == args[j + 1]);
        }
        if k < args.len() {
            assert(args.drop_first()[k - 1] == args[k]);
        }
        lemma_first_positional(args.drop_first(), k - 1);
    }
}

/// The message an argument that is not an issue number produces.
pub open spec fn not_an_issue_message(raw: Seq<char>) -> Seq<char> {
    "xtask: `"@ + raw + "` is not a valid issue number"@
}

/// Parses the single positional argument, an issue number, from `args`.
pub fn parse_issue_argument(args: &[String]) -> (r: Result<Option<u32>, String>)
    ensures
        ({
            let a = views(args@);
            let i = first_positional(a);
            if i == a.len() {
                r == Ok::<Option<u32>, String>(None)
            } else {
                match parse_u32_spec(a[i]) {
                    Some(n) => r == Ok::<Option<u32>, String>(Some(n)),
                    None => r matches Err(m) && m@ == not_an_issue_message(a[i]),
                }
            }
        }),
{
    let ghost a = views(args@);
    let mut i: usize = 0;
    while i < args.len() && crate::strings::begins_with(&chars_of(args[i].as_str()), "--")
        invariant
            i <= args@.len(),
            a == views(args@),
            forall|j: int| 0 <= j < i ==> has_prefix(#[trigger] a[j], "--"@),
        decreases args@.len() - i,
    {
        i += 1;
    }
    proof {
        lemma_first_positional(a, i as int);
    }
    if i == args.len() {
        return Ok(None);
    }
    let raw = chars_of(args[i].as_str());
    match parse_u32(&raw) {
        Some(n) => Ok(Some(n)),
        None => {
            let mut m = String::new();
            push_chars(&mut m, "xtask: `");
            push_chars(&mut m, args[i].as_str());
            push_chars(&mut m, "` is not a valid issue number");
            Err(m)
        },
    }
}

/// Where the first argument equal to `name` is, or the number of arguments.
pub open spec fn position_of(args: Seq<Seq<char>>, name: Seq<char>) -> int
    decreases args.len(),
{
    if args.len() == 0 {
        0
    } else if args[0] == name {
        0
    } else {
        1 + position_of(args.drop_first(), name)
    }
}

proof fn lemma_position_of(args: Seq<Seq<char>>, name: Seq<char>, k: int)
    requires
        0 <= k <= args.len(),
        forall|j: int| 0 <= j < k ==> args[j] != name,
        k == args.len() || args[k] == name,
    ensures
        position_of(args, name) == k,
    decreases k,
{
    if k > 0 {
        assert forall|j: int| 0 <= j < k - 1 implies args.drop_first()[j] != name by {
            assert(args.drop_first()[j] == args[j + 1]);
        }
        if k < args.len() {
            assert(args.drop_first()[k - 1] == args[k]);
        }
        lemma_position_of(args.drop_first(), name, k - 1);
    }
}

/// The message a flag with no value after it produces.
pub open spec fn needs_value_message(name: Seq<char>) -> Seq<char> {
    "xtask: `"@ + name + "` needs a value"@
}

/// Parses `--name value` out of `args`: the argument after the first one equal to `name`.
pub fn parse_flag(args: &[String], name: &str) -> (r: Result<Option<String>, String>)
    ensures
        ({
            let a = views(args@);
            let i = position_of(a, name@);
            if i == a.len() {
                r matches Ok(None)
            } else if i + 1 < a.len() {
                r matches Ok(Some(v)) && v@ == a[i + 1]
            } else {
                r matches Err(m) && m@ == needs_value_message(name@)
            }
        }),
{
    let ghost a = views(args@);
    let nv = chars_of(name);
    let mut i: usize = 0;
    while i < args.len() && !crate::strings::same_chars(&chars_of(args[i].as_str()), &nv)
        invariant
            i <= args@.len(),
            nv@ == name@,
            a == views(args@),
            forall|j: int| 0 <= j < i ==> a[j] != name@,
        decreases args@.len() - i,
    {
        i += 1;
    }
    proof {
        lemma_position_of(a, name@, i as int);
    }
    if i == args.len() {
        return Ok(None);
    }
    if i + 1 < args.len() {
        Ok(Some(string_of(chars_of(args[i + 1].as_str()).as_slice())))
    } else {
        let mut m = String::new();
        push_chars(&mut m, "xtask: `");
        push_chars(&mut m, name);
        push_chars(&mut m, "` needs a value");
        Err(m)
    }
}

/// Where `needle` first occurs in `s`, or `-1` where it does not.
pub open spec fn first_index(s: Seq<char>, needle: Seq<char>) -> int
    decreases s.len(),
{
    if occurs_at(s, needle, 0) {
        0
    } else if s.len() == 0 {
        -1
    } else {
        let r = first_index(s.drop_first(), needle);
        if r < 0 {
            -1
        } else {
            r + 1
        }
    }
}

pub proof fn lemma_occurs_shift(s: Seq<char>, needle: Seq<char>, j: int)
    requires
        s.len() > 0,
        0 <= j,
    ensures
        occurs_at(s.drop_first(), needle, j) == occurs_at(s, needle, j + 1),
{
    if occurs_at(s, needle, j + 1) {
        assert(s.drop_first().subrange(j, j + needle.len()) =~= s.subrange(j + 1, j + 1 + needle.len()));
    }
    if occurs_at(s.drop_first(), needle, j) {
        assert(s.drop_first().subrange(j, j + needle.len()) =~= s.subrange(j + 1, j + 1 + needle.len()));
    }
}

/// `first_index` is the first place `needle` occurs, and `-1` exactly where it occurs nowhere.
pub proof fn lemma_first_index(s: Seq<char>, needle: Seq<char>)
    ensures
        first_index(s, needle) >= 0 ==> occurs_at(s, needle, first_index(s, needle)) && forall|j: int|
            0 <= j < first_index(s, needle) ==> !occurs_at(s, needle, j),
        first_index(s, needle) < 0 ==> forall|j: int| 0 <= j ==> !occurs_at(s, needle, j),
    decreases s.len(),
{
    if !occurs_at(s, needle, 0) && s.len() > 0 {
        lemma_first_index(s.drop_first(), needle);
        assert forall|j: int| 1 <= j implies occurs_at(s, needle, j) == occurs_at(
            s.drop_first(),
            needle,
            j - 1,
        ) by {
            lemma_occurs_shift(s, needle, j - 1);
        }
    } else if !occurs_at(s, needle, 0) {
        assert forall|j: int| 0 <= j implies !occurs_at(s, needle, j) by {}
    }
}

/// The opening of an HTML comment.
pub open spec fn comment_open() -> Seq<char> {
    seq!['<', '!', '-', '-']
}

/// The close of an HTML comment.
pub open spec fn comment_close() -> Seq<char> {
    seq!['-', '-', '>']
}

/// `line` with every HTML comment removed, starting inside one where `in_comment`, and whether a
/// comment is still open at its end.
pub open spec fn spec_strip_comments(line: Seq<char>, in_comment: bool) -> (Seq<char>, bool)
    decreases line.len(),
{
    if in_comment {
        let e = first_index(line, comment_close());
        if e < 0 {
            (Seq::empty(), true)
        } else {
            proof {
                lemma_first_index(line, comment_close());
            }
            spec_strip_comments(line.skip(e + 3), false)
        }
    } else {
        let s = first_index(line, comment_open());
        if s < 0 {
            (line, false)
        } else {
            proof {
                lemma_first_index(line, comment_open());
            }
            let r = spec_strip_comments(line.skip(s + 4), true);
            (line.take(s) + r.0, r.1)
        }
    }
}

/// Where `needle` first occurs in `s` at or after `from`, stated through `first_index`.
fn find_first(s: &Vec<char>, needle: &Vec<char>) -> (r: Option<usize>)
    ensures
        r is Some <==> first_index(s@, needle@) >= 0,
        r matches Some(i) ==> i == first_index(s@, needle@),
{
    proof {
        lemma_first_index(s@, needle@);
    }
    let r = find_from(s, needle, 0);
    proof {
        match r {
            Some(i) => {
                if first_index(s@, needle@) >= 0 {
                    let f = first_index(s@, needle@);
                    if f < i {
                    } else if f > i {
                    }
                }
            },
            None => {},
        }
    }
    r
}

/// `line` with every HTML comment removed, carrying whether a comment is still open into the next
/// call through `in_comment`.
pub fn strip_comments(line: &str, in_comment: &mut bool) -> (r: String)
    ensures
        (r@, *final(in_comment)) == spec_strip_comments(line@, *old(in_comment)),
{
    let open = vec!['<', '!', '-', '-'];
    let close = vec!['-', '-', '>'];
    assert(open@ =~= comment_open());
    assert(close@ =~= comment_close());
    let mut kept: Vec<char> = Vec::new();
    let mut rest = chars_of(line);
    loop
        invariant
            open@ == comment_open(),
            close@ == comment_close(),
            (kept@ + spec_strip_comments(rest@, *in_comment).0, spec_strip_comments(
                rest@,
                *in_comment,
            ).1) == spec_strip_comments(line@, *old(in_comment)),
        decreases rest@.len(),
    {
        if *in_comment {
            match find_first(&rest, &close) {
                None => {
                    assert(kept@ + Seq::<char>::empty() =~= kept@);
                    return string_of(kept.as_slice());
                },
                Some(end) => {
                    proof {
                        lemma_first_index(rest@, comment_close());
                        assert(occurs_at(rest@, comment_close(), end as int));
                    }
                    let n = rest.len();
                    assert(end + 3 <= n);
                    let next = copy_range(&rest, end + 3, n);
                    assert(next@ =~= rest@.skip(end + 3));
                    rest = next;
                    *in_comment = false;
                },
            }
        } else {
            match find_first(&rest, &open) {
                None => {
                    let mut all = kept;
                    let mut i: usize = 0;
                    while i < rest.len()
                        invariant
                            i <= rest@.len(),
                            all@ == kept@ + rest@.take(i as int),
                        decreases rest@.len() - i,
                    {
                        all.push(rest[i]);
                        i += 1;
                        assert(all@ =~= kept@ + rest@.take(i as int));
                    }
                    assert(rest@.take(i as int) =~= rest@);
                    return string_of(all.as_slice());
                },
                Some(start) => {
                    proof {
                        lemma_first_index(rest@, comment_open());
                        assert(occurs_at(rest@, comment_open(), start as int));
                    }
                    let n = rest.len();
                    assert(start + 4 <= n);
                    let ghost before = kept@;
                    let mut i: usize = 0;
                    while i < start
                        invariant
                            i <= start <= rest@.len(),
                            kept@ == before + rest@.take(i as int),
                        decreases start - i,
                    {
                        kept.push(rest[i]);
                        i += 1;
                        assert(kept@ =~= before + rest@.take(i as int));
                    }
                    let next = copy_range(&rest, start + 4, n);
                    assert(next@ =~= rest@.skip(start + 4));
                    proof {
                        let r = spec_strip_comments(next@, true);
                        assert(before + (rest@.take(start as int) + r.0) =~= kept@ + r.0);
                    }
                    rest = next;
                    *in_comment = true;
                },
            }
        }
    }
}

/// Whether `text` is the keyword line a body ends with: `Refs #` or `Closes #`, then one or more
/// digits and nothing else.
pub open spec fn spec_is_keyword_line(text: Seq<char>) -> bool {
    let rest = if has_prefix(text, "Refs #"@) {
        Some(text.skip("Refs #"@.len() as int))
    } else if has_prefix(text, "Closes #"@) {
        Some(text.skip("Closes #"@.len() as int))
    } else {
        None
    };
    match rest {
        Some(r) => r.len() > 0 && all_digits(r),
        None => false,
    }
}

/// Whether `text` is the keyword line a body ends with.
pub fn is_keyword_line(text: &str) -> (r: bool)
    ensures
        r == spec_is_keyword_line(text@),
{
    let t = chars_of(text);
    let refs = chars_of("Refs #");
    let closes = chars_of("Closes #");
    let start = if crate::strings::matches_at(&t, &refs, 0) {
        assert(has_prefix(text@, "Refs #"@));
        refs.len()
    } else if crate::strings::matches_at(&t, &closes, 0) {
        assert(!has_prefix(text@, "Refs #"@));
        assert(has_prefix(text@, "Closes #"@));
        closes.len()
    } else {
        return false;
    };
    if start >= t.len() {
        return false;
    }
    let ghost r = t@.skip(start as int);
    proof {
        let rest = if has_prefix(text@, "Refs #"@) {
            Some(text@.skip("Refs #"@.len() as int))
        } else if has_prefix(text@, "Closes #"@) {
            Some(text@.skip("Closes #"@.len() as int))
        } else {
            None
        };
        assert(rest == Some(r));
        assert(spec_is_keyword_line(text@) == (r.len() > 0 && all_digits(r)));
    }
    let mut i = start;
    while i < t.len()
        invariant
            start <= i <= t@.len(),
            t@ == text@,
            spec_is_keyword_line(text@) == (r.len() > 0 && all_digits(r)),
            r == t@.skip(start as int),
            forall|j: int| 0 <= j < i - start ==> is_digit(#[trigger] r[j]),
        decreases t@.len() - i,
    {
        if !char_is_digit(t[i]) {
            assert(r[i - start] == t@[i as int]);
            return false;
        }
        i += 1;
    }
    true
}

/// `## `, the start of a heading.
pub open spec fn heading_mark() -> Seq<char> {
    seq!['#', '#', ' ']
}

/// The sections of a body up to and including its lines `lines`, each a heading and whether
/// something was written under it, and whether a comment is open after them.
pub open spec fn scan_sections(lines: Seq<Seq<char>>) -> (Seq<(Seq<char>, bool)>, bool)
    decreases lines.len(),
{
    if lines.len() == 0 {
        (Seq::empty(), false)
    } else {
        let (secs, open) = scan_sections(lines.drop_last());
        let (text, still_open) = spec_strip_comments(lines.last(), open);
        let t = trim(text);
        if has_prefix(t, heading_mark()) {
            (secs.push((trim(t.skip(3)), false)), still_open)
        } else if t.len() > 0 && !spec_is_keyword_line(t) && secs.len() > 0 {
            (secs.update(secs.len() - 1, (secs.last().0, true)), still_open)
        } else {
            (secs, still_open)
        }
    }
}

/// The headings of `secs` under which nothing was written, in order.
pub open spec fn unfilled(secs: Seq<(Seq<char>, bool)>) -> Seq<Seq<char>>
    decreases secs.len(),
{
    if secs.len() == 0 {
        Seq::empty()
    } else if secs.last().1 {
        unfilled(secs.drop_last())
    } else {
        unfilled(secs.drop_last()).push(secs.last().0)
    }
}

/// The headings of `body` under which nothing was written. Headings, HTML comments and the
/// keyword line are not content.
pub fn empty_sections(body: &str) -> (r: Vec<String>)
    ensures
        views(r@) == unfilled(scan_sections(lines_of(body@)).0),
{
    let bv = chars_of(body);
    let ls = lines(&bv);
    let mark = vec!['#', '#', ' '];
    assert(mark@ =~= heading_mark());
    let mut headings: Vec<Vec<char>> = Vec::new();
    let mut filled: Vec<bool> = Vec::new();
    let mut in_comment = false;
    let mut i: usize = 0;
    while i < ls.len()
        invariant
            i <= ls@.len(),
            bv@ == body@,
            mark@ == heading_mark(),
            ls@.len() == lines_of(bv@).len(),
            forall|k: int| 0 <= k < ls@.len() ==> (#[trigger] ls@[k])@ == lines_of(bv@)[k],
            headings@.len() == filled@.len(),
            scan_sections(lines_of(bv@).take(i as int)).1 == in_comment,
            scan_sections(lines_of(bv@).take(i as int)).0.len() == headings@.len(),
            forall|k: int|
                0 <= k < headings@.len() ==> scan_sections(lines_of(bv@).take(i as int)).0[k] == (
                #[trigger] headings@[k]@,
                filled@[k],
            ),
        decreases ls@.len() - i,
    {
        let ghost prev = lines_of(bv@).take(i as int);
        let ghost t_all = lines_of(bv@).take(i + 1);
        proof {
            assert(t_all.drop_last() =~= prev);
            assert(t_all.last() == ls@[i as int]@);
        }
        let line = string_of(ls[i].as_slice());
        let text = strip_comments(line.as_str(), &mut in_comment);
        let tv = trimmed(&chars_of(text.as_str()));
        let ghost old_h = headings@;
        let ghost old_f = filled@;
        if crate::strings::matches_at(&tv, &mark, 0) {
            let rest = copy_range(&tv, 3, tv.len());
            assert(rest@ =~= tv@.skip(3));
            headings.push(trimmed(&rest));
            filled.push(false);
        } else if tv.len() > 0 && !is_keyword_line(string_of(tv.as_slice()).as_str()) && headings.len()
            > 0 {
            let last = filled.len() - 1;
            filled.set(last, true);
        }
        proof {
            let s = scan_sections(t_all).0;
            assert forall|k: int| 0 <= k < headings@.len() implies s[k] == (
                #[trigger] headings@[k]@,
                filled@[k],
            ) by {
                if k < old_h.len() {
                    assert(headings@[k] == old_h[k]);
                }
            }
        }
        i += 1;
    }
    let ghost secs = scan_sections(lines_of(bv@)).0;
    assert(lines_of(bv@).take(i as int) =~= lines_of(bv@));
    let mut out: Vec<String> = Vec::new();
    let mut j: usize = 0;
    while j < headings.len()
        invariant
            j <= headings@.len(),
            headings@.len() == filled@.len(),
            secs.len() == headings@.len(),
            forall|k: int| 0 <= k < headings@.len() ==> secs[k] == (#[trigger] headings@[k]@, filled@[k]),
            views(out@) == unfilled(secs.take(j as int)),
        decreases headings@.len() - j,
    {
        proof {
            assert(secs.take(j + 1).drop_last() =~= secs.take(j as int));
            assert(secs.take(j + 1).last() == secs[j as int]);
        }
        if !filled[j] {
            let ghost before = views(out@);
            out.push(string_of(headings[j].as_slice()));
            assert(views(out@) =~= before.push(headings@[j as int]@));
        }
        j += 1;
    }
    assert(secs.take(j as int) =~= secs);
    out
}

/// The body a shape's template gives: its contents without trailing whitespace, then the
/// keyword line, each line ended.
pub open spec fn spec_body(contents: Seq<char>, keyword: Seq<char>, issue: u32) -> Seq<char> {
    trim_end(contents) + "\n"@ + keyword + " #"@ + decimal(issue as nat) + "\n"@
}

/// The keyword a body carries: `Refs` where only references were asked for, else the shape's.
pub open spec fn spec_keyword(shape: Shape, refs_only: bool) -> Seq<char> {
    if refs_only || shape is Deciding {
        "Refs"@
    } else {
        "Closes"@
    }
}

/// The body written for `shape` from its template's `contents`, referencing `issue`.
pub fn body_text(contents: &str, shape: Shape, refs_only: bool, issue: u32) -> (r: String)
    ensures
        r@ == spec_body(contents@, spec_keyword(shape, refs_only), issue),
{
    let c = chars_of(contents);
    let trimmed_contents = trimmed_end(&c);
    let keyword = if refs_only {
        "Refs"
    } else {
        shape.keyword()
    };
    let mut r = String::new();
    push_vec(&mut r, &trimmed_contents);
    push_chars(&mut r, "\n");
    push_chars(&mut r, keyword);
    push_chars(&mut r, " #");
    push_decimal(&mut r, issue as u64);
    push_chars(&mut r, "\n");
    r
}

/// The branch a pull request may be opened from: any but `main` and a detached head.
pub fn check_branch(branch: String) -> (r: Result<String, String>)
    ensures
        branch@ == "main"@ ==> (r matches Err(m) && m@
            == "xtask: this is `main`; a pull request is opened from a branch."@),
        branch@ == "HEAD"@ ==> (r matches Err(m) && m@
            == "xtask: the head is detached, so there is no branch to propose."@),
        branch@ != "main"@ && branch@ != "HEAD"@ ==> (r matches Ok(b) && b@ == branch@),
{
    let b = chars_of(branch.as_str());
    proof {
        reveal_strlit("main");
        reveal_strlit("HEAD");
        assert("main"@[0] != "HEAD"@[0]);
        assert("main"@ != "HEAD"@);
    }
    if equals(&b, "main") {
        let mut m = String::new();
        push_chars(&mut m, "xtask: this is `main`; a pull request is opened from a branch.");
        Err(m)
    } else if equals(&b, "HEAD") {
        let mut m = String::new();
        push_chars(&mut m, "xtask: the head is detached, so there is no branch to propose.");
        Err(m)
    } else {
        Ok(branch)
    }
}


/// A working tree that `git status --porcelain` reports anything of would leave that out of the
/// pull request: only an empty status lets one be opened.
pub fn check_clean(status: &str) -> (r: Result<(), String>)
    ensures
        r is Ok <==> status@.len() == 0,
        r matches Err(m) ==> m@
            == "xtask: the working tree is not clean, so the pull request would not hold everything you have:\n"@
            + status@,
{
    if status.unicode_len() == 0 {
        return Ok(());
    }
    let mut m = String::new();
    push_chars(
        &mut m,
        "xtask: the working tree is not clean, so the pull request would not hold everything you have:\n",
    );
    push_chars(&mut m, status);
    Err(m)
}

/// The message a body with empty sections is refused with, naming them.
pub open spec fn unfilled_message(empty: Seq<Seq<char>>) -> Seq<char> {
    "xtask: "@ + (if empty.len() == 1 {
        "a section"@
    } else {
        "part"@
    }) + " of the body is still empty: "@ + join(empty, ", "@)
        + ". A section with nothing to say says \"None.\""@
}

/// A body may be proposed only once every section says something.
pub fn check_filled(body: &str) -> (r: Result<(), String>)
    ensures
        ({
            let empty = unfilled(scan_sections(lines_of(body@)).0);
            &&& r is Ok <==> empty.len() == 0
            &&& r matches Err(m) ==> m@ == unfilled_message(empty)
        }),
{
    let empty = empty_sections(body);
    let ghost e = views(empty@);
    if empty.len() == 0 {
        return Ok(());
    }
    let mut m = String::new();
    push_chars(&mut m, "xtask: ");
    if empty.len() == 1 {
        push_chars(&mut m, "a section");
    } else {
        push_chars(&mut m, "part");
    }
    push_chars(&mut m, " of the body is still empty: ");
    let ghost head = m@;
    let mut i: usize = 0;
    while i < empty.len()
        invariant
            i <= empty@.len(),
            e == views(empty@),
            m@ == head + join(e.take(i as int), ", "@),
        decreases empty@.len() - i,
    {
        if i > 0 {
            push_chars(&mut m, ", ");
        }
        push_chars(&mut m, empty[i].as_str());
        proof {
            let t = e.take(i + 1);
            assert(t.drop_last() =~= e.take(i as int));
            assert(t.last() == empty@[i as int]@);
            if i == 0 {
                assert(m@ =~= head + join(t, ", "@));
            } else {
                assert(m@ =~= head + join(t, ", "@));
            }
        }
        i += 1;
    }
    assert(e.take(i as int) =~= e);
    push_chars(&mut m, ". A section with nothing to say says \"None.\"");
    Err(m)
}

/// The title a feature's pull request opens with: the stage's verb, then the issue's own title.
pub fn issue_title(prefix: &str, title: &str) -> (r: String)
    ensures
        r@ == prefix@ + ": "@ + title@,
{
    let mut r = String::new();
    push_chars(&mut r, prefix);
    push_chars(&mut r, ": ");
    push_chars(&mut r, title);
    r
}

/// The title a tooling change opens with: the subject of the first commit the branch added, read
/// from `git log --reverse --format=%s`; a branch that adds none has nothing to propose.
pub fn first_commit_title(log: &str) -> (r: Result<String, String>)
    ensures
        lines_of(log@).len() > 0 ==> (r matches Ok(t) && t@ == lines_of(log@)[0]),
        lines_of(log@).len() == 0 ==> (r matches Err(m) && m@
            == "xtask: this branch adds no commit to origin/main, so there is nothing to propose and no          title to derive. `--title` overrides."@),
{
    let lv = chars_of(log);
    let ls = lines(&lv);
    if ls.len() > 0 {
        Ok(string_of(ls[0].as_slice()))
    } else {
        let mut m = String::new();
        push_chars(
            &mut m,
            "xtask: this branch adds no commit to origin/main, so there is nothing to propose and no          title to derive. `--title` overrides.",
        );
        Err(m)
    }
}

/// A keyword line is exactly `Refs #` or `Closes #` followed by one or more ASCII digits: any
/// character after the prefix that is not `0` to `9` makes the line ordinary content.
pub proof fn law_keyword_line_is_prefix_then_digits(text: Seq<char>)
    ensures
        spec_is_keyword_line(text) == {
        ||| (text.len() > 6 && text.take(6) == "Refs #"@ && forall|k: int|
            6 <= k < text.len() ==> '0' <= #[trigger] text[k] && text[k] <= '9')
        ||| (text.len() > 8 && text.take(8) == "Closes #"@ && forall|k: int|
            8 <= k < text.len() ==> '0' <= #[trigger] text[k] && text[k] <= '9')
        },
{
    reveal_strlit("Refs #");
    reveal_strlit("Closes #");
    let refs = "Refs #"@;
    let closes = "Closes #"@;
    assert(has_prefix(text, refs) == (text.len() >= 6 && text.take(6) == refs)) by {
        if text.len() >= 6 {
            assert(text.subrange(0, 6) =~= text.take(6));
        }
    }
    assert(has_prefix(text, closes) == (text.len() >= 8 && text.take(8) == closes)) by {
        if text.len() >= 8 {
            assert(text.subrange(0, 8) =~= text.take(8));
        }
    }
    if text.len() >= 6 && text.take(6) == refs {
        assert(text.take(6)[0] == text[0]);
        assert(refs[0] == 'R');
        let r = text.skip(6);
        assert forall|k: int| 6 <= k < text.len() implies (is_digit(r[k - 6]) == ('0' <= text[k]
            && text[k] <= '9')) by {
            assert(r[k - 6] == text[k]);
        }
        assert(all_digits(r) == (forall|k: int| 6 <= k < text.len() ==> '0' <= #[trigger] text[k]
            && text[k] <= '9')) by {
            if all_digits(r) {
                assert forall|k: int| 6 <= k < text.len() implies '0' <= #[trigger] text[k]
                    && text[k] <= '9' by {
                    assert(r[k - 6] == text[k]);
                }
            }
            if forall|k: int| 6 <= k < text.len() ==> '0' <= #[trigger] text[k] && text[k] <= '9' {
                assert forall|j: int| 0 <= j < r.len() implies is_digit(#[trigger] r[j]) by {
                    assert(r[j] == text[j + 6]);
                }
            }
        }
        if text.len() >= 8 && text.take(8) == closes {
            assert(text.take(8)[0] == text[0]);
            assert(closes[0] == 'C');
        }
    } else if text.len() >= 8 && text.take(8) == closes {
        let r = text.skip(8);
        assert(all_digits(r) == (forall|k: int| 8 <= k < text.len() ==> '0' <= #[trigger] text[k]
            && text[k] <= '9')) by {
            if all_digits(r) {
                assert forall|k: int| 8 <= k < text.len() implies '0' <= #[trigger] text[k]
                    && text[k] <= '9' by {
                    assert(r[k - 8] == text[k]);
                }
            }
            if forall|k: int| 8 <= k < text.len() ==> '0' <= #[trigger] text[k] && text[k] <= '9' {
                assert forall|j: int| 0 <= j < r.len() implies is_digit(#[trigger] r[j]) by {
                    assert(r[j] == text[j + 8]);
                }
            }
        }
    }
}

} // verus!
