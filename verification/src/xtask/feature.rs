//! The feature branch lifecycle's decisions: the two stages, the arguments the command takes, how
//! a title becomes a slug and a slug a branch, which stage an issue's labels name, and which lines
//! of a decision sheet are still pending.
use vstd::prelude::*;

use crate::strings::{
    contains, contains_seq, decimal, has_prefix, join, lines, lines_of, parse_u32,
    parse_u32_spec, push_decimal, push_vec, trim, trimmed,
};
use crate::text::{chars_of, push_char, push_chars, string_of};

verus! {

/// One of the two stages a feature crosses, in order.
#[derive(Debug, Clone, Copy, PartialEq, Eq, Structural)]
pub enum Stage {
    /// The spec, the research and the decision sheet are being written.
    Deciding,
    /// The sheet is answered and merged, and the design, the tasks and the code follow it.
    Building,
}

/// The word a stage is named by, which is both its branch suffix and its label.
pub open spec fn spec_stage_name(stage: Stage) -> Seq<char> {
    match stage {
        Stage::Deciding => "deciding"@,
        Stage::Building => "building"@,
    }
}

impl Stage {
    /// The word this stage is named by, which is both its branch suffix and its label.
    pub fn name(self) -> (r: &'static str)
        ensures
            r@ == spec_stage_name(self),
    {
        match self {
            Stage::Deciding => "deciding",
            Stage::Building => "building",
        }
    }

    /// The label the previous stage left behind, which moving into this stage removes.
    pub fn label_to_remove(self) -> (r: &'static str)
        ensures
            r@ == (match self {
                Stage::Deciding => "wish"@,
                Stage::Building => "deciding"@,
            }),
    {
        match self {
            Stage::Deciding => "wish",
            Stage::Building => "deciding",
        }
    }

    /// The commands to run once this stage's branch is checked out, one per session.
    pub fn next_step(self) -> (r: &'static str)
        ensures
            r@ == (match self {
                Stage::Deciding => "run `/speckit-specify`, then `/speckit-clarify` if the spec leaves open questions, then `/speckit-plan` part one, which stops at `decisions.md`"@,
                Stage::Building => "run `/speckit-plan` part two, then `/speckit-tasks`, then `/speckit-implement`"@,
            }),
    {
        match self {
            Stage::Deciding => "run `/speckit-specify`, then `/speckit-clarify` if the spec leaves open questions, then `/speckit-plan` part one, which stops at `decisions.md`",
            Stage::Building => "run `/speckit-plan` part two, then `/speckit-tasks`, then `/speckit-implement`",
        }
    }
}

/// Parses an issue number argument, which is required and must be a number.
pub fn parse_issue(raw: Option<String>) -> (r: Result<u32, String>)
    ensures
        raw is None ==> (r matches Err(m) && m@ == "xtask: spec requires an issue number"@),
        raw matches Some(s) ==> match parse_u32_spec(s@) {
            Some(n) => r == Ok::<u32, String>(n),
            None => r matches Err(m) && m@ == "xtask: `"@ + s@ + "` is not a valid issue number"@,
        },
{
    match raw {
        None => {
            let mut m = String::new();
            push_chars(&mut m, "xtask: spec requires an issue number");
            Err(m)
        },
        Some(s) => {
            let v = chars_of(s.as_str());
            match parse_u32(&v) {
                Some(n) => Ok(n),
                None => {
                    let mut m = String::new();
                    push_chars(&mut m, "xtask: `");
                    push_chars(&mut m, s.as_str());
                    push_chars(&mut m, "` is not a valid issue number");
                    Err(m)
                },
            }
        },
    }
}

/// Parses `stage`'s second argument, which must be `build`.
pub fn parse_stage(raw: Option<&str>) -> (r: Result<(), String>)
    ensures
        raw matches Some(s) ==> if s@ == "build"@ {
            r is Ok
        } else {
            r matches Err(m) && m@ == "xtask: stage must be `build`, not `"@ + s@ + "`"@
        },
        raw is None ==> (r matches Err(m) && m@ == "xtask: spec stage requires `build`"@),
{
    match raw {
        Some(s) => {
            if crate::strings::equals(&chars_of(s), "build") {
                Ok(())
            } else {
                let mut m = String::new();
                push_chars(&mut m, "xtask: stage must be `build`, not `");
                push_chars(&mut m, s);
                push_chars(&mut m, "`");
                Err(m)
            }
        },
        None => {
            let mut m = String::new();
            push_chars(&mut m, "xtask: spec stage requires `build`");
            Err(m)
        },
    }
}

/// The lines of a decision sheet still carrying `_pending_`: one-based line numbers, each with
/// the trimmed text of its line.
pub open spec fn spec_pending(ls: Seq<Seq<char>>) -> Seq<(int, Seq<char>)>
    decreases ls.len(),
{
    if ls.len() == 0 {
        Seq::empty()
    } else {
        let p = spec_pending(ls.drop_last());
        if contains_seq(ls.last(), "_pending_"@) {
            p.push((ls.len() as int, trim(ls.last())))
        } else {
            p
        }
    }
}

/// The lines of a decision sheet that still carry the template's `_pending_` marker, as one-based
/// line numbers paired with the trimmed text of the line.
pub fn pending_lines(sheet: &str) -> (r: Vec<(usize, String)>)
    ensures
        r@.map_values(|p: (usize, String)| (p.0 as int, p.1@)) == spec_pending(lines_of(sheet@)),
{
    let sv = chars_of(sheet);
    let ls = lines(&sv);
    let mut out: Vec<(usize, String)> = Vec::new();
    let mut i: usize = 0;
    while i < ls.len()
        invariant
            i <= ls@.len(),
            sv@ == sheet@,
            ls@.len() == lines_of(sv@).len(),
            forall|k: int| 0 <= k < ls@.len() ==> (#[trigger] ls@[k])@ == lines_of(sv@)[k],
            out@.map_values(|p: (usize, String)| (p.0 as int, p.1@)) == spec_pending(
                lines_of(sv@).take(i as int),
            ),
        decreases ls@.len() - i,
    {
        let ghost t = lines_of(sv@).take(i + 1);
        proof {
            assert(t.drop_last() =~= lines_of(sv@).take(i as int));
            assert(t.last() == ls@[i as int]@);
        }
        let ghost before = out@.map_values(|p: (usize, String)| (p.0 as int, p.1@));
        if contains(&ls[i], "_pending_") {
            let text = trimmed(&ls[i]);
            out.push((i + 1, string_of(text.as_slice())));
            assert(out@.map_values(|p: (usize, String)| (p.0 as int, p.1@)) =~= before.push(
                ((i + 1) as int, trim(ls@[i as int]@)),
            ));
        }
        i += 1;
    }
    assert(lines_of(sv@).take(i as int) =~= lines_of(sv@));
    out
}

/// What a pending line reads as in a message.
pub open spec fn quoted(p: (int, Seq<char>)) -> Seq<char> {
    "line "@ + decimal(p.0 as nat) + " reads `"@ + p.1 + "`"@
}

/// The first three pending lines quoted, then a count of whatever else is left.
pub open spec fn spec_describe_pending(pending: Seq<(int, Seq<char>)>) -> Seq<char> {
    let n = if pending.len() < 3 {
        pending.len() as int
    } else {
        3
    };
    let shown = join(pending.take(n).map_values(|p: (int, Seq<char>)| quoted(p)), ", "@);
    if pending.len() <= 3 {
        shown
    } else {
        shown + ", and "@ + decimal((pending.len() - 3) as nat) + " more"@
    }
}

/// Renders what `pending_lines` found: the first three, quoted, and a count of whatever else is
/// left.
pub fn describe_pending(pending: &[(usize, String)]) -> (r: String)
    ensures
        r@ == spec_describe_pending(pending@.map_values(|p: (usize, String)| (p.0 as int, p.1@))),
{
    let ghost pv = pending@.map_values(|p: (usize, String)| (p.0 as int, p.1@));
    let n: usize = if pending.len() < 3 {
        pending.len()
    } else {
        3
    };
    let ghost parts = pv.take(n as int).map_values(|p: (int, Seq<char>)| quoted(p));
    let mut r = String::new();
    let mut i: usize = 0;
    while i < n
        invariant
            n <= pending@.len(),
            i <= n,
            pv == pending@.map_values(|p: (usize, String)| (p.0 as int, p.1@)),
            parts == pv.take(n as int).map_values(|p: (int, Seq<char>)| quoted(p)),
            r@ == join(parts.take(i as int), ", "@),
        decreases n - i,
    {
        if i > 0 {
            push_chars(&mut r, ", ");
        }
        push_chars(&mut r, "line ");
        push_decimal(&mut r, pending[i].0 as u64);
        push_chars(&mut r, " reads `");
        push_chars(&mut r, pending[i].1.as_str());
        push_chars(&mut r, "`");
        proof {
            let t = parts.take(i + 1);
            assert(t.drop_last() =~= parts.take(i as int));
            assert(t.last() == quoted(pv[i as int]));
            if i == 0 {
                assert(r@ =~= join(t, ", "@));
            } else {
                assert(r@ =~= join(t, ", "@));
            }
        }
        i += 1;
    }
    assert(parts.take(i as int) =~= parts);
    if pending.len() > 3 {
        push_chars(&mut r, ", and ");
        push_decimal(&mut r, (pending.len() - 3) as u64);
        push_chars(&mut r, " more");
    }
    r
}

/// `issue` in decimal, padded with zeros to at least three digits.
pub open spec fn spec_format_issue_number(issue: nat) -> Seq<char> {
    let d = decimal(issue);
    if d.len() >= 3 {
        d
    } else if d.len() == 2 {
        seq!['0'] + d
    } else {
        seq!['0', '0'] + d
    }
}

/// Zero-pads `issue` to at least three digits; an issue number with more digits keeps all of
/// them.
pub fn format_issue_number(issue: u32) -> (r: String)
    ensures
        r@ == spec_format_issue_number(issue as nat),
{
    let d = crate::strings::decimal_chars(issue as u64);
    let mut r = String::new();
    if d.len() < 3 {
        push_char(&mut r, '0');
        if d.len() < 2 {
            push_char(&mut r, '0');
        }
    }
    proof {
        crate::xtask::feature::lemma_decimal_nonempty(issue as nat);
    }
    push_vec(&mut r, &d);
    assert(r@ =~= spec_format_issue_number(issue as nat));
    r
}

/// A decimal writing holds at least one digit.
pub proof fn lemma_decimal_nonempty(n: nat)
    ensures
        decimal(n).len() >= 1,
    decreases n,
{
    if n >= 10 {
        lemma_decimal_nonempty(n / 10);
    }
}

/// The branch name for `stage` of the feature identified by `issue_number` and `slug`.
pub fn branch_name(issue_number: &str, slug: &str, stage: Stage) -> (r: String)
    ensures
        r@ == issue_number@ + "-"@ + slug@ + "-"@ + spec_stage_name(stage),
{
    let mut r = String::new();
    push_chars(&mut r, issue_number);
    push_chars(&mut r, "-");
    push_chars(&mut r, slug);
    push_chars(&mut r, "-");
    push_chars(&mut r, stage.name());
    r
}

/// The characters of each string of `v`.
pub open spec fn views(v: Seq<String>) -> Seq<Seq<char>> {
    v.map_values(|s: String| s@)
}

/// Every one of `entries` starting with `prefix`, in order.
pub open spec fn with_prefix(entries: Seq<Seq<char>>, prefix: Seq<char>) -> Seq<Seq<char>>
    decreases entries.len(),
{
    if entries.len() == 0 {
        Seq::empty()
    } else {
        let m = with_prefix(entries.drop_last(), prefix);
        if has_prefix(entries.last(), prefix) {
            m.push(entries.last())
        } else {
            m
        }
    }
}

/// Every entry `with_prefix` keeps starts with the prefix.
pub proof fn lemma_with_prefix_starts(entries: Seq<Seq<char>>, prefix: Seq<char>)
    ensures
        forall|k: int|
            0 <= k < with_prefix(entries, prefix).len() ==> has_prefix(
                #[trigger] with_prefix(entries, prefix)[k],
                prefix,
            ),
    decreases entries.len(),
{
    if entries.len() > 0 {
        let m = with_prefix(entries.drop_last(), prefix);
        lemma_with_prefix_starts(entries.drop_last(), prefix);
        assert forall|k: int| 0 <= k < with_prefix(entries, prefix).len() implies has_prefix(
            #[trigger] with_prefix(entries, prefix)[k],
            prefix,
        ) by {
            if k < m.len() {
                assert(with_prefix(entries, prefix)[k] == m[k]);
            }
        }
    }
}

/// The prefix a feature's directory under `specs/` starts with.
pub open spec fn slug_prefix(issue_number: Seq<char>) -> Seq<char> {
    "specs/"@ + issue_number + "-"@
}

/// Finds the single entry of `entries` named `specs/{issue_number}-*`, and returns the slug after
/// that prefix; otherwise names what was found.
pub fn find_slug(entries: &[String], issue_number: &str) -> (r: Result<String, String>)
    ensures
        ({
            let p = slug_prefix(issue_number@);
            let ms = with_prefix(views(entries@), p);
            if ms.len() == 1 {
                r matches Ok(s) && s@ == ms[0].skip(p.len() as int)
            } else if ms.len() == 0 {
                r matches Err(m) && m@ == "xtask: no directory matching `specs/"@ + issue_number@
                    + "-*` was found in origin/main"@
            } else {
                r matches Err(m) && m@ == "xtask: expected exactly one directory matching `specs/"@
                    + issue_number@ + "-*` in origin/main, found "@ + decimal(ms.len()) + ": "@
                    + join(ms, ", "@)
            }
        }),
{
    let mut prefix = String::new();
    push_chars(&mut prefix, "specs/");
    push_chars(&mut prefix, issue_number);
    push_chars(&mut prefix, "-");
    let pv = chars_of(prefix.as_str());
    let ghost es = views(entries@);
    let mut matches: Vec<Vec<char>> = Vec::new();
    let mut i: usize = 0;
    while i < entries.len()
        invariant
            i <= entries@.len(),
            es == views(entries@),
            pv@ == slug_prefix(issue_number@),
            matches@.map_values(|v: Vec<char>| v@) == with_prefix(es.take(i as int), pv@),
        decreases entries@.len() - i,
    {
        proof {
            let t = es.take(i + 1);
            assert(t.drop_last() =~= es.take(i as int));
            assert(t.last() == entries@[i as int]@);
        }
        let e = chars_of(entries[i].as_str());
        let ghost before = matches@.map_values(|v: Vec<char>| v@);
        if crate::strings::matches_at(&e, &pv, 0) {
            matches.push(e);
            assert(matches@.map_values(|v: Vec<char>| v@) =~= before.push(entries@[i as int]@));
        }
        i += 1;
    }
    assert(es.take(i as int) =~= es);
    let ghost ms = with_prefix(es, pv@);
    if matches.len() == 1 {
        proof {
            lemma_with_prefix_starts(es, pv@);
            assert(has_prefix(ms[0], pv@));
        }
        let slug = crate::strings::copy_range(&matches[0], pv.len(), matches[0].len());
        assert(slug@ =~= ms[0].skip(pv@.len() as int));
        return Ok(string_of(slug.as_slice()));
    }
    let mut m = String::new();
    if matches.len() == 0 {
        push_chars(&mut m, "xtask: no directory matching `specs/");
        push_chars(&mut m, issue_number);
        push_chars(&mut m, "-*` was found in origin/main");
        return Err(m);
    }
    push_chars(&mut m, "xtask: expected exactly one directory matching `specs/");
    push_chars(&mut m, issue_number);
    push_chars(&mut m, "-*` in origin/main, found ");
    push_decimal(&mut m, matches.len() as u64);
    push_chars(&mut m, ": ");
    let ghost head = m@;
    let mut j: usize = 0;
    while j < matches.len()
        invariant
            j <= matches@.len(),
            ms == matches@.map_values(|v: Vec<char>| v@),
            m@ == head + join(ms.take(j as int), ", "@),
        decreases matches@.len() - j,
    {
        if j > 0 {
            push_chars(&mut m, ", ");
        }
        push_vec(&mut m, &matches[j]);
        proof {
            let t = ms.take(j + 1);
            assert(t.drop_last() =~= ms.take(j as int));
            assert(t.last() == matches@[j as int]@);
            if j == 0 {
                assert(m@ =~= head + join(t, ", "@));
            } else {
                assert(m@ =~= head + join(t, ", "@));
            }
        }
        j += 1;
    }
    assert(ms.take(j as int) =~= ms);
    Err(m)
}

/// Whether one of `labels` is `name`.
pub open spec fn has_label(labels: Seq<Seq<char>>, name: Seq<char>) -> bool {
    exists|i: int| 0 <= i < labels.len() && labels[i] == name
}

/// Whether one of `labels` is `name`.
fn carries(labels: &[String], name: &str) -> (r: bool)
    ensures
        r == has_label(views(labels@), name@),
{
    let mut i: usize = 0;
    while i < labels.len()
        invariant
            i <= labels@.len(),
            forall|j: int| 0 <= j < i ==> views(labels@)[j] != name@,
        decreases labels@.len() - i,
    {
        if crate::strings::equals(&chars_of(labels[i].as_str()), name) {
            assert(views(labels@)[i as int] == name@);
            return true;
        }
        i += 1;
    }
    false
}

/// Maps an issue's current labels to the stage they say is active, or says which labels it
/// carries instead.
pub fn stage_from_labels(labels: &[String]) -> (r: Result<Stage, String>)
    ensures
        ({
            let ls = views(labels@);
            if has_label(ls, "building"@) {
                r == Ok::<Stage, String>(Stage::Building)
            } else if has_label(ls, "deciding"@) {
                r == Ok::<Stage, String>(Stage::Deciding)
            } else if has_label(ls, "wish"@) {
                r matches Err(m) && m@
                    == "xtask: the deciding stage has not been opened yet; `cargo xtask spec new <issue>` opens it."@
            } else if ls.len() == 0 {
                r matches Err(m) && m@
                    == "xtask: the issue carries neither the deciding nor the building label; it carries no labels at all"@
            } else {
                r matches Err(m) && m@
                    == "xtask: the issue carries neither the deciding nor the building label; it carries: "@
                    + join(ls, ", "@)
            }
        }),
{
    if carries(labels, "building") {
        return Ok(Stage::Building);
    }
    if carries(labels, "deciding") {
        return Ok(Stage::Deciding);
    }
    let mut m = String::new();
    if carries(labels, "wish") {
        push_chars(
            &mut m,
            "xtask: the deciding stage has not been opened yet; `cargo xtask spec new <issue>` opens it.",
        );
        return Err(m);
    }
    if labels.len() == 0 {
        push_chars(
            &mut m,
            "xtask: the issue carries neither the deciding nor the building label; it carries no labels at all",
        );
        return Err(m);
    }
    push_chars(
        &mut m,
        "xtask: the issue carries neither the deciding nor the building label; it carries: ",
    );
    let ghost head = m@;
    let ghost ls = views(labels@);
    let mut j: usize = 0;
    while j < labels.len()
        invariant
            j <= labels@.len(),
            ls == views(labels@),
            m@ == head + join(ls.take(j as int), ", "@),
        decreases labels@.len() - j,
    {
        if j > 0 {
            push_chars(&mut m, ", ");
        }
        push_chars(&mut m, labels[j].as_str());
        proof {
            let t = ls.take(j + 1);
            assert(t.drop_last() =~= ls.take(j as int));
            assert(t.last() == labels@[j as int]@);
            if j == 0 {
                assert(m@ =~= head + join(t, ", "@));
            } else {
                assert(m@ =~= head + join(t, ", "@));
            }
        }
        j += 1;
    }
    assert(ls.take(j as int) =~= ls);
    Err(m)
}

/// The plain ASCII letter a Latin-1 accented letter folds to, where `c` is one.
pub open spec fn spec_fold_accent(c: char) -> Option<char> {
    if c == 'á' || c == 'à' || c == 'ä' || c == 'â' || c == 'ã' || c == 'Á' || c == 'À' || c == 'Ä'
        || c == 'Â' || c == 'Ã' {
        Some('a')
    } else if c == 'é' || c == 'è' || c == 'ë' || c == 'ê' || c == 'É' || c == 'È' || c == 'Ë'
        || c == 'Ê' {
        Some('e')
    } else if c == 'í' || c == 'ì' || c == 'ï' || c == 'î' || c == 'Í' || c == 'Ì' || c == 'Ï'
        || c == 'Î' {
        Some('i')
    } else if c == 'ó' || c == 'ò' || c == 'ö' || c == 'ô' || c == 'õ' || c == 'Ó' || c == 'Ò'
        || c == 'Ö' || c == 'Ô' || c == 'Õ' {
        Some('o')
    } else if c == 'ú' || c == 'ù' || c == 'ü' || c == 'û' || c == 'Ú' || c == 'Ù' || c == 'Ü'
        || c == 'Û' {
        Some('u')
    } else if c == 'ñ' || c == 'Ñ' {
        Some('n')
    } else if c == 'ç' || c == 'Ç' {
        Some('c')
    } else {
        None
    }
}

/// The plain ASCII letter a Latin-1 accented letter folds to, where `c` is one.
fn fold_accent(c: char) -> (r: Option<char>)
    ensures
        r == spec_fold_accent(c),
{
    if c == 'á' || c == 'à' || c == 'ä' || c == 'â' || c == 'ã' || c == 'Á' || c == 'À' || c == 'Ä'
        || c == 'Â' || c == 'Ã' {
        Some('a')
    } else if c == 'é' || c == 'è' || c == 'ë' || c == 'ê' || c == 'É' || c == 'È' || c == 'Ë'
        || c == 'Ê' {
        Some('e')
    } else if c == 'í' || c == 'ì' || c == 'ï' || c == 'î' || c == 'Í' || c == 'Ì' || c == 'Ï'
        || c == 'Î' {
        Some('i')
    } else if c == 'ó' || c == 'ò' || c == 'ö' || c == 'ô' || c == 'õ' || c == 'Ó' || c == 'Ò'
        || c == 'Ö' || c == 'Ô' || c == 'Õ' {
        Some('o')
    } else if c == 'ú' || c == 'ù' || c == 'ü' || c == 'û' || c == 'Ú' || c == 'Ù' || c == 'Ü'
        || c == 'Û' {
        Some('u')
    } else if c == 'ñ' || c == 'Ñ' {
        Some('n')
    } else if c == 'ç' || c == 'Ç' {
        Some('c')
    } else {
        None
    }
}

/// The character a title's `c` is kept as in a slug: an accented letter folded, an ASCII letter
/// or digit lowercased; anything else is not kept.
pub open spec fn spec_kept(c: char) -> Option<char> {
    match spec_fold_accent(c) {
        Some(f) => Some(f),
        None => if '0' <= c && c <= '9' || 'a' <= c && c <= 'z' {
            Some(c)
        } else if 'A' <= c && c <= 'Z' {
            Some(((c as u32) + 32) as char)
        } else {
            None
        },
    }
}

/// The character a title's `c` is kept as in a slug, where it is kept.
fn kept(c: char) -> (r: Option<char>)
    ensures
        r == spec_kept(c),
{
    match fold_accent(c) {
        Some(f) => Some(f),
        None => if ('0' <= c && c <= '9') || ('a' <= c && c <= 'z') {
            Some(c)
        } else if 'A' <= c && c <= 'Z' {
            let lower = match c {
                'A' => 'a',
                'B' => 'b',
                'C' => 'c',
                'D' => 'd',
                'E' => 'e',
                'F' => 'f',
                'G' => 'g',
                'H' => 'h',
                'I' => 'i',
                'J' => 'j',
                'K' => 'k',
                'L' => 'l',
                'M' => 'm',
                'N' => 'n',
                'O' => 'o',
                'P' => 'p',
                'Q' => 'q',
                'R' => 'r',
                'S' => 's',
                'T' => 't',
                'U' => 'u',
                'V' => 'v',
                'W' => 'w',
                'X' => 'x',
                'Y' => 'y',
                _ => 'z',
            };
            assert(lower == ((c as u32) + 32) as char);
            Some(lower)
        } else {
            None
        },
    }
}

/// A title folded into a slug so far: the slug, and whether a run of characters not kept is
/// waiting to become one hyphen.
pub open spec fn fold_slug(title: Seq<char>) -> (Seq<char>, bool)
    decreases title.len(),
{
    if title.len() == 0 {
        (Seq::empty(), false)
    } else {
        let (slug, pending) = fold_slug(title.drop_last());
        match spec_kept(title.last()) {
            Some(c) => if pending && slug.len() > 0 {
                (slug.push('-').push(c), false)
            } else {
                (slug.push(c), false)
            },
            None => (slug, true),
        }
    }
}

/// `s` without the hyphens it ends with.
pub open spec fn drop_trailing_hyphens(s: Seq<char>) -> Seq<char>
    decreases s.len(),
{
    if s.len() > 0 && s.last() == '-' {
        drop_trailing_hyphens(s.drop_last())
    } else {
        s
    }
}

/// The slug a title gives: folded, then cut to forty characters with no trailing hyphen where it
/// was longer.
pub open spec fn spec_slug(title: Seq<char>) -> Seq<char> {
    let s = fold_slug(title).0;
    if s.len() > 40 {
        drop_trailing_hyphens(s.take(40))
    } else {
        s
    }
}

/// Derives a slug from an issue title: lowercase, accented Latin-1 letters folded to ASCII, any
/// run of characters that are not `[a-z0-9]` collapsed to one hyphen, truncated to 40 characters
/// with no trailing hyphen; a title with nothing left is refused.
pub fn slugify(title: &str) -> (r: Result<String, String>)
    ensures
        spec_slug(title@).len() > 0 ==> (r matches Ok(s) && s@ == spec_slug(title@)),
        spec_slug(title@).len() == 0 ==> (r matches Err(m) && m@
            == "xtask: could not derive a slug from title `"@ + title@ + "`"@),
{
    let tv = chars_of(title);
    let mut slug: Vec<char> = Vec::new();
    let mut pending = false;
    let mut i: usize = 0;
    while i < tv.len()
        invariant
            i <= tv@.len(),
            slug@.len() <= 2 * i,
            (slug@, pending) == fold_slug(tv@.take(i as int)),
        decreases tv@.len() - i,
    {
        proof {
            let t = tv@.take(i + 1);
            assert(t.drop_last() =~= tv@.take(i as int));
            assert(t.last() == tv@[i as int]);
        }
        match kept(tv[i]) {
            Some(c) => {
                if pending && slug.len() > 0 {
                    slug.push('-');
                }
                slug.push(c);
                pending = false;
            },
            None => {
                pending = true;
            },
        }
        i += 1;
    }
    assert(tv@.take(i as int) =~= tv@);
    if slug.len() > 40 {
        let mut cut = crate::strings::copy_range(&slug, 0, 40);
        assert(cut@ =~= slug@.take(40));
        assert(drop_trailing_hyphens(cut@) == drop_trailing_hyphens(slug@.take(40)));
        while cut.len() > 0 && cut[cut.len() - 1] == '-'
            invariant
                drop_trailing_hyphens(cut@) == drop_trailing_hyphens(slug@.take(40)),
            decreases cut@.len(),
        {
            cut.pop();
        }
        slug = cut;
    }
    if slug.len() == 0 {
        let mut m = String::new();
        push_chars(&mut m, "xtask: could not derive a slug from title `");
        push_chars(&mut m, title);
        push_chars(&mut m, "`");
        return Err(m);
    }
    Ok(string_of(slug.as_slice()))
}


/// Which edits moving an issue into `stage` needs: removing the previous stage's label where the
/// issue carries it, adding this stage's where it does not. An issue needing neither is left alone.
pub fn label_edits(labels: &[String], stage: Stage) -> (r: (bool, bool))
    ensures
        r.0 == has_label(views(labels@), spec_stage_removes(stage)),
        r.1 == !has_label(views(labels@), spec_stage_name(stage)),
{
    let remove = carries(labels, stage.label_to_remove());
    let add = !carries(labels, stage.name());
    (remove, add)
}

/// The label moving into `stage` removes.
pub open spec fn spec_stage_removes(stage: Stage) -> Seq<char> {
    match stage {
        Stage::Deciding => "wish"@,
        Stage::Building => "deciding"@,
    }
}

/// The non-empty lines of `output`, in order.
pub open spec fn nonempty_lines(ls: Seq<Seq<char>>) -> Seq<Seq<char>>
    decreases ls.len(),
{
    if ls.len() == 0 {
        Seq::empty()
    } else if ls.last().len() == 0 {
        nonempty_lines(ls.drop_last())
    } else {
        nonempty_lines(ls.drop_last()).push(ls.last())
    }
}

/// The label names `gh issue view --json labels --jq '.labels[].name'` printed, one a line.
pub fn label_names(output: &str) -> (r: Vec<String>)
    ensures
        views(r@) == nonempty_lines(lines_of(output@)),
{
    let ov = chars_of(output);
    let ls = lines(&ov);
    let mut out: Vec<String> = Vec::new();
    let mut i: usize = 0;
    while i < ls.len()
        invariant
            i <= ls@.len(),
            ov@ == output@,
            ls@.len() == lines_of(ov@).len(),
            forall|k: int| 0 <= k < ls@.len() ==> (#[trigger] ls@[k])@ == lines_of(ov@)[k],
            views(out@) == nonempty_lines(lines_of(ov@).take(i as int)),
        decreases ls@.len() - i,
    {
        let ghost t = lines_of(ov@).take(i + 1);
        proof {
            assert(t.drop_last() =~= lines_of(ov@).take(i as int));
            assert(t.last() == ls@[i as int]@);
        }
        if ls[i].len() > 0 {
            let ghost before = views(out@);
            out.push(string_of(ls[i].as_slice()));
            assert(views(out@) =~= before.push(ls@[i as int]@));
        }
        i += 1;
    }
    assert(lines_of(ov@).take(i as int) =~= lines_of(ov@));
    out
}

/// The directory a feature's documents live in.
pub open spec fn feature_directory(issue_number: Seq<char>, slug: Seq<char>) -> Seq<char> {
    "specs/"@ + issue_number + "-"@ + slug
}

/// The directory a feature's documents live in: `specs/{issue_number}-{slug}`.
pub fn directory_of(issue_number: &str, slug: &str) -> (r: String)
    ensures
        r@ == feature_directory(issue_number@, slug@),
{
    let mut r = String::new();
    push_chars(&mut r, "specs/");
    push_chars(&mut r, issue_number);
    push_chars(&mut r, "-");
    push_chars(&mut r, slug);
    r
}

/// What `.specify/feature.json` holds to point the tooling at `directory`.
pub fn feature_json(directory: &str) -> (r: String)
    ensures
        r@ == "{\"feature_directory\": \""@ + directory@ + "\"}\n"@,
{
    let mut r = String::new();
    push_chars(&mut r, "{\"feature_directory\": \"");
    push_chars(&mut r, directory);
    push_chars(&mut r, "\"}\n");
    r
}

/// The message a file the deciding stage should have merged, and has not, produces.
pub fn not_merged(path: &str) -> (r: String)
    ensures
        r@ == "xtask: the deciding pull request is not merged: `"@ + path@
            + "` does not exist in origin/main"@,
{
    let mut r = String::new();
    push_chars(&mut r, "xtask: the deciding pull request is not merged: `");
    push_chars(&mut r, path);
    push_chars(&mut r, "` does not exist in origin/main");
    r
}

/// Whether the decision sheet at `path`, whose text is `sheet`, is answered: `Ok` when no line
/// still carries `_pending_`, otherwise the message quoting what is left.
pub fn sheet_answered(path: &str, sheet: &str) -> (r: Result<(), String>)
    ensures
        ({
            let p = spec_pending(lines_of(sheet@));
            &&& r is Ok <==> p.len() == 0
            &&& r matches Err(m) ==> m@ == "xtask: `"@ + path@ + "` is not answered: "@
                + spec_describe_pending(p)
                + ". The building stage runs against an answered sheet, so answer it on the deciding branch and merge that first."@
        }),
{
    let pending = pending_lines(sheet);
    if pending.len() == 0 {
        assert(pending@.map_values(|p: (usize, String)| (p.0 as int, p.1@)).len() == 0);
        return Ok(());
    }
    let mut m = String::new();
    push_chars(&mut m, "xtask: `");
    push_chars(&mut m, path);
    push_chars(&mut m, "` is not answered: ");
    let d = describe_pending(pending.as_slice());
    push_chars(&mut m, d.as_str());
    push_chars(
        &mut m,
        ". The building stage runs against an answered sheet, so answer it on the deciding branch and merge that first.",
    );
    Err(m)
}


/// Whether `c` may stand in a slug: a lowercase ASCII letter, a digit, or a hyphen.
pub open spec fn slug_char(c: char) -> bool {
    ('a' <= c && c <= 'z') || ('0' <= c && c <= '9') || c == '-'
}

/// Whether `s` reads as a slug: only lowercase letters, digits and hyphens, never two hyphens in a
/// row, and neither starting nor ending with one.
pub open spec fn slug_shaped(s: Seq<char>) -> bool {
    &&& forall|i: int| 0 <= i < s.len() ==> slug_char(#[trigger] s[i])
    &&& forall|i: int| 0 <= i < s.len() - 1 ==> !(#[trigger] s[i] == '-' && s[i + 1] == '-')
    &&& s.len() > 0 ==> s[0] != '-' && s[s.len() - 1] != '-'
}

/// A character a title keeps is a lowercase letter or a digit.
proof fn lemma_kept_is_slug_char(c: char)
    ensures
        spec_kept(c) matches Some(k) ==> slug_char(k) && k != '-',
{
    if spec_fold_accent(c) is None && 'A' <= c && c <= 'Z' {
        let k = ((c as u32) + 32) as char;
        assert(97 <= (c as u32) + 32 <= 122);
        assert('a' <= k && k <= 'z');
    }
}

/// A title folded so far reads as a slug.
proof fn lemma_fold_slug_shaped(title: Seq<char>)
    ensures
        slug_shaped(fold_slug(title).0),
    decreases title.len(),
{
    if title.len() > 0 {
        lemma_fold_slug_shaped(title.drop_last());
        lemma_kept_is_slug_char(title.last());
        let (slug, pending) = fold_slug(title.drop_last());
        let out = fold_slug(title).0;
        if let Some(c) = spec_kept(title.last()) {
            if pending && slug.len() > 0 {
                assert(out == slug.push('-').push(c));
                assert forall|i: int| 0 <= i < out.len() - 1 implies !(#[trigger] out[i] == '-' && out[i
                    + 1] == '-') by {
                    if i < slug.len() - 1 {
                        assert(out[i] == slug[i] && out[i + 1] == slug[i + 1]);
                    } else if i == slug.len() - 1 {
                        assert(out[i] == slug[slug.len() - 1]);
                    }
                }
                assert forall|i: int| 0 <= i < out.len() implies slug_char(#[trigger] out[i]) by {
                    if i < slug.len() {
                        assert(out[i] == slug[i]);
                    }
                }
            } else {
                assert(out == slug.push(c));
                assert forall|i: int| 0 <= i < out.len() - 1 implies !(#[trigger] out[i] == '-' && out[i
                    + 1] == '-') by {
                    if i < slug.len() - 1 {
                        assert(out[i] == slug[i] && out[i + 1] == slug[i + 1]);
                    }
                }
                assert forall|i: int| 0 <= i < out.len() implies slug_char(#[trigger] out[i]) by {
                    if i < slug.len() {
                        assert(out[i] == slug[i]);
                    }
                }
            }
        }
    }
}

/// `drop_trailing_hyphens` keeps a prefix of `s` that does not end with a hyphen.
proof fn lemma_drop_trailing_hyphens(s: Seq<char>)
    ensures
        drop_trailing_hyphens(s).len() <= s.len(),
        drop_trailing_hyphens(s) == s.take(drop_trailing_hyphens(s).len() as int),
        drop_trailing_hyphens(s).len() > 0 ==> drop_trailing_hyphens(s).last() != '-',
    decreases s.len(),
{
    if s.len() > 0 && s.last() == '-' {
        lemma_drop_trailing_hyphens(s.drop_last());
        let d = drop_trailing_hyphens(s.drop_last());
        assert(s.drop_last().take(d.len() as int) =~= s.take(d.len() as int));
    } else {
        assert(s.take(s.len() as int) =~= s);
    }
}

/// A prefix of a slug that does not end with a hyphen reads as a slug.
proof fn lemma_slug_prefix(s: Seq<char>, n: int)
    requires
        slug_shaped(s),
        0 <= n <= s.len(),
        n > 0 ==> s[n - 1] != '-',
    ensures
        slug_shaped(s.take(n)),
{
    let p = s.take(n);
    assert forall|i: int| 0 <= i < p.len() implies slug_char(#[trigger] p[i]) by {
        assert(p[i] == s[i]);
    }
    assert forall|i: int| 0 <= i < p.len() - 1 implies !(#[trigger] p[i] == '-' && p[i + 1] == '-') by {
        assert(p[i] == s[i] && p[i + 1] == s[i + 1]);
    }
}

/// Every slug a title gives holds at most forty characters, reads as a slug (lowercase letters,
/// digits and single hyphens only) and never ends with a hyphen.
pub proof fn law_slug_is_short_and_clean(title: Seq<char>)
    ensures
        spec_slug(title).len() <= 40,
        slug_shaped(spec_slug(title)),
{
    lemma_fold_slug_shaped(title);
    let s = fold_slug(title).0;
    if s.len() > 40 {
        let t = s.take(40);
        lemma_drop_trailing_hyphens(t);
        let d = drop_trailing_hyphens(t);
        assert(d == t.take(d.len() as int));
        assert(t.take(d.len() as int) =~= s.take(d.len() as int));
        if d.len() > 0 {
            assert(s[d.len() - 1] == d.last());
        }
        lemma_slug_prefix(s, d.len() as int);
    }
}

/// Whether `c` is one of the accented Latin-1 letters, in either case, and `plain` the ASCII
/// lowercase letter it is written with.
pub open spec fn accented_letter_of(c: char, plain: char) -> bool {
    ||| plain == 'a' && (c == 'á' || c == 'à' || c == 'ä' || c == 'â' || c == 'ã' || c == 'Á'
        || c == 'À' || c == 'Ä' || c == 'Â' || c == 'Ã')
    ||| plain == 'e' && (c == 'é' || c == 'è' || c == 'ë' || c == 'ê' || c == 'É' || c == 'È'
        || c == 'Ë' || c == 'Ê')
    ||| plain == 'i' && (c == 'í' || c == 'ì' || c == 'ï' || c == 'î' || c == 'Í' || c == 'Ì'
        || c == 'Ï' || c == 'Î')
    ||| plain == 'o' && (c == 'ó' || c == 'ò' || c == 'ö' || c == 'ô' || c == 'õ' || c == 'Ó'
        || c == 'Ò' || c == 'Ö' || c == 'Ô' || c == 'Õ')
    ||| plain == 'u' && (c == 'ú' || c == 'ù' || c == 'ü' || c == 'û' || c == 'Ú' || c == 'Ù'
        || c == 'Ü' || c == 'Û')
    ||| plain == 'n' && (c == 'ñ' || c == 'Ñ')
    ||| plain == 'c' && (c == 'ç' || c == 'Ç')
}

/// Folding a title changes nowhere where one character is replaced by another kept as the same.
proof fn lemma_fold_slug_same_kept(title: Seq<char>, i: int, c: char)
    requires
        0 <= i < title.len(),
        spec_kept(title[i]) == spec_kept(c),
    ensures
        fold_slug(title.update(i, c)) == fold_slug(title),
    decreases title.len(),
{
    let u = title.update(i, c);
    if i == title.len() - 1 {
        assert(u.drop_last() =~= title.drop_last());
    } else {
        assert(u.drop_last() =~= title.drop_last().update(i, c));
        lemma_fold_slug_same_kept(title.drop_last(), i, c);
        assert(u.last() == title.last());
    }
}

/// An accented letter counts in a slug as its plain letter: a title gives the same slug as the
/// title with that letter written without its accent, so "Descripción" and "Descripcion" slug
/// alike.
pub proof fn law_accented_letter_slugs_as_its_plain_letter(title: Seq<char>, i: int, plain: char)
    requires
        0 <= i < title.len(),
        accented_letter_of(title[i], plain),
    ensures
        spec_kept(title[i]) == Some(plain),
        spec_slug(title) == spec_slug(title.update(i, plain)),
{
    assert(spec_kept(title[i]) == Some(plain));
    assert(spec_kept(plain) == Some(plain));
    lemma_fold_slug_same_kept(title, i, plain);
}

} // verus!
