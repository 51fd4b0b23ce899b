//! Generated pictures in Markdown: the markers that carry a description and the fence its picture
//! sits in, read by a strict grammar, and the text a picture is written and reported as.
use vstd::prelude::*;

use crate::strings::{
    copy_range, decimal, join, lines, lines_of, push_decimal, push_vec, same_chars, split_chars,
    split_on, trim, trim_end, trim_start, trimmed, trimmed_end, trimmed_start,
};
use crate::text::{chars_of, push_chars, string_of};

verus! {

/// One marker: the description it carries, and where its picture sits in the file.
#[derive(Debug)]
pub struct Marker {
    /// One-based line of the `<!-- render:` that opened it.
    pub line: usize,
    /// The description, as the text between the marker and its `-->`.
    pub description: String,
    /// Index of the fence's opening line.
    pub fence_open: usize,
    /// Index of the fence's closing line.
    pub fence_close: usize,
}

/// A marker as its line, its description and the bounds of its fence.
pub type MarkerView = (int, Seq<char>, int, int);

/// A marker as its line, its description and the bounds of its fence.
pub open spec fn marker_view(m: Marker) -> MarkerView {
    (m.line as int, m.description@, m.fence_open as int, m.fence_close as int)
}

/// The line that opens a marker.
pub open spec fn open_mark() -> Seq<char> {
    seq!['<', '!', '-', '-', ' ', 'r', 'e', 'n', 'd', 'e', 'r', ':']
}

/// The line that closes the description.
pub open spec fn description_end() -> Seq<char> {
    seq!['-', '-', '>']
}

/// The line a picture's fence opens with.
pub open spec fn fence_mark() -> Seq<char> {
    seq!['`', '`', '`', 't', 'e', 'x', 't']
}

/// The line a picture's fence closes with.
pub open spec fn fence_end_mark() -> Seq<char> {
    seq!['`', '`', '`']
}

/// The line that closes a marker.
pub open spec fn close_mark() -> Seq<char> {
    seq!['<', '!', '-', '-', ' ', '/', 'r', 'e', 'n', 'd', 'e', 'r', ' ', '-', '-', '>']
}

/// How many backticks `s` opens with.
pub open spec fn backtick_run(s: Seq<char>) -> int
    decreases s.len(),
{
    if s.len() > 0 && s[0] == '`' {
        1 + backtick_run(s.drop_first())
    } else {
        0
    }
}

/// How many backticks open or close a fence on `line`, where it is a fence line at all: three or
/// more after its leading whitespace.
pub open spec fn spec_fence_width(line: Seq<char>) -> Option<int> {
    let n = backtick_run(trim_start(line));
    if n >= 3 {
        Some(n)
    } else {
        None
    }
}

proof fn lemma_backtick_run(s: Seq<char>, k: int)
    requires
        0 <= k <= s.len(),
        forall|j: int| 0 <= j < k ==> s[j] == '`',
        k == s.len() || s[k] != '`',
    ensures
        backtick_run(s) == k,
    decreases k,
{
    if k > 0 {
        assert forall|j: int| 0 <= j < k - 1 implies s.drop_first()[j] == '`' by {
            assert(s.drop_first()[j] == s[j + 1]);
        }
        if k < s.len() {
            assert(s.drop_first()[k - 1] == s[k]);
        }
        lemma_backtick_run(s.drop_first(), k - 1);
    }
}

/// How many backticks open or close a fence on this line, if it is a fence line at all.
pub fn fence_width(line: &str) -> (r: Option<usize>)
    ensures
        r is Some <==> spec_fence_width(line@) is Some,
        r matches Some(w) ==> w == spec_fence_width(line@)->0,
{
    fence_width_of(&chars_of(line))
}

/// How many backticks open or close a fence on `line`, if it is a fence line at all.
fn fence_width_of(line: &Vec<char>) -> (r: Option<usize>)
    ensures
        r is Some <==> spec_fence_width(line@) is Some,
        r matches Some(w) ==> w == spec_fence_width(line@)->0,
{
    let t = trimmed_start(line);
    let mut k: usize = 0;
    while k < t.len() && t[k] == '`'
        invariant
            k <= t@.len(),
            forall|j: int| 0 <= j < k ==> t@[j] == '`',
        decreases t@.len() - k,
    {
        k += 1;
    }
    proof {
        lemma_backtick_run(t@, k as int);
    }
    if k >= 3 {
        Some(k)
    } else {
        None
    }
}

/// Whether `line` closes a fence `width` backticks wide.
fn closes_fence(line: &Vec<char>, width: usize) -> (r: bool)
    ensures
        r == (spec_fence_width(line@) matches Some(v) && v >= width),
{
    match fence_width_of(line) {
        Some(w) => w >= width,
        None => false,
    }
}

/// The first line from `from` on that closes a fence `w` backticks wide, or the number of lines.
pub open spec fn fence_close_from(lines: Seq<Seq<char>>, from: int, w: int) -> int
    decreases lines.len() - from,
{
    if from >= lines.len() {
        lines.len() as int
    } else if spec_fence_width(lines[from]) matches Some(v) && v >= w {
        from
    } else {
        fence_close_from(lines, from + 1, w)
    }
}

/// The first line from `from` on whose trimmed text is `target`, or the number of lines.
pub open spec fn trimmed_from(lines: Seq<Seq<char>>, from: int, target: Seq<char>) -> int
    decreases lines.len() - from,
{
    if from >= lines.len() {
        lines.len() as int
    } else if trim(lines[from]) == target {
        from
    } else {
        trimmed_from(lines, from + 1, target)
    }
}

/// The first line from `from` on that is not blank, or the number of lines.
pub open spec fn nonblank_from(lines: Seq<Seq<char>>, from: int) -> int
    decreases lines.len() - from,
{
    if from >= lines.len() {
        lines.len() as int
    } else if trim(lines[from]).len() > 0 {
        from
    } else {
        nonblank_from(lines, from + 1)
    }
}

/// The message a malformed marker opened on line `line` produces.
pub open spec fn expected_message(relative: Seq<char>, line: int, what: Seq<char>) -> Seq<char> {
    "xtask: "@ + relative + ":"@ + decimal(line as nat) + ": the marker opened here needs "@ + what
        + ".\n\n    A generated picture is written as `<!-- render:`, the description, `-->`, the fence holding the picture, then `<!-- /render -->`."@
}

pub proof fn lemma_fence_close_bounds(lines: Seq<Seq<char>>, from: int, w: int)
    requires
        0 <= from,
    ensures
        from <= fence_close_from(lines, from, w) || from > lines.len(),
        fence_close_from(lines, from, w) <= lines.len(),
    decreases lines.len() - from,
{
    if from < lines.len() {
        lemma_fence_close_bounds(lines, from + 1, w);
    }
}

pub proof fn lemma_trimmed_bounds(lines: Seq<Seq<char>>, from: int, target: Seq<char>)
    requires
        0 <= from <= lines.len(),
    ensures
        from <= trimmed_from(lines, from, target) <= lines.len(),
        trimmed_from(lines, from, target) < lines.len() ==> trim(
            lines[trimmed_from(lines, from, target)],
        ) == target,
    decreases lines.len() - from,
{
    if from < lines.len() {
        lemma_trimmed_bounds(lines, from + 1, target);
    }
}

pub proof fn lemma_nonblank_bounds(lines: Seq<Seq<char>>, from: int)
    requires
        0 <= from <= lines.len(),
    ensures
        from <= nonblank_from(lines, from) <= lines.len(),
    decreases lines.len() - from,
{
    if from < lines.len() {
        lemma_nonblank_bounds(lines, from + 1);
    }
}

/// Every marker in `lines` from line `index` on, or the message of the first one not written the
/// way the grammar asks for. A fence skips everything up to the fence that closes it, so a marker
/// shown inside one is not read.
pub open spec fn scan(lines: Seq<Seq<char>>, relative: Seq<char>, index: int) -> Result<
    Seq<MarkerView>,
    Seq<char>,
>
    decreases lines.len() - index,
{
    if index < 0 || index >= lines.len() {
        Ok(Seq::empty())
    } else if spec_fence_width(lines[index]) is Some {
        let j = fence_close_from(lines, index + 1, spec_fence_width(lines[index])->0);
        proof {
            lemma_fence_close_bounds(lines, index + 1, spec_fence_width(lines[index])->0);
        }
        if j >= lines.len() {
            Ok(Seq::empty())
        } else {
            scan(lines, relative, j + 1)
        }
    } else if trim(lines[index]) != open_mark() {
        scan(lines, relative, index + 1)
    } else {
        let line = index + 1;
        let d = trimmed_from(lines, index + 1, description_end());
        proof {
            lemma_trimmed_bounds(lines, index + 1, description_end());
        }
        if d == lines.len() {
            Err(expected_message(relative, line, "a `-->` closing the description"@))
        } else {
            let description = join(lines.subrange(index + 1, d), "\n"@);
            let f = nonblank_from(lines, d + 1);
            proof {
                lemma_nonblank_bounds(lines, d + 1);
            }
            if f == lines.len() || trim(lines[f]) != fence_mark() {
                Err(expected_message(relative, line, "a ````text` fence"@))
            } else {
                let fc = trimmed_from(lines, f + 1, fence_end_mark());
                proof {
                    lemma_trimmed_bounds(lines, f + 1, fence_end_mark());
                }
                if fc == lines.len() {
                    Err(expected_message(relative, line, "a ``` closing the fence"@))
                } else {
                    let c = nonblank_from(lines, fc + 1);
                    proof {
                        lemma_nonblank_bounds(lines, fc + 1);
                    }
                    if c == lines.len() || trim(lines[c]) != close_mark() {
                        Err(
                            expected_message(
                                relative,
                                line,
                                "a `<!-- /render -->` closing the marker"@,
                            ),
                        )
                    } else {
                        match scan(lines, relative, c + 1) {
                            Ok(ms) => Ok(seq![(line, description, f, fc)] + ms),
                            Err(e) => Err(e),
                        }
                    }
                }
            }
        }
    }
}

/// `found` put in front of what a scan answers.
pub open spec fn after(
    found: Seq<MarkerView>,
    rest: Result<Seq<MarkerView>, Seq<char>>,
) -> Result<Seq<MarkerView>, Seq<char>> {
    match rest {
        Ok(ms) => Ok(found + ms),
        Err(e) => Err(e),
    }
}

/// The message a malformed marker produces.
pub fn expected(relative: &str, line: usize, what: &str) -> (r: String)
    ensures
        r@ == expected_message(relative@, line as int, what@),
{
    let mut m = String::new();
    push_chars(&mut m, "xtask: ");
    push_chars(&mut m, relative);
    push_chars(&mut m, ":");
    push_decimal(&mut m, line as u64);
    push_chars(&mut m, ": the marker opened here needs ");
    push_chars(&mut m, what);
    push_chars(
        &mut m,
        ".\n\n    A generated picture is written as `<!-- render:`, the description, `-->`, the fence holding the picture, then `<!-- /render -->`.",
    );
    m
}

/// The lines `lines` from `lo` up to `hi`, joined by newlines.
fn join_lines(lines: &Vec<Vec<char>>, lo: usize, hi: usize) -> (r: String)
    requires
        lo <= hi <= lines@.len(),
    ensures
        r@ == join(char_views(lines@).subrange(lo as int, hi as int), "\n"@),
{
    let ghost parts = char_views(lines@).subrange(lo as int, hi as int);
    let mut r = String::new();
    let mut i = lo;
    while i < hi
        invariant
            lo <= i <= hi <= lines@.len(),
            parts == char_views(lines@).subrange(lo as int, hi as int),
            r@ == join(parts.take(i - lo), "\n"@),
        decreases hi - i,
    {
        if i > lo {
            push_chars(&mut r, "\n");
        }
        push_vec(&mut r, &lines[i]);
        proof {
            let t = parts.take(i - lo + 1);
            assert(t.drop_last() =~= parts.take(i - lo));
            assert(t.last() == lines@[i as int]@);
            if i == lo {
                assert(r@ =~= join(t, "\n"@));
            } else {
                assert(r@ =~= join(t, "\n"@));
            }
        }
        i += 1;
    }
    assert(parts.take(hi - lo) =~= parts);
    r
}

/// The characters of each vector of `v`.
pub open spec fn char_views(v: Seq<Vec<char>>) -> Seq<Seq<char>> {
    v.map_values(|c: Vec<char>| c@)
}

/// The characters of each line of `v`.
pub open spec fn str_views(v: Seq<&str>) -> Seq<Seq<char>> {
    v.map_values(|s: &str| s@)
}

/// Finds every marker in `lines`, or names the first one that is not written the way the grammar
/// asks for.
pub fn parse(lines: &[&str], relative: &str) -> (r: Result<Vec<Marker>, String>)
    requires
        lines@.len() < usize::MAX - 1,
    ensures
        match (r, scan(str_views(lines@), relative@, 0)) {
            (Ok(ms), Ok(spec)) => ms@.map_values(|m: Marker| marker_view(m)) == spec,
            (Err(m), Err(e)) => m@ == e,
            _ => false,
        },
{
    let ghost ls = str_views(lines@);
    let mut lv: Vec<Vec<char>> = Vec::new();
    let mut tv: Vec<Vec<char>> = Vec::new();
    let mut k: usize = 0;
    while k < lines.len()
        invariant
            k <= lines@.len(),
            ls == str_views(lines@),
            lv@.len() == k,
            tv@.len() == k,
            forall|j: int| 0 <= j < k ==> (#[trigger] lv@[j])@ == ls[j],
            forall|j: int| 0 <= j < k ==> (#[trigger] tv@[j])@ == trim(ls[j]),
        decreases lines@.len() - k,
    {
        let c = chars_of(lines[k]);
        tv.push(trimmed(&c));
        lv.push(c);
        k += 1;
    }
    assert(char_views(lv@) =~= ls);
    let n = lines.len();
    let open = vec!['<', '!', '-', '-', ' ', 'r', 'e', 'n', 'd', 'e', 'r', ':'];
    let dend = vec!['-', '-', '>'];
    let fence = vec!['`', '`', '`', 't', 'e', 'x', 't'];
    let fend = vec!['`', '`', '`'];
    let close = vec!['<', '!', '-', '-', ' ', '/', 'r', 'e', 'n', 'd', 'e', 'r', ' ', '-', '-', '>'];
    assert(open@ =~= open_mark());
    assert(dend@ =~= description_end());
    assert(fence@ =~= fence_mark());
    assert(fend@ =~= fence_end_mark());
    assert(close@ =~= close_mark());
    let mut markers: Vec<Marker> = Vec::new();
    let mut index: usize = 0;
    while index < n
        invariant
            n == lines@.len(),
            n < usize::MAX - 1,
            ls == str_views(lines@),
            lv@.len() == n,
            tv@.len() == n,
            forall|j: int| 0 <= j < n ==> (#[trigger] lv@[j])@ == ls[j],
            forall|j: int| 0 <= j < n ==> (#[trigger] tv@[j])@ == trim(ls[j]),
            open@ == open_mark(),
            dend@ == description_end(),
            fence@ == fence_mark(),
            fend@ == fence_end_mark(),
            close@ == close_mark(),
            scan(ls, relative@, 0) == after(
                markers@.map_values(|m: Marker| marker_view(m)),
                scan(ls, relative@, index as int),
            ),
        decreases n + 1 - index,
    {
        let ghost here = scan(ls, relative@, index as int);
        match fence_width_of(&lv[index]) {
            Some(width) => {
                let mut j = index + 1;
                proof {
                    lemma_fence_close_bounds(ls, index + 1, width as int);
                }
                while j < n && !closes_fence(&lv[j], width)
                    invariant
                        index < j <= n,
                        n == lines@.len(),
                        lv@.len() == n,
                        forall|q: int| 0 <= q < n ==> (#[trigger] lv@[q])@ == ls[q],
                        fence_close_from(ls, index + 1, width as int) == fence_close_from(
                            ls,
                            j as int,
                            width as int,
                        ),
                    decreases n - j,
                {
                    j += 1;
                }
                proof {
                    assert(here == scan(ls, relative@, j + 1));
                }
                index = j + 1;
            },
            None => {
                if !same_chars(&tv[index], &open) {
                    index += 1;
                } else {
                    let line = index + 1;
                    let mut d = index + 1;
                    while d < n && !same_chars(&tv[d], &dend)
                        invariant
                            index < d <= n,
                            n == lines@.len(),
                            tv@.len() == n,
                            dend@ == description_end(),
                            forall|q: int| 0 <= q < n ==> (#[trigger] tv@[q])@ == trim(ls[q]),
                            trimmed_from(ls, index + 1, description_end()) == trimmed_from(
                                ls,
                                d as int,
                                description_end(),
                            ),
                        decreases n - d,
                    {
                        d += 1;
                    }
                    if d == n {
                        let m = expected(relative, line, "a `-->` closing the description");
                        return Err(m);
                    }
                    let description = join_lines(&lv, index + 1, d);
                    assert(char_views(lv@).subrange(index + 1, d as int) =~= ls.subrange(
                        index + 1,
                        d as int,
                    ));
                    let mut f = d + 1;
                    while f < n && tv[f].len() == 0
                        invariant
                            d < f <= n,
                            n == lines@.len(),
                            tv@.len() == n,
                            forall|q: int| 0 <= q < n ==> (#[trigger] tv@[q])@ == trim(ls[q]),
                            nonblank_from(ls, d + 1) == nonblank_from(ls, f as int),
                        decreases n - f,
                    {
                        f += 1;
                    }
                    if f == n || !same_chars(&tv[f], &fence) {
                        let m = expected(relative, line, "a ````text` fence");
                        return Err(m);
                    }
                    let mut fc = f + 1;
                    while fc < n && !same_chars(&tv[fc], &fend)
                        invariant
                            f < fc <= n,
                            n == lines@.len(),
                            tv@.len() == n,
                            fend@ == fence_end_mark(),
                            forall|q: int| 0 <= q < n ==> (#[trigger] tv@[q])@ == trim(ls[q]),
                            trimmed_from(ls, f + 1, fence_end_mark()) == trimmed_from(
                                ls,
                                fc as int,
                                fence_end_mark(),
                            ),
                        decreases n - fc,
                    {
                        fc += 1;
                    }
                    if fc == n {
                        let m = expected(relative, line, "a ``` closing the fence");
                        return Err(m);
                    }
                    let mut c = fc + 1;
                    while c < n && tv[c].len() == 0
                        invariant
                            fc < c <= n,
                            n == lines@.len(),
                            tv@.len() == n,
                            forall|q: int| 0 <= q < n ==> (#[trigger] tv@[q])@ == trim(ls[q]),
                            nonblank_from(ls, fc + 1) == nonblank_from(ls, c as int),
                        decreases n - c,
                    {
                        c += 1;
                    }
                    if c == n || !same_chars(&tv[c], &close) {
                        let m = expected(relative, line, "a `<!-- /render -->` closing the marker");
                        return Err(m);
                    }
                    let ghost before = markers@.map_values(|m: Marker| marker_view(m));
                    markers.push(Marker { line, description, fence_open: f, fence_close: fc });
                    proof {
                        let now = markers@.map_values(|m: Marker| marker_view(m));
                        assert(now =~= before.push(marker_view(markers@[before.len() as int])));
                        match scan(ls, relative@, c + 1) {
                            Ok(ms) => {
                                assert(before + (seq![marker_view(markers@[before.len() as int])]
                                    + ms) =~= now + ms);
                            },
                            Err(e) => {},
                        }
                    }
                    index = c + 1;
                }
            },
        }
    }
    proof {
        assert(scan(ls, relative@, index as int) == Ok::<Seq<MarkerView>, Seq<char>>(Seq::empty()));
        assert(markers@.map_values(|m: Marker| marker_view(m)) + Seq::<MarkerView>::empty()
            =~= markers@.map_values(|m: Marker| marker_view(m)));
    }
    Ok(markers)
}

/// `rendered` without its final newline, each of its lines without trailing whitespace.
pub open spec fn spec_trim_trailing_blanks(rendered: Seq<char>) -> Seq<char> {
    let body = if rendered.len() > 0 && rendered.last() == '\n' {
        rendered.drop_last()
    } else {
        rendered
    };
    join(split_on(body, '\n').map_values(|l: Seq<char>| trim_end(l)), "\n"@)
}

/// Drops each line's trailing blanks and the rendering's final newline.
pub fn trim_trailing_blanks(rendered: &str) -> (r: String)
    ensures
        r@ == spec_trim_trailing_blanks(rendered@),
{
    let rv = chars_of(rendered);
    let body = if rv.len() > 0 && rv[rv.len() - 1] == '\n' {
        let b = copy_range(&rv, 0, rv.len() - 1);
        assert(b@ =~= rv@.drop_last());
        b
    } else {
        let b = copy_range(&rv, 0, rv.len());
        assert(b@ =~= rv@);
        b
    };
    let parts = split_chars(&body, '\n');
    let ghost ps = split_on(body@, '\n').map_values(|l: Seq<char>| trim_end(l));
    let mut r = String::new();
    let mut i: usize = 0;
    while i < parts.len()
        invariant
            i <= parts@.len(),
            parts@.len() == split_on(body@, '\n').len(),
            forall|k: int| 0 <= k < parts@.len() ==> (#[trigger] parts@[k])@ == split_on(body@, '\n')[k],
            ps == split_on(body@, '\n').map_values(|l: Seq<char>| trim_end(l)),
            r@ == join(ps.take(i as int), "\n"@),
        decreases parts@.len() - i,
    {
        if i > 0 {
            push_chars(&mut r, "\n");
        }
        let t = trimmed_end(&parts[i]);
        push_vec(&mut r, &t);
        proof {
            let tk = ps.take(i + 1);
            assert(tk.drop_last() =~= ps.take(i as int));
            assert(tk.last() == trim_end(parts@[i as int]@));
            if i == 0 {
                assert(r@ =~= join(tk, "\n"@));
            } else {
                assert(r@ =~= join(tk, "\n"@));
            }
        }
        i += 1;
    }
    assert(ps.take(i as int) =~= ps);
    r
}

/// A picture indented by four spaces, line by line.
pub open spec fn spec_indent(picture: Seq<char>) -> Seq<char> {
    join(lines_of(picture).map_values(|l: Seq<char>| "    "@ + l), "\n"@)
}

/// Indents a picture by four spaces so it reads as a block inside a message.
pub fn indent(picture: &str) -> (r: String)
    ensures
        r@ == spec_indent(picture@),
{
    let pv = chars_of(picture);
    let ls = lines(&pv);
    let ghost ps = lines_of(picture@).map_values(|l: Seq<char>| "    "@ + l);
    let mut r = String::new();
    let mut i: usize = 0;
    while i < ls.len()
        invariant
            i <= ls@.len(),
            pv@ == picture@,
            ls@.len() == lines_of(pv@).len(),
            forall|k: int| 0 <= k < ls@.len() ==> (#[trigger] ls@[k])@ == lines_of(pv@)[k],
            ps == lines_of(picture@).map_values(|l: Seq<char>| "    "@ + l),
            r@ == join(ps.take(i as int), "\n"@),
        decreases ls@.len() - i,
    {
        if i > 0 {
            push_chars(&mut r, "\n");
        }
        push_chars(&mut r, "    ");
        push_vec(&mut r, &ls[i]);
        proof {
            let tk = ps.take(i + 1);
            assert(tk.drop_last() =~= ps.take(i as int));
            assert(tk.last() == "    "@ + ls@[i as int]@);
            if i == 0 {
                assert(r@ =~= join(tk, "\n"@));
            } else {
                assert(r@ =~= join(tk, "\n"@));
            }
        }
        i += 1;
    }
    assert(ps.take(i as int) =~= ps);
    r
}

/// The message a stale picture produces: where it is, what the file holds, and what the
/// description renders.
pub fn report(relative: &str, line: usize, current: &str, wanted: &str) -> (r: String)
    ensures
        r@ == "\n"@ + relative@ + ":"@ + decimal(line as nat)
            + ": the picture is not what its description renders.\n\n  in the file:\n"@
            + spec_indent(current@) + "\n\n  from the description:\n"@ + spec_indent(wanted@),
{
    let mut r = String::new();
    push_chars(&mut r, "\n");
    push_chars(&mut r, relative);
    push_chars(&mut r, ":");
    push_decimal(&mut r, line as u64);
    push_chars(&mut r, ": the picture is not what its description renders.\n\n  in the file:\n");
    let c = indent(current);
    push_chars(&mut r, c.as_str());
    push_chars(&mut r, "\n\n  from the description:\n");
    let w = indent(wanted);
    push_chars(&mut r, w.as_str());
    r
}

/// The first of `ms`, from position `k` on, whose fence opens at line `index`.
pub open spec fn marker_from(ms: Seq<MarkerView>, index: int, k: int) -> Option<int>
    decreases ms.len() - k,
{
    if k < 0 || k >= ms.len() {
        None
    } else if ms[k].2 == index {
        Some(k)
    } else {
        marker_from(ms, index, k + 1)
    }
}

/// The first of `wanted`, from position `k` on, keyed by the fence that opens at line `index`.
pub open spec fn wanted_from(wanted: Seq<(int, Seq<char>)>, index: int, k: int) -> Option<int>
    decreases wanted.len() - k,
{
    if k < 0 || k >= wanted.len() {
        None
    } else if wanted[k].0 == index {
        Some(k)
    } else {
        wanted_from(wanted, index, k + 1)
    }
}

/// Whether every marker's fence opens before it closes, and closes within `lines` lines.
pub open spec fn fences_within(ms: Seq<MarkerView>, lines: int) -> bool {
    forall|k: int| 0 <= k < ms.len() ==> #[trigger] ms[k].2 < ms[k].3 <= lines
}

/// The lines of a file from line `index` on, once each marker's picture has been replaced by the
/// one `wanted` holds for its fence, where it holds one.
pub open spec fn rewrite_from(
    lines: Seq<Seq<char>>,
    ms: Seq<MarkerView>,
    wanted: Seq<(int, Seq<char>)>,
    index: int,
) -> Seq<Seq<char>>
    decreases lines.len() - index,
{
    if index < 0 || index >= lines.len() {
        Seq::empty()
    } else {
        match marker_from(ms, index, 0) {
            None => seq![lines[index]] + rewrite_from(lines, ms, wanted, index + 1),
            Some(k) => {
                let body = match wanted_from(wanted, index, 0) {
                    Some(j) => split_on(wanted[j].1, '\n'),
                    None => lines.subrange(ms[k].2 + 1, ms[k].3),
                };
                if index < ms[k].3 <= lines.len() {
                    seq![lines[index]] + body + rewrite_from(lines, ms, wanted, ms[k].3)
                } else {
                    seq![lines[index]] + body
                }
            },
        }
    }
}

/// The new pictures as plain values: the line its fence opens on, and the picture.
pub open spec fn wanted_views(wanted: Seq<(usize, String)>) -> Seq<(int, Seq<char>)> {
    wanted.map_values(|p: (usize, String)| (p.0 as int, p.1@))
}

/// The text a file is written back as: its lines, with each marker's picture replaced by the one
/// `wanted` holds for the fence that opens on its line, joined by newlines.
pub fn rewritten(lines: &[&str], markers: &[Marker], wanted: &[(usize, String)]) -> (r: String)
    requires
        fences_within(markers@.map_values(|m: Marker| marker_view(m)), lines@.len() as int),
    ensures
        r@ == join(
            rewrite_from(
                str_views(lines@),
                markers@.map_values(|m: Marker| marker_view(m)),
                wanted_views(wanted@),
                0,
            ),
            "\n"@,
        ),
{
    let ghost ls = str_views(lines@);
    let ghost ms = markers@.map_values(|m: Marker| marker_view(m));
    let ghost wv = wanted_views(wanted@);
    let mut out: Vec<Vec<char>> = Vec::new();
    let mut index: usize = 0;
    while index < lines.len()
        invariant
            index <= lines@.len(),
            ls == str_views(lines@),
            ms == markers@.map_values(|m: Marker| marker_view(m)),
            wv == wanted_views(wanted@),
            fences_within(ms, lines@.len() as int),
            char_views(out@) + rewrite_from(ls, ms, wv, index as int) == rewrite_from(
                ls,
                ms,
                wv,
                0,
            ),
        decreases lines@.len() - index,
    {
        let ghost before = char_views(out@);
        let line = chars_of(lines[index]);
        out.push(line);
        assert(char_views(out@) =~= before.push(ls[index as int]));
        let mut k: usize = 0;
        while k < markers.len() && markers[k].fence_open != index
            invariant
                k <= markers@.len(),
                ms == markers@.map_values(|m: Marker| marker_view(m)),
                marker_from(ms, index as int, 0) == marker_from(ms, index as int, k as int),
            decreases markers@.len() - k,
        {
            assert(ms[k as int] == marker_view(markers@[k as int]));
            k += 1;
        }
        let found: Option<usize> = if k < markers.len() {
            assert(ms[k as int] == marker_view(markers@[k as int]));
            Some(k)
        } else {
            None
        };
        match found {
            None => {
                assert(marker_from(ms, index as int, 0) is None);
                assert(char_views(out@) + rewrite_from(ls, ms, wv, index + 1) =~= before
                    + rewrite_from(ls, ms, wv, index as int));
                index += 1;
            },
            Some(f) => {
                let open = markers[f].fence_open;
                let close = markers[f].fence_close;
                assert(ms[f as int] == marker_view(markers@[f as int]));
                assert(ms[f as int].2 < ms[f as int].3 <= lines@.len());
                let ghost mid = char_views(out@);
                let mut j: usize = 0;
                while j < wanted.len() && wanted[j].0 != index
                    invariant
                        j <= wanted@.len(),
                        wv == wanted_views(wanted@),
                        wanted_from(wv, index as int, 0) == wanted_from(wv, index as int, j as int),
                    decreases wanted@.len() - j,
                {
                    assert(wv[j as int] == (wanted@[j as int].0 as int, wanted@[j as int].1@));
                    j += 1;
                }
                let picked: Option<usize> = if j < wanted.len() {
                    assert(wv[j as int] == (wanted@[j as int].0 as int, wanted@[j as int].1@));
                    Some(j)
                } else {
                    None
                };
                let ghost body = match wanted_from(wv, index as int, 0) {
                    Some(p) => split_on(wv[p].1, '\n'),
                    None => ls.subrange(open + 1, close as int),
                };
                match picked {
                    Some(p) => {
                        let pv = chars_of(wanted[p].1.as_str());
                        let parts = split_chars(&pv, '\n');
                        let mut q: usize = 0;
                        while q < parts.len()
                            invariant
                                q <= parts@.len(),
                                parts@.len() == split_on(pv@, '\n').len(),
                                forall|i: int|
                                    0 <= i < parts@.len() ==> (#[trigger] parts@[i])@
                                        == split_on(pv@, '\n')[i],
                                char_views(out@) == mid + split_on(pv@, '\n').take(q as int),
                            decreases parts@.len() - q,
                        {
                            let ghost b = char_views(out@);
                            let piece = copy_range(&parts[q], 0, parts[q].len());
                            assert(piece@ =~= split_on(pv@, '\n')[q as int]);
                            out.push(piece);
                            assert(char_views(out@) =~= b.push(piece@));
                            assert(char_views(out@) =~= mid + split_on(pv@, '\n').take(q + 1));
                            q += 1;
                        }
                        assert(split_on(pv@, '\n').take(q as int) =~= split_on(pv@, '\n'));
                        assert(pv@ == wv[p as int].1);
                    },
                    None => {
                        let mut q: usize = open + 1;
                        while q < close
                            invariant
                                open + 1 <= q <= close <= lines@.len(),
                                ls == str_views(lines@),
                                char_views(out@) == mid + ls.subrange(open + 1, q as int),
                            decreases close - q,
                        {
                            let ghost b = char_views(out@);
                            let piece = chars_of(lines[q]);
                            assert(piece@ == ls[q as int]);
                            out.push(piece);
                            assert(char_views(out@) =~= b.push(piece@));
                            assert(char_views(out@) =~= mid + ls.subrange(open + 1, q + 1));
                            q += 1;
                        }
                    },
                }
                assert(char_views(out@) == mid + body);
                assert(char_views(out@) + rewrite_from(ls, ms, wv, close as int) =~= before
                    + rewrite_from(ls, ms, wv, index as int));
                index = close;
            },
        }
    }
    let ghost done = char_views(out@);
    assert(rewrite_from(ls, ms, wv, index as int) =~= Seq::<Seq<char>>::empty());
    assert(done =~= rewrite_from(ls, ms, wv, 0));
    let r = join_lines(&out, 0, out.len());
    assert(char_views(out@).subrange(0, out@.len() as int) =~= done);
    r
}

/// Every marker that a file's scan finds has a fence that opens before it closes and closes
/// within the file, so whatever `parse` returns can be handed to `rewritten`.
pub proof fn law_parsed_markers_can_be_rewritten(
    lines: Seq<Seq<char>>,
    relative: Seq<char>,
    index: int,
)
    requires
        0 <= index,
    ensures
        scan(lines, relative, index) matches Ok(ms) ==> fences_within(ms, lines.len() as int),
    decreases lines.len() - index,
{
    if index < lines.len() {
        if spec_fence_width(lines[index]) is Some {
            let j = fence_close_from(lines, index + 1, spec_fence_width(lines[index])->0);
            lemma_fence_close_bounds(lines, index + 1, spec_fence_width(lines[index])->0);
            if j < lines.len() {
                law_parsed_markers_can_be_rewritten(lines, relative, j + 1);
            }
        } else if trim(lines[index]) != open_mark() {
            law_parsed_markers_can_be_rewritten(lines, relative, index + 1);
        } else {
            let d = trimmed_from(lines, index + 1, description_end());
            lemma_trimmed_bounds(lines, index + 1, description_end());
            if d < lines.len() {
                let f = nonblank_from(lines, d + 1);
                lemma_nonblank_bounds(lines, d + 1);
                if f < lines.len() && trim(lines[f]) == fence_mark() {
                    let fc = trimmed_from(lines, f + 1, fence_end_mark());
                    lemma_trimmed_bounds(lines, f + 1, fence_end_mark());
                    if fc < lines.len() {
                        let c = nonblank_from(lines, fc + 1);
                        lemma_nonblank_bounds(lines, fc + 1);
                        if c < lines.len() && trim(lines[c]) == close_mark() {
                            law_parsed_markers_can_be_rewritten(lines, relative, c + 1);
                            if let Ok(rest) = scan(lines, relative, c + 1) {
                                let ms = scan(lines, relative, index)->Ok_0;
                                assert forall|k: int| 0 <= k < ms.len() implies #[trigger] ms[k].2
                                    < ms[k].3 <= lines.len() by {
                                    if k > 0 {
                                        assert(ms[k] == rest[k - 1]);
                                    }
                                }
                            }
                        }
                    }
                }
            }
        }
    }
}


/// The picture a marker's fence holds now: the lines strictly between its opening and closing
/// lines, joined by newlines.
pub fn current_picture(lines: &[&str], marker: &Marker) -> (r: String)
    requires
        marker.fence_open < marker.fence_close <= lines@.len(),
    ensures
        r@ == join(
            str_views(lines@).subrange(marker.fence_open + 1, marker.fence_close as int),
            "\n"@,
        ),
{
    let mut v: Vec<Vec<char>> = Vec::new();
    let mut k: usize = 0;
    while k < lines.len()
        invariant
            k <= lines@.len(),
            v@.len() == k,
            forall|i: int| 0 <= i < k ==> (#[trigger] v@[i])@ == lines@[i]@,
        decreases lines@.len() - k,
    {
        v.push(chars_of(lines[k]));
        k += 1;
    }
    assert(char_views(v@) =~= str_views(lines@));
    join_lines(&v, marker.fence_open + 1, marker.fence_close)
}

/// What a run over every marked file answers, given the reports of the stale pictures it found:
/// a failure quoting them all when there are any; otherwise, when checking, that every picture
/// matches; when rewriting and nothing was rewritten, that every picture was already up to date;
/// and nothing to say when pictures were rewritten, each file having said so itself.
pub open spec fn spec_summary(
    stale: Seq<Seq<char>>,
    markers: nat,
    checking: bool,
    rewritten: nat,
) -> Result<Option<Seq<char>>, Seq<char>> {
    if stale.len() > 0 {
        Err(join(stale, "\n"@) + "\n"@ + decimal(stale.len()) + " of "@ + decimal(markers)
            + " picture(s) have parted from the description beside them. Run `cargo xtask render`."@)
    } else if checking {
        Ok(Some(decimal(markers) + " generated picture(s) match their descriptions"@))
    } else if rewritten == 0 {
        Ok(Some(decimal(markers) + " generated picture(s) were already up to date"@))
    } else {
        Ok(None)
    }
}

/// What a run over every marked file answers; see `spec_summary`.
pub fn summary(stale: &[String], markers: usize, checking: bool, rewritten: usize) -> (r: Result<
    Option<String>,
    String,
>)
    ensures
        match (r, spec_summary(
            stale@.map_values(|s: String| s@),
            markers as nat,
            checking,
            rewritten as nat,
        )) {
            (Ok(None), Ok(None)) => true,
            (Ok(Some(m)), Ok(Some(s))) => m@ == s,
            (Err(m), Err(s)) => m@ == s,
            _ => false,
        },
{
    if stale.len() > 0 {
        let ghost parts = stale@.map_values(|s: String| s@);
        let mut m = String::new();
        let mut i: usize = 0;
        while i < stale.len()
            invariant
                i <= stale@.len(),
                parts == stale@.map_values(|s: String| s@),
                m@ == join(parts.take(i as int), "\n"@),
            decreases stale@.len() - i,
        {
            if i > 0 {
                push_chars(&mut m, "\n");
            }
            push_chars(&mut m, stale[i].as_str());
            proof {
                let t = parts.take(i + 1);
                assert(t.drop_last() =~= parts.take(i as int));
                assert(t.last() == stale@[i as int]@);
                if i == 0 {
                    assert(m@ =~= join(t, "\n"@));
                } else {
                    assert(m@ =~= join(t, "\n"@));
                }
            }
            i += 1;
        }
        assert(parts.take(i as int) =~= parts);
        push_chars(&mut m, "\n");
        push_decimal(&mut m, stale.len() as u64);
        push_chars(&mut m, " of ");
        push_decimal(&mut m, markers as u64);
        push_chars(
            &mut m,
            " picture(s) have parted from the description beside them. Run `cargo xtask render`.",
        );
        return Err(m);
    }
    if checking {
        let mut m = String::new();
        push_decimal(&mut m, markers as u64);
        push_chars(&mut m, " generated picture(s) match their descriptions");
        return Ok(Some(m));
    }
    if rewritten == 0 {
        let mut m = String::new();
        push_decimal(&mut m, markers as u64);
        push_chars(&mut m, " generated picture(s) were already up to date");
        return Ok(Some(m));
    }
    Ok(None)
}


/// What a run does with one marker's picture once it knows what the fence holds and what the
/// description renders.
#[derive(Debug, Clone, Copy, PartialEq, Eq, Structural)]
pub enum PictureAction {
    /// The fence already holds the picture.
    Keep,
    /// The picture is stale and the run only checks: report it.
    Report,
    /// The picture is stale and the run rewrites: queue the new picture.
    Rewrite,
}

/// What a run does with a marker whose fence holds `current` and whose description renders
/// `picture`: nothing where the two agree; otherwise report it when checking, else rewrite it.
pub fn picture_action(checking: bool, current: &str, picture: &str) -> (r: PictureAction)
    ensures
        current@ == picture@ ==> r == PictureAction::Keep,
        current@ != picture@ && checking ==> r == PictureAction::Report,
        current@ != picture@ && !checking ==> r == PictureAction::Rewrite,
{
    if same_chars(&chars_of(current), &chars_of(picture)) {
        PictureAction::Keep
    } else if checking {
        PictureAction::Report
    } else {
        PictureAction::Rewrite
    }
}

} // verus!
