//! Line endings: which files Git reports as carrying CRLF the repository does not ask for, and the
//! rewrite of a file's bytes to LF.
use vstd::prelude::*;

use crate::strings::{copy_range, equals, has_prefix, split_chars, split_on, split_words, words};
use crate::text::{chars_of, push_chars, string_of};

verus! {

/// What `git ls-files --eol` reports about one file.
#[derive(Debug)]
pub struct Reported {
    /// The path relative to the workspace root, in Git's own spelling.
    pub relative: String,
    /// What Git found in the worktree copy.
    pub endings: String,
    /// Whether the attributes ask for CRLF, which is the one place it is the right answer.
    pub wants_crlf: bool,
}

/// Whether a worktree copy reported with `endings` carries CRLF that is not asked for.
pub open spec fn spec_needs_rewrite(endings: Seq<char>, wants_crlf: bool) -> bool {
    (endings == "crlf"@ || endings == "mixed"@) && !wants_crlf
}

/// Whether a worktree copy has to be rewritten to the endings this repository asks for: Git
/// reports `crlf` or `mixed`, and the attributes do not ask for CRLF.
pub fn needs_rewrite(endings: &str, wants_crlf: bool) -> (r: bool)
    ensures
        r == spec_needs_rewrite(endings@, wants_crlf),
{
    let e = chars_of(endings);
    (equals(&e, "crlf") || equals(&e, "mixed")) && !wants_crlf
}

/// The worktree endings a record's fields report: what follows `w/` in the last field that
/// starts with it, or nothing where none does.
pub open spec fn worktree_endings(fields: Seq<Seq<char>>) -> Seq<char>
    decreases fields.len(),
{
    if fields.len() == 0 {
        Seq::empty()
    } else if has_prefix(fields.last(), "w/"@) {
        fields.last().skip("w/"@.len() as int)
    } else {
        worktree_endings(fields.drop_last())
    }
}

/// Whether one of a record's fields is the attribute `eol=crlf`.
pub open spec fn asks_for_crlf(fields: Seq<Seq<char>>) -> bool {
    exists|i: int| 0 <= i < fields.len() && fields[i] == "eol=crlf"@
}

/// Where the first tab of `record` is, or its length where it has none.
pub open spec fn tab_index(record: Seq<char>) -> int
    decreases record.len(),
{
    if record.len() == 0 {
        0
    } else if record[0] == '\t' {
        0
    } else {
        1 + tab_index(record.drop_first())
    }
}

/// What a record with a tab reports: the path after the tab, the worktree endings and whether
/// CRLF is asked for, read from the fields before it.
pub open spec fn spec_reported(record: Seq<char>) -> (Seq<char>, Seq<char>, bool) {
    let i = tab_index(record);
    (
        record.skip(i + 1),
        worktree_endings(words(record.take(i))),
        asks_for_crlf(words(record.take(i))),
    )
}

/// A report as the path, the endings and whether CRLF is asked for.
pub open spec fn report_view(r: Reported) -> (Seq<char>, Seq<char>, bool) {
    (r.relative@, r.endings@, r.wants_crlf)
}

/// The message a record with no tab in it produces.
pub open spec fn no_path_message(record: Seq<char>) -> Seq<char> {
    "xtask: `git ls-files --eol` printed a record with no path in it: "@ + record
        + "\n\n    The fields and the path are separated by a tab, and this one has none."@
}

proof fn lemma_tab_index(record: Seq<char>, k: int)
    requires
        0 <= k <= record.len(),
        forall|j: int| 0 <= j < k ==> record[j] != '\t',
    ensures
        k < record.len() && record[k] == '\t' ==> tab_index(record) == k,
        k == record.len() ==> tab_index(record) == record.len(),
        0 <= tab_index(record) <= record.len(),
    decreases k,
{
    if record.len() > 0 && k > 0 {
        assert forall|j: int| 0 <= j < k - 1 implies record.drop_first()[j] != '\t' by {
            assert(record.drop_first()[j] == record[j + 1]);
        }
        lemma_tab_index(record.drop_first(), k - 1);
    } else if record.len() > 0 {
        lemma_tab_bounds(record);
    }
}

proof fn lemma_tab_bounds(record: Seq<char>)
    ensures
        0 <= tab_index(record) <= record.len(),
        tab_index(record) < record.len() ==> record[tab_index(record)] == '\t',
    decreases record.len(),
{
    if record.len() > 0 && record[0] != '\t' {
        lemma_tab_bounds(record.drop_first());
    }
}

/// Reads one record of `git ls-files -z --eol` output: space-padded fields, a tab, and the path.
/// The worktree field is found by its own prefix rather than by position.
pub fn parse(record: &str) -> (r: Result<Reported, String>)
    ensures
        r is Err <==> tab_index(record@) == record@.len(),
        r matches Err(m) ==> m@ == no_path_message(record@),
        r matches Ok(rep) ==> report_view(rep) == spec_reported(record@),
{
    let rv = chars_of(record);
    let mut tab: usize = 0;
    while tab < rv.len() && rv[tab] != '\t'
        invariant
            tab <= rv@.len(),
            forall|j: int| 0 <= j < tab ==> rv@[j] != '\t',
        decreases rv@.len() - tab,
    {
        tab += 1;
    }
    proof {
        lemma_tab_index(rv@, tab as int);
    }
    if tab == rv.len() {
        let mut m = String::new();
        push_chars(&mut m, "xtask: `git ls-files --eol` printed a record with no path in it: ");
        push_chars(&mut m, record);
        push_chars(
            &mut m,
            "\n\n    The fields and the path are separated by a tab, and this one has none.",
        );
        return Err(m);
    }
    let fields_chars = copy_range(&rv, 0, tab);
    let relative_chars = copy_range(&rv, tab + 1, rv.len());
    let fields = split_words(&fields_chars);
    let mut endings: Vec<char> = Vec::new();
    let mut wants_crlf = false;
    let mut k: usize = 0;
    while k < fields.len()
        invariant
            k <= fields@.len(),
            fields@.len() == words(fields_chars@).len(),
            forall|i: int| 0 <= i < fields@.len() ==> (#[trigger] fields@[i])@ == words(fields_chars@)[i],
            endings@ == worktree_endings(words(fields_chars@).take(k as int)),
            wants_crlf == asks_for_crlf(words(fields_chars@).take(k as int)),
        decreases fields@.len() - k,
    {
        let ghost ws = words(fields_chars@);
        let field = &fields[k];
        proof {
            assert(ws.take(k + 1).drop_last() =~= ws.take(k as int));
            assert(ws.take(k + 1).last() == ws[k as int]);
        }
        if crate::strings::begins_with(field, "w/") {
            let w = chars_of("w/");
            endings = copy_range(field, w.len(), field.len());
            assert(field@.subrange(w@.len() as int, field@.len() as int) =~= field@.skip(
                "w/"@.len() as int,
            ));
        } else if equals(field, "eol=crlf") {
            wants_crlf = true;
        }
        proof {
            let t = ws.take(k + 1);
            reveal_strlit("w/");
            reveal_strlit("eol=crlf");
            if field@ == "eol=crlf"@ {
                assert(t[k as int] == "eol=crlf"@);
                assert(field@.subrange(0, 2)[0] == 'e');
                assert(!has_prefix(field@, "w/"@));
            }
            if asks_for_crlf(t) && !asks_for_crlf(ws.take(k as int)) {
                let i = choose|i: int| 0 <= i < t.len() && t[i] == "eol=crlf"@;
                if i < k {
                    assert(ws.take(k as int)[i] == t[i]);
                }
            }
            if asks_for_crlf(ws.take(k as int)) {
                let i = choose|i: int| 0 <= i < k && ws.take(k as int)[i] == "eol=crlf"@;
                assert(t[i] == ws.take(k as int)[i]);
            }
        }
        k += 1;
    }
    assert(words(fields_chars@).take(k as int) =~= words(fields_chars@));
    assert(fields_chars@ =~= record@.take(tab as int));
    assert(relative_chars@ =~= record@.skip(tab + 1));
    let rep = Reported {
        relative: string_of(relative_chars.as_slice()),
        endings: string_of(endings.as_slice()),
        wants_crlf,
    };
    Ok(rep)
}

/// The pieces of `ps` that are not empty, in order.
pub open spec fn nonempty(ps: Seq<Seq<char>>) -> Seq<Seq<char>>
    decreases ps.len(),
{
    if ps.len() == 0 {
        Seq::empty()
    } else {
        let f = nonempty(ps.drop_last());
        if ps.last().len() > 0 {
            f.push(ps.last())
        } else {
            f
        }
    }
}

/// The records of NUL-separated `git ls-files -z --eol` output, the empty ones skipped.
pub open spec fn records_of(listing: Seq<char>) -> Seq<Seq<char>> {
    nonempty(split_on(listing, '\0'))
}

/// Whether every one of `records` has a tab in it.
pub open spec fn all_have_paths(records: Seq<Seq<char>>) -> bool {
    forall|i: int| 0 <= i < records.len() ==> tab_index(#[trigger] records[i]) < records[i].len()
}

/// What each of `records` that has to be rewritten reports, in order.
pub open spec fn rewrites(records: Seq<Seq<char>>) -> Seq<(Seq<char>, Seq<char>, bool)>
    decreases records.len(),
{
    if records.len() == 0 {
        Seq::empty()
    } else {
        let f = rewrites(records.drop_last());
        let r = spec_reported(records.last());
        if spec_needs_rewrite(r.1, r.2) {
            f.push(r)
        } else {
            f
        }
    }
}

/// Every file of `listing`, the NUL-separated output of `git ls-files -z --eol`, whose worktree
/// copy has to be rewritten, in order; or the message of the first record with no path in it.
pub fn to_rewrite(listing: &str) -> (r: Result<Vec<Reported>, String>)
    ensures
        r is Ok <==> all_have_paths(records_of(listing@)),
        r matches Ok(files) ==> files@.map_values(|f: Reported| report_view(f)) == rewrites(
            records_of(listing@),
        ),
        r matches Err(m) ==> exists|k: int|
            {
                &&& 0 <= k < records_of(listing@).len()
                &&& tab_index(records_of(listing@)[k]) == records_of(listing@)[k].len()
                &&& all_have_paths(records_of(listing@).take(k))
                &&& m@ == no_path_message(records_of(listing@)[k])
            },
{
    let lv = chars_of(listing);
    let pieces = split_chars(&lv, '\0');
    let ghost all = split_on(lv@, '\0');
    let mut out: Vec<Reported> = Vec::new();
    let mut k: usize = 0;
    while k < pieces.len()
        invariant
            k <= pieces@.len(),
            lv@ == listing@,
            all == split_on(lv@, '\0'),
            pieces@.len() == all.len(),
            forall|i: int| 0 <= i < pieces@.len() ==> (#[trigger] pieces@[i])@ == all[i],
            all_have_paths(nonempty(all.take(k as int))),
            out@.map_values(|f: Reported| report_view(f)) == rewrites(nonempty(all.take(k as int))),
        decreases pieces@.len() - k,
    {
        let ghost before = nonempty(all.take(k as int));
        proof {
            assert(all.take(k + 1).drop_last() =~= all.take(k as int));
            assert(all.take(k + 1).last() == all[k as int]);
        }
        let piece = &pieces[k];
        if piece.len() > 0 {
            let text = string_of(piece.as_slice());
            let ghost after = before.push(piece@);
            assert(after.drop_last() =~= before);
            match parse(text.as_str()) {
                Err(m) => {
                    proof {
                        lemma_nonempty_prefix(all, k as int);
                        let recs = records_of(listing@);
                        let idx = before.len() as int;
                        assert(recs == nonempty(all));
                        assert(recs[idx] == piece@);
                        assert(text@ == piece@);
                        assert(recs.take(idx) == before);
                        assert(tab_index(recs[idx]) == recs[idx].len());
                        assert(m@ == no_path_message(recs[idx]));
                    }
                    return Err(m);
                },
                Ok(rep) => {
                    let ghost old_out = out@.map_values(|f: Reported| report_view(f));
                    if needs_rewrite(rep.endings.as_str(), rep.wants_crlf) {
                        out.push(rep);
                        assert(out@.map_values(|f: Reported| report_view(f)) =~= old_out.push(
                            report_view(rep),
                        ));
                    }
                    proof {
                        assert(text@ == piece@);
                        lemma_tab_bounds(text@);
                        assert(tab_index(after[before.len() as int]) < after[before.len() as int].len());
                        assert forall|i: int| 0 <= i < after.len() implies tab_index(
                            #[trigger] after[i],
                        ) < after[i].len() by {
                            if i < before.len() {
                                assert(after[i] == before[i]);
                            }
                        }
                    }
                },
            }
        }
        k += 1;
    }
    assert(all.take(k as int) =~= all);
    Ok(out)
}

/// Where a non-empty piece `all[k]` lands among the non-empty pieces of all of `all`: right after
/// those of the pieces before it.
pub proof fn lemma_nonempty_prefix(all: Seq<Seq<char>>, k: int)
    requires
        0 <= k < all.len(),
        all[k].len() > 0,
    ensures
        nonempty(all).len() > nonempty(all.take(k)).len(),
        nonempty(all)[nonempty(all.take(k)).len() as int] == all[k],
        nonempty(all).take(nonempty(all.take(k)).len() as int) == nonempty(all.take(k)),
    decreases all.len() - k,
{
    if k == all.len() - 1 {
        assert(all.drop_last() =~= all.take(k));
        assert(nonempty(all).take(nonempty(all.take(k)).len() as int) =~= nonempty(all.take(k)));
    } else {
        let front = all.drop_last();
        assert(front.take(k) =~= all.take(k));
        lemma_nonempty_prefix(front, k);
        let n = nonempty(all.take(k)).len() as int;
        if all.last().len() > 0 {
            assert(nonempty(all).take(n) =~= nonempty(front).take(n));
        }
    }
}

/// Replaces every CRLF in `b` with a bare LF, answering the bytes and how many there were; a lone
/// CR is left where it is.
pub open spec fn spec_to_lf(b: Seq<u8>) -> (Seq<u8>, nat)
    decreases b.len(),
{
    if b.len() == 0 {
        (Seq::empty(), 0)
    } else if b.len() >= 2 && b[0] == 13 && b[1] == 10 {
        let r = spec_to_lf(b.skip(2));
        (seq![10u8] + r.0, r.1 + 1)
    } else {
        let r = spec_to_lf(b.skip(1));
        (seq![b[0]] + r.0, r.1)
    }
}

/// Replaces every CRLF with a bare LF, answering how many there were.
pub fn to_lf(bytes: &[u8]) -> (r: (Vec<u8>, usize))
    ensures
        r.0@ == spec_to_lf(bytes@).0,
        r.1 == spec_to_lf(bytes@).1,
{
    let mut fixed: Vec<u8> = Vec::new();
    let mut lines: usize = 0;
    let mut index: usize = 0;
    assert(bytes@.skip(0) =~= bytes@);
    while index < bytes.len()
        invariant
            index <= bytes@.len(),
            lines <= index,
            spec_to_lf(bytes@).0 == fixed@ + spec_to_lf(bytes@.skip(index as int)).0,
            spec_to_lf(bytes@).1 == lines + spec_to_lf(bytes@.skip(index as int)).1,
        decreases bytes@.len() - index,
    {
        let ghost rest = bytes@.skip(index as int);
        if index + 1 < bytes.len() && bytes[index] == 13 && bytes[index + 1] == 10 {
            assert(rest.skip(2) =~= bytes@.skip(index + 2));
            assert(fixed@.push(10u8) + spec_to_lf(rest.skip(2)).0 =~= fixed@ + (seq![10u8]
                + spec_to_lf(rest.skip(2)).0));
            fixed.push(10);
            index += 2;
            lines += 1;
        } else {
            assert(rest.skip(1) =~= bytes@.skip(index + 1));
            assert(fixed@.push(bytes@[index as int]) + spec_to_lf(rest.skip(1)).0 =~= fixed@ + (
            seq![rest[0]] + spec_to_lf(rest.skip(1)).0));
            fixed.push(bytes[index]);
            index += 1;
        }
    }
    assert(bytes@.skip(index as int) =~= Seq::<u8>::empty());
    assert(fixed@ + Seq::<u8>::empty() =~= fixed@);
    (fixed, lines)
}


/// Whether `b` holds a CR LF anywhere.
pub open spec fn holds_crlf(b: Seq<u8>) -> bool {
    exists|i: int| 0 <= i && i + 1 < b.len() && #[trigger] b[i] == 13 && b[i + 1] == 10
}

/// Whether `b` holds a CR directly before a CR LF anywhere.
pub open spec fn holds_cr_crlf(b: Seq<u8>) -> bool {
    exists|i: int| 0 <= i && i + 2 < b.len() && #[trigger] b[i] == 13 && b[i + 1] == 13 && b[i + 2] == 10
}

/// Bytes holding no CR LF come back unchanged, with nothing counted.
pub proof fn lemma_to_lf_without_crlf(b: Seq<u8>)
    requires
        !holds_crlf(b),
    ensures
        spec_to_lf(b) == (b, 0nat),
    decreases b.len(),
{
    if b.len() > 0 {
        assert(!(b.len() >= 2 && b[0] == 13 && b[1] == 10));
        let rest = b.skip(1);
        assert(!holds_crlf(rest)) by {
            if holds_crlf(rest) {
                let i = choose|i: int| 0 <= i && i + 1 < rest.len() && #[trigger] rest[i] == 13 && rest[i + 1] == 10;
                assert(b[i + 1] == 13 && b[i + 2] == 10);
            }
        }
        lemma_to_lf_without_crlf(rest);
        assert(seq![b[0]] + rest =~= b);
    }
}

/// The first byte of what `spec_to_lf` answers: an LF where `b` opens with a CR LF, else `b`'s own
/// first byte.
proof fn lemma_to_lf_first(b: Seq<u8>)
    requires
        b.len() > 0,
    ensures
        spec_to_lf(b).0.len() > 0,
        spec_to_lf(b).0[0] == (if b.len() >= 2 && b[0] == 13 && b[1] == 10 {
            10u8
        } else {
            b[0]
        }),
{
}

/// Where `b` holds no CR directly before a CR LF, what `spec_to_lf` answers holds no CR LF.
proof fn lemma_to_lf_leaves_no_crlf(b: Seq<u8>)
    requires
        !holds_cr_crlf(b),
    ensures
        !holds_crlf(spec_to_lf(b).0),
    decreases b.len(),
{
    if b.len() > 0 {
        let crlf = b.len() >= 2 && b[0] == 13 && b[1] == 10;
        let rest = if crlf {
            b.skip(2)
        } else {
            b.skip(1)
        };
        assert(!holds_cr_crlf(rest)) by {
            if holds_cr_crlf(rest) {
                let i = choose|i: int|
                    0 <= i && i + 2 < rest.len() && #[trigger] rest[i] == 13 && rest[i + 1] == 13 && rest[i + 2] == 10;
                if crlf {
                    assert(b[i + 2] == 13 && b[i + 3] == 13 && b[i + 4] == 10);
                } else {
                    assert(b[i + 1] == 13 && b[i + 2] == 13 && b[i + 3] == 10);
                }
            }
        }
        lemma_to_lf_leaves_no_crlf(rest);
        let r = spec_to_lf(rest).0;
        let out = spec_to_lf(b).0;
        if rest.len() > 0 {
            lemma_to_lf_first(rest);
        }
        assert(!holds_crlf(out)) by {
            if holds_crlf(out) {
                let i = choose|i: int| 0 <= i && i + 1 < out.len() && #[trigger] out[i] == 13 && out[i + 1] == 10;
                if i > 0 {
                    assert(r[i - 1] == 13 && r[i] == 10);
                } else {
                    assert(!crlf && b[0] == 13);
                    assert(rest.len() > 0);
                    if rest.len() >= 2 && rest[0] == 13 && rest[1] == 10 {
                        assert(b[0] == 13 && b[1] == 13 && b[2] == 10);
                    }
                }
            }
        }
    }
}

/// Rewriting the line endings a second time finds no work: the bytes come back unchanged and no
/// line is counted, for every input that holds no CR directly before a CR LF. (On such an input
/// the first run leaves a CR LF behind, which a second run rewrites.)
pub proof fn law_second_run_finds_no_work(b: Seq<u8>)
    requires
        !holds_cr_crlf(b),
    ensures
        spec_to_lf(spec_to_lf(b).0) == (spec_to_lf(b).0, 0nat),
{
    lemma_to_lf_leaves_no_crlf(b);
    lemma_to_lf_without_crlf(spec_to_lf(b).0);
}

} // verus!
