//! Numbered entries: the number a decision record or a feature directory claims by its leading
//! digits, and the numbers more than one entry claims.
use vstd::prelude::*;

use crate::strings::{
    begins_with, chars_less, copy_range, decimal, has_prefix, join, lemma_seq_less_irreflexive,
    lemma_seq_less_total, lines, lines_of, push_decimal, push_vec, same_chars, seq_less,
    split_chars, split_on,
};
use crate::text::{char_is_digit, chars_of, is_digit, push_chars, string_of};

verus! {

/// The trees whose entries are named after a number, each with what a repetition there needs.
pub fn numbered() -> (r: [(&'static str, &'static str); 2])
    ensures
        r@[0].0@ == "docs/decisions"@,
        r@[0].1@ == "Rename one of them, and add its row to the index in docs/decisions/README.md."@,
        r@[1].0@ == "specs"@,
        r@[1].1@
            == "`cargo xtask spec new` derives this name from the issue, so a second entry under one number was not made by it. Remove the one that should not be there, or rename it."@,
{
    [
        (
            "docs/decisions",
            "Rename one of them, and add its row to the index in docs/decisions/README.md.",
        ),
        (
            "specs",
            "`cargo xtask spec new` derives this name from the issue, so a second entry under one number was not made by it. Remove the one that should not be there, or rename it.",
        ),
    ]
}

/// How many decimal digits `s` opens with.
pub open spec fn digit_run(s: Seq<char>) -> int
    decreases s.len(),
{
    if s.len() > 0 && is_digit(s[0]) {
        1 + digit_run(s.drop_first())
    } else {
        0
    }
}

proof fn lemma_digit_run(s: Seq<char>, k: int)
    requires
        0 <= k <= s.len(),
        forall|j: int| 0 <= j < k ==> is_digit(s[j]),
        k == s.len() || !is_digit(s[k]),
    ensures
        digit_run(s) == k,
    decreases k,
{
    if k > 0 {
        assert forall|j: int| 0 <= j < k - 1 implies is_digit(s.drop_first()[j]) by {
            assert(s.drop_first()[j] == s[j + 1]);
        }
        if k < s.len() {
            assert(s.drop_first()[k - 1] == s[k]);
        }
        lemma_digit_run(s.drop_first(), k - 1);
    }
}

/// The digits `entry` opens with, where it opens with any.
pub open spec fn spec_number_of(entry: Seq<char>) -> Option<Seq<char>> {
    if digit_run(entry) > 0 {
        Some(entry.take(digit_run(entry)))
    } else {
        None
    }
}

/// The digits `entry` opens with, or `None` when it opens with anything else. A name that is
/// nothing but digits claims all of itself.
pub fn number_of(entry: &str) -> (r: Option<String>)
    ensures
        r is Some <==> spec_number_of(entry@) is Some,
        r matches Some(n) ==> n@ == spec_number_of(entry@)->0,
{
    let ev = chars_of(entry);
    let mut end: usize = 0;
    while end < ev.len() && char_is_digit(ev[end])
        invariant
            end <= ev@.len(),
            forall|j: int| 0 <= j < end ==> is_digit(ev@[j]),
        decreases ev@.len() - end,
    {
        end += 1;
    }
    proof {
        lemma_digit_run(ev@, end as int);
    }
    if end > 0 {
        let d = copy_range(&ev, 0, end);
        assert(ev@.subrange(0, end as int) =~= ev@.take(end as int));
        Some(string_of(d.as_slice()))
    } else {
        None
    }
}

/// How many `0`s `s` opens with.
pub open spec fn zero_run(s: Seq<char>) -> int
    decreases s.len(),
{
    if s.len() > 0 && s[0] == '0' {
        1 + zero_run(s.drop_first())
    } else {
        0
    }
}

proof fn lemma_zero_run(s: Seq<char>, k: int)
    requires
        0 <= k <= s.len(),
        forall|j: int| 0 <= j < k ==> s[j] == '0',
        k == s.len() || s[k] != '0',
    ensures
        zero_run(s) == k,
    decreases k,
{
    if k > 0 {
        assert forall|j: int| 0 <= j < k - 1 implies s.drop_first()[j] == '0' by {
            assert(s.drop_first()[j] == s[j + 1]);
        }
        if k < s.len() {
            assert(s.drop_first()[k - 1] == s[k]);
        }
        lemma_zero_run(s.drop_first(), k - 1);
    }
}

/// The number two spellings of it agree on: the digits with their leading zeros taken off, and a
/// run of nothing but zeros read as `0`.
pub open spec fn spec_padded_out(number: Seq<char>) -> Seq<char> {
    if zero_run(number) == number.len() {
        seq!['0']
    } else {
        number.skip(zero_run(number))
    }
}

/// The number that two spellings of it agree on: the leading digits with the padding taken off.
pub fn padded_out(number: &str) -> (r: String)
    ensures
        r@ == spec_padded_out(number@),
{
    let nv = chars_of(number);
    let mut k: usize = 0;
    while k < nv.len() && nv[k] == '0'
        invariant
            k <= nv@.len(),
            forall|j: int| 0 <= j < k ==> nv@[j] == '0',
        decreases nv@.len() - k,
    {
        k += 1;
    }
    proof {
        lemma_zero_run(nv@, k as int);
    }
    if k == nv.len() {
        let mut r = String::new();
        crate::text::push_char(&mut r, '0');
        assert(r@ =~= seq!['0']);
        r
    } else {
        let rest = copy_range(&nv, k, nv.len());
        assert(rest@ =~= nv@.skip(k as int));
        string_of(rest.as_slice())
    }
}

/// The number `entry` claims: its leading digits with the padding taken off, where it has any.
pub open spec fn claim_of(entry: Seq<char>) -> Option<Seq<char>> {
    match spec_number_of(entry) {
        Some(n) => Some(spec_padded_out(n)),
        None => None,
    }
}

/// The number `entry` claims, where it claims one.
fn claim(entry: &str) -> (r: Option<Vec<char>>)
    ensures
        r is Some <==> claim_of(entry@) is Some,
        r matches Some(k) ==> k@ == claim_of(entry@)->0,
{
    match number_of(entry) {
        Some(n) => {
            let p = padded_out(n.as_str());
            Some(chars_of(p.as_str()))
        },
        None => None,
    }
}

/// Every one of `entries` claiming the number `k`, in order.
pub open spec fn claimants(entries: Seq<Seq<char>>, k: Seq<char>) -> Seq<Seq<char>>
    decreases entries.len(),
{
    if entries.len() == 0 {
        Seq::empty()
    } else {
        let c = claimants(entries.drop_last(), k);
        if claim_of(entries.last()) == Some(k) {
            c.push(entries.last())
        } else {
            c
        }
    }
}

/// One number claimed by more than one entry.
pub struct Clash {
    /// The number, without its padding.
    pub number: String,
    /// Every entry claiming it, in the order they were listed.
    pub claiming: Vec<String>,
}

/// The characters of each string of `v`.
pub open spec fn views(v: Seq<String>) -> Seq<Seq<char>> {
    v.map_values(|s: String| s@)
}

/// One comes before the next.
pub proof fn lemma_seq_less_transitive(a: Seq<char>, b: Seq<char>, c: Seq<char>)
    requires
        seq_less(a, b),
        seq_less(b, c),
    ensures
        seq_less(a, c),
    decreases a.len(),
{
    if a.len() > 0 && b.len() > 0 && c.len() > 0 && a[0] == b[0] && b[0] == c[0] {
        lemma_seq_less_transitive(a.drop_first(), b.drop_first(), c.drop_first());
    }
}

/// Whether the keys of `groups` come one before the next, every pair in order.
pub open spec fn keys_sorted(keys: Seq<Seq<char>>) -> bool {
    forall|i: int, j: int| 0 <= i < j < keys.len() ==> seq_less(keys[i], keys[j])
}

/// The numbers more than one of `entries` claims, in increasing order of their characters, each
/// with every entry claiming it in the order they were listed.
pub fn claimed_twice(entries: &[String]) -> (r: Vec<Clash>)
    ensures
        keys_sorted(r@.map_values(|c: Clash| c.number@)),
        forall|i: int|
            0 <= i < r@.len() ==> views((#[trigger] r@[i]).claiming@) == claimants(
                views(entries@),
                r@[i].number@,
            ) && r@[i].claiming@.len() > 1,
        forall|k: Seq<char>|
            #[trigger] claimants(views(entries@), k).len() > 1 ==> exists|i: int|
                0 <= i < r@.len() && r@[i].number@ == k,
{
    let ghost es = views(entries@);
    let mut keys: Vec<Vec<char>> = Vec::new();
    let mut members: Vec<Vec<String>> = Vec::new();
    let mut i: usize = 0;
    while i < entries.len()
        invariant
            i <= entries@.len(),
            es == views(entries@),
            keys@.len() == members@.len(),
            keys_sorted(keys@.map_values(|k: Vec<char>| k@)),
            forall|j: int|
                0 <= j < keys@.len() ==> views(#[trigger] members@[j]@) == claimants(
                    es.take(i as int),
                    keys@[j]@,
                ),
            forall|k: Seq<char>|
                #[trigger] claimants(es.take(i as int), k).len() > 0 ==> exists|j: int|
                    0 <= j < keys@.len() && keys@[j]@ == k,
        decreases entries@.len() - i,
    {
        let ghost t = es.take(i + 1);
        proof {
            assert(t.drop_last() =~= es.take(i as int));
            assert(t.last() == entries@[i as int]@);
        }
        let entry = &entries[i];
        match claim(entry.as_str()) {
            None => {
                proof {
                    assert forall|k: Seq<char>| #[trigger] claimants(t, k) == claimants(
                        es.take(i as int),
                        k,
                    ) by {}
                }
            },
            Some(k) => {
                let mut g: usize = 0;
                while g < keys.len() && !same_chars(&keys[g], &k)
                    invariant
                        g <= keys@.len(),
                        forall|j: int| 0 <= j < g ==> keys@[j]@ != k@,
                    decreases keys@.len() - g,
                {
                    g += 1;
                }
                if g < keys.len() {
                    let ghost old_members = members@;
                    let mut list = members.remove(g);
                    list.push(entry.clone());
                    members.insert(g, list);
                    proof {
                        assert(views(members@[g as int]@) =~= views(old_members[g as int]@).push(
                            entry@,
                        ));
                        assert forall|j: int|
                            0 <= j < keys@.len() implies views(#[trigger] members@[j]@)
                            == claimants(t, keys@[j]@) by {
                            if j != g {
                                assert(members@[j] == old_members[j]);
                                lemma_keys_distinct(keys@.map_values(|k: Vec<char>| k@), j, g as int);
                            }
                        }
                        assert forall|kk: Seq<char>|
                            #[trigger] claimants(t, kk).len() > 0 implies exists|j: int|
                                0 <= j < keys@.len() && keys@[j]@ == kk by {
                            if claimants(es.take(i as int), kk).len() == 0 {
                                assert(keys@[g as int]@ == kk);
                            }
                        }
                    }
                } else {
                    let ghost old_keys = keys@.map_values(|k: Vec<char>| k@);
                    proof {
                        assert forall|kk: Seq<char>|
                            #[trigger] claimants(es.take(i as int), kk).len() > 0 implies exists|j: int|
                                0 <= j < old_keys.len() && old_keys[j] == kk by {
                            let j = choose|j: int| 0 <= j < keys@.len() && keys@[j]@ == kk;
                            assert(old_keys[j] == kk);
                        }
                    }
                    let mut p: usize = 0;
                    while p < keys.len() && chars_less(&keys[p], &k)
                        invariant
                            p <= keys@.len(),
                            old_keys == keys@.map_values(|k: Vec<char>| k@),
                            forall|j: int| 0 <= j < p ==> seq_less(keys@[j]@, k@),
                        decreases keys@.len() - p,
                    {
                        p += 1;
                    }
                    let ghost old_members = members@;
                    proof {
                        if p < keys@.len() {
                            assert(old_keys[p as int] == keys@[p as int]@);
                            assert(keys@[p as int]@ != k@);
                            lemma_seq_less_total(keys@[p as int]@, k@);
                            assert(seq_less(k@, old_keys[p as int]));
                        }
                        assert forall|m: int| p <= m < old_keys.len() implies seq_less(
                            k@,
                            #[trigger] old_keys[m],
                        ) by {
                            if m > p {
                                lemma_seq_less_transitive(k@, old_keys[p as int], old_keys[m]);
                            }
                        }
                        assert forall|j: int| 0 <= j < p implies seq_less(#[trigger] old_keys[j], k@) by {
                            assert(old_keys[j] == keys@[j]@);
                        }
                    }
                    let ghost kv = k@;
                    keys.insert(p, k);
                    let mut list: Vec<String> = Vec::new();
                    list.push(entry.clone());
                    members.insert(p, list);
                    proof {
                        let nk = keys@.map_values(|k: Vec<char>| k@);
                        assert(nk =~= old_keys.insert(p as int, kv));
                        assert forall|a: int, b: int| 0 <= a < b < nk.len() implies seq_less(
                            nk[a],
                            nk[b],
                        ) by {
                            if a < p && b < p {
                                assert(nk[a] == old_keys[a] && nk[b] == old_keys[b]);
                            } else if a < p && b == p {
                                assert(nk[a] == old_keys[a]);
                            } else if a < p {
                                assert(nk[a] == old_keys[a] && nk[b] == old_keys[b - 1]);
                                assert(seq_less(kv, old_keys[b - 1]));
                                lemma_seq_less_transitive(old_keys[a], kv, old_keys[b - 1]);
                            } else if a == p {
                                assert(nk[b] == old_keys[b - 1]);
                                assert(seq_less(kv, old_keys[b - 1]));
                            } else {
                                assert(nk[a] == old_keys[a - 1] && nk[b] == old_keys[b - 1]);
                            }
                        }
                        assert(views(members@[p as int]@) =~= seq![entry@]);
                        assert(claimants(es.take(i as int), kv).len() == 0);
                        assert(claimants(es.take(i as int), kv) =~= Seq::<Seq<char>>::empty());
                        assert forall|j: int|
                            0 <= j < keys@.len() implies views(#[trigger] members@[j]@)
                            == claimants(t, keys@[j]@) by {
                            if j < p {
                                assert(members@[j] == old_members[j]);
                                assert(nk[j] != kv) by {
                                    lemma_seq_less_irreflexive(kv);
                                }
                            } else if j > p {
                                assert(members@[j] == old_members[j - 1]);
                                assert(nk[j] != kv) by {
                                    lemma_seq_less_irreflexive(kv);
                                }
                            }
                        }
                        assert forall|kk: Seq<char>|
                            #[trigger] claimants(t, kk).len() > 0 implies exists|j: int|
                                0 <= j < keys@.len() && keys@[j]@ == kk by {
                            if kk == kv {
                                assert(keys@[p as int]@ == kk);
                            } else {
                                assert(claimants(t, kk) == claimants(es.take(i as int), kk));
                                let j = choose|j: int| 0 <= j < old_keys.len() && old_keys[j] == kk;
                                if j < p {
                                    assert(keys@[j]@ == kk);
                                } else {
                                    assert(keys@[j + 1]@ == kk);
                                }
                            }
                        }
                    }
                }
            },
        }
        i += 1;
    }
    let mut out: Vec<Clash> = Vec::new();
    let mut q: usize = 0;
    while q < keys.len()
        invariant
            q <= keys@.len(),
            keys@.len() == members@.len(),
            es == views(entries@),
            es.take(entries@.len() as int) == es,
            keys_sorted(keys@.map_values(|k: Vec<char>| k@)),
            forall|j: int|
                0 <= j < keys@.len() ==> views(#[trigger] members@[j]@) == claimants(es, keys@[j]@),
            forall|j: int| 0 <= j < out@.len() ==> exists|m: int| 0 <= m < q && (#[trigger] out@[j]).number@ == keys@[m]@,
            keys_sorted(out@.map_values(|c: Clash| c.number@)),
            forall|a: int, m: int| 0 <= a < out@.len() && q <= m < keys@.len() ==> seq_less(
                (#[trigger] out@[a]).number@,
                #[trigger] keys@[m]@,
            ),
            forall|j: int|
                0 <= j < out@.len() ==> views((#[trigger] out@[j]).claiming@) == claimants(
                    es,
                    out@[j].number@,
                ) && out@[j].claiming@.len() > 1,
            forall|m: int|
                0 <= m < q && #[trigger] members@[m]@.len() > 1 ==> exists|j: int|
                    0 <= j < out@.len() && out@[j].number@ == keys@[m]@,
        decreases keys@.len() - q,
    {
        if members[q].len() > 1 {
            let ghost old_out = out@;
            let number = string_of(keys[q].as_slice());
            let mut claiming: Vec<String> = Vec::new();
            let mut z: usize = 0;
            while z < members[q].len()
                invariant
                    q < members@.len(),
                    z <= members@[q as int]@.len(),
                    claiming@.len() == z,
                    forall|w: int| 0 <= w < z ==> (#[trigger] claiming@[w])@ == members@[q as int]@[w]@,
                decreases members@[q as int]@.len() - z,
            {
                let s = string_of(chars_of(members[q][z].as_str()).as_slice());
                claiming.push(s);
                z += 1;
            }
            assert(views(claiming@) =~= views(members@[q as int]@));
            assert(number@ == keys@[q as int]@);
            out.push(Clash { number, claiming });
            proof {
                assert(out@[old_out.len() as int].number@ == keys@[q as int]@);
                assert forall|m: int|
                    0 <= m < q + 1 && #[trigger] members@[m]@.len() > 1 implies exists|j: int|
                        0 <= j < out@.len() && out@[j].number@ == keys@[m]@ by {
                    if m < q {
                        let j = choose|j: int| 0 <= j < old_out.len() && old_out[j].number@ == keys@[m]@;
                        assert(out@[j] == old_out[j]);
                    }
                }
                assert forall|j: int| 0 <= j < out@.len() implies exists|m: int| 0 <= m < q + 1 && (#[trigger] out@[j]).number@ == keys@[m]@ by {
                    if j < old_out.len() {
                        assert(out@[j] == old_out[j]);
                        let m = choose|m: int| 0 <= m < q && old_out[j].number@ == keys@[m]@;
                    }
                }
                let ok = out@.map_values(|c: Clash| c.number@);
                assert forall|a: int, b: int| 0 <= a < b < ok.len() implies seq_less(ok[a], ok[b]) by {
                    if b < old_out.len() {
                        assert(ok[a] == old_out[a].number@ && ok[b] == old_out[b].number@);
                        assert(old_out.map_values(|c: Clash| c.number@)[a] == ok[a]);
                        assert(old_out.map_values(|c: Clash| c.number@)[b] == ok[b]);
                    } else {
                        assert(out@[a] == old_out[a]);
                        assert(seq_less(old_out[a].number@, keys@[q as int]@));
                    }
                }
                assert forall|a: int, m: int|
                    0 <= a < out@.len() && q + 1 <= m < keys@.len() implies seq_less(
                    (#[trigger] out@[a]).number@,
                    #[trigger] keys@[m]@,
                ) by {
                    let kk = keys@.map_values(|k: Vec<char>| k@);
                    assert(kk[q as int] == keys@[q as int]@ && kk[m] == keys@[m]@);
                    if a < old_out.len() {
                        assert(out@[a] == old_out[a]);
                    }
                }
            }
        } else {
            proof {
                let kk = keys@.map_values(|k: Vec<char>| k@);
                assert forall|a: int, m: int|
                    0 <= a < out@.len() && q + 1 <= m < keys@.len() implies seq_less(
                    (#[trigger] out@[a]).number@,
                    #[trigger] keys@[m]@,
                ) by {
                    assert(seq_less(out@[a].number@, keys@[q as int]@));
                    assert(kk[q as int] == keys@[q as int]@ && kk[m] == keys@[m]@);
                    lemma_seq_less_transitive(out@[a].number@, keys@[q as int]@, keys@[m]@);
                }
            }
        }
        q += 1;
    }
    proof {
        assert forall|k: Seq<char>|
            #[trigger] claimants(views(entries@), k).len() > 1 implies exists|i: int|
                0 <= i < out@.len() && out@[i].number@ == k by {
            let m = choose|m: int| 0 <= m < keys@.len() && keys@[m]@ == k;
            assert(views(members@[m]@).len() == members@[m]@.len());
        }
        assert forall|j: int| 0 <= j < out@.len() implies views((#[trigger] out@[j]).claiming@)
            == claimants(views(entries@), out@[j].number@) by {}
    }
    out
}

/// Keys that come one before another in sorted order are different.
proof fn lemma_keys_distinct(keys: Seq<Seq<char>>, a: int, b: int)
    requires
        keys_sorted(keys),
        0 <= a < keys.len(),
        0 <= b < keys.len(),
        a != b,
    ensures
        keys[a] != keys[b],
{
    if a < b {
        if keys[a] == keys[b] {
            lemma_seq_less_irreflexive(keys[a]);
        }
    } else {
        if keys[a] == keys[b] {
            lemma_seq_less_irreflexive(keys[a]);
        }
    }
}

/// The message a repeated number produces: the number, each entry claiming it under its tree,
/// and the fix that tree needs.
pub open spec fn spec_report(
    tree: Seq<char>,
    remedy: Seq<char>,
    number: Seq<char>,
    claiming: Seq<Seq<char>>,
) -> Seq<char> {
    "\nxtask: "@ + decimal(claiming.len()) + " entries under "@ + tree + " claim the number "@
        + number + ":\n\n"@ + join(
        claiming.map_values(|e: Seq<char>| "    "@ + tree + "/"@ + e),
        "\n"@,
    ) + "\n\n    "@ + remedy
}

/// The message a collision produces: the number, the entries answering to it, and the fix that
/// tree needs.
pub fn report(tree: &str, remedy: &str, clash: &Clash) -> (r: String)
    ensures
        r@ == spec_report(tree@, remedy@, clash.number@, views(clash.claiming@)),
{
    let mut r = String::new();
    push_chars(&mut r, "\nxtask: ");
    push_decimal(&mut r, clash.claiming.len() as u64);
    push_chars(&mut r, " entries under ");
    push_chars(&mut r, tree);
    push_chars(&mut r, " claim the number ");
    push_chars(&mut r, clash.number.as_str());
    push_chars(&mut r, ":\n\n");
    let ghost head = r@;
    let ghost lines = views(clash.claiming@).map_values(|e: Seq<char>| "    "@ + tree@ + "/"@ + e);
    let mut i: usize = 0;
    while i < clash.claiming.len()
        invariant
            i <= clash.claiming@.len(),
            lines == views(clash.claiming@).map_values(|e: Seq<char>| "    "@ + tree@ + "/"@ + e),
            r@ == head + join(lines.take(i as int), "\n"@),
        decreases clash.claiming@.len() - i,
    {
        let ghost before = r@;
        if i > 0 {
            push_chars(&mut r, "\n");
        }
        push_chars(&mut r, "    ");
        push_chars(&mut r, tree);
        push_chars(&mut r, "/");
        push_chars(&mut r, clash.claiming[i].as_str());
        proof {
            let t = lines.take(i + 1);
            assert(t.drop_last() =~= lines.take(i as int));
            assert(t.last() == lines[i as int]);
            if i == 0 {
                assert(t.len() == 1);
                assert(r@ =~= head + join(t, "\n"@));
            } else {
                assert(r@ =~= head + join(t, "\n"@));
            }
        }
        i += 1;
    }
    assert(lines.take(i as int) =~= lines);
    push_chars(&mut r, "\n\n    ");
    push_chars(&mut r, remedy);
    r
}

/// What the numbering step answers: nothing where no number is claimed twice, and otherwise every
/// collision's message, then how many there were of how many entries.
pub fn verdict(clashes: &Vec<String>, counted: usize) -> (r: Result<(), String>)
    ensures
        r is Ok <==> clashes@.len() == 0,
        r matches Err(m) ==> m@ == join(views(clashes@), "\n"@) + "\n"@ + decimal(
            clashes@.len() as nat,
        ) + " of "@ + decimal(counted as nat) + " entries claim a number another one claims."@,
{
    if clashes.len() == 0 {
        return Ok(());
    }
    let mut m = String::new();
    let ghost parts = views(clashes@);
    let mut i: usize = 0;
    while i < clashes.len()
        invariant
            i <= clashes@.len(),
            parts == views(clashes@),
            m@ == join(parts.take(i as int), "\n"@),
        decreases clashes@.len() - i,
    {
        if i > 0 {
            push_chars(&mut m, "\n");
        }
        push_chars(&mut m, clashes[i].as_str());
        proof {
            let t = parts.take(i + 1);
            assert(t.drop_last() =~= parts.take(i as int));
            if i == 0 {
                assert(m@ =~= join(t, "\n"@));
            } else {
                assert(m@ =~= join(t, "\n"@));
            }
        }
        i += 1;
    }
    assert(parts.take(i as int) =~= parts);
    push_chars(&mut m, "\n");
    push_decimal(&mut m, clashes.len() as u64);
    push_chars(&mut m, " of ");
    push_decimal(&mut m, counted as u64);
    push_chars(&mut m, " entries claim a number another one claims.");
    Err(m)
}

/// The entry directly under `tree` that `path` lies in: its first segment below `tree`, where
/// it lies below `tree` at all and that segment is not empty.
pub open spec fn entry_below(path: Seq<char>, tree: Seq<char>) -> Option<Seq<char>> {
    if has_prefix(path, tree) && path.len() > tree.len() && path[tree.len() as int] == '/' {
        let segment = split_on(path.skip(tree.len() as int + 1), '/')[0];
        if segment.len() > 0 {
            Some(segment)
        } else {
            None
        }
    } else {
        None
    }
}

/// Whether `x` is one of `v`.
pub open spec fn among(v: Seq<Seq<char>>, x: Seq<char>) -> bool {
    exists|j: int| 0 <= j < v.len() && v[j] == x
}

/// The characters of each vector of `v`.
pub open spec fn char_views(v: Seq<Vec<char>>) -> Seq<Seq<char>> {
    v.map_values(|c: Vec<char>| c@)
}

/// Inserts `k` into the sorted `keys`, unless it is there already.
fn insert_sorted_unique(keys: &mut Vec<Vec<char>>, k: Vec<char>)
    requires
        keys_sorted(char_views(old(keys)@)),
    ensures
        keys_sorted(char_views(final(keys)@)),
        forall|x: Seq<char>|
            #[trigger] among(char_views(final(keys)@), x) <==> (x == k@ || among(
                char_views(old(keys)@),
                x,
            )),
{
    let ghost old_keys = char_views(keys@);
    let mut p: usize = 0;
    while p < keys.len() && chars_less(&keys[p], &k)
        invariant
            p <= keys@.len(),
            old_keys == char_views(keys@),
            forall|j: int| 0 <= j < p ==> seq_less(keys@[j]@, k@),
        decreases keys@.len() - p,
    {
        p += 1;
    }
    if p < keys.len() && same_chars(&keys[p], &k) {
        proof {
            assert forall|x: Seq<char>|
                #[trigger] among(char_views(keys@), x) <==> (x == k@ || among(old_keys, x)) by {
                if x == k@ {
                    assert(old_keys[p as int] == x);
                }
            }
        }
        return;
    }
    proof {
        if p < keys@.len() {
            assert(old_keys[p as int] == keys@[p as int]@);
            lemma_seq_less_total(keys@[p as int]@, k@);
        }
        assert forall|m: int| p <= m < old_keys.len() implies seq_less(k@, #[trigger] old_keys[m]) by {
            if m > p {
                lemma_seq_less_transitive(k@, old_keys[p as int], old_keys[m]);
            }
        }
        assert forall|j: int| 0 <= j < p implies seq_less(#[trigger] old_keys[j], k@) by {
            assert(old_keys[j] == keys@[j]@);
        }
    }
    let ghost kv = k@;
    keys.insert(p, k);
    proof {
        let nk = char_views(keys@);
        assert(nk =~= old_keys.insert(p as int, kv));
        assert forall|a: int, b: int| 0 <= a < b < nk.len() implies seq_less(nk[a], nk[b]) by {
            if a < p && b < p {
            } else if a < p && b == p {
            } else if a < p {
                lemma_seq_less_transitive(old_keys[a], kv, old_keys[b - 1]);
            } else if a == p {
            } else {
            }
        }
        assert forall|x: Seq<char>| #[trigger] among(nk, x) <==> (x == kv || among(old_keys, x)) by {
            if among(nk, x) {
                let j = choose|j: int| 0 <= j < nk.len() && nk[j] == x;
                if j < p {
                    assert(old_keys[j] == x);
                } else if j > p {
                    assert(old_keys[j - 1] == x);
                }
            }
            if x == kv {
                assert(nk[p as int] == x);
            }
            if among(old_keys, x) {
                let j = choose|j: int| 0 <= j < old_keys.len() && old_keys[j] == x;
                if j < p {
                    assert(nk[j] == x);
                } else {
                    assert(nk[j + 1] == x);
                }
            }
        }
    }
}

/// The entry below `tree` that `path` lies in, where it lies in one.
fn entry_of(path: &Vec<char>, tree: &str) -> (r: Option<Vec<char>>)
    ensures
        r is Some <==> entry_below(path@, tree@) is Some,
        r matches Some(e) ==> e@ == entry_below(path@, tree@)->0,
{
    let tv = chars_of(tree);
    if !begins_with(path, tree) || path.len() <= tv.len() || path[tv.len()] != '/' {
        return None;
    }
    let below = copy_range(path, tv.len() + 1, path.len());
    assert(below@ =~= path@.skip(tree@.len() as int + 1));
    let parts = split_chars(&below, '/');
    proof {
        crate::strings::lemma_split_on_len(below@, '/');
    }
    let first = &parts[0];
    if first.len() > 0 {
        Some(copy_range(first, 0, first.len()))
    } else {
        None
    }
}

/// Whether some path of `listing`, one path a line, lies in the entry `x` under `tree`.
pub open spec fn listed_below(listing: Seq<char>, tree: Seq<char>, x: Seq<char>, upto: int) -> bool {
    exists|i: int| 0 <= i < upto && entry_below(lines_of(listing)[i], tree) == Some(x)
}

/// Every entry directly under `tree` that a path of `listing`, one path a line, lies in: in
/// increasing order of their characters, each once.
pub fn entries_of(listing: &str, tree: &str) -> (r: Vec<String>)
    ensures
        keys_sorted(views(r@)),
        forall|x: Seq<char>|
            #[trigger] among(views(r@), x) <==> listed_below(
                listing@,
                tree@,
                x,
                lines_of(listing@).len() as int,
            ),
{
    let lv = chars_of(listing);
    let ls = lines(&lv);
    let mut keys: Vec<Vec<char>> = Vec::new();
    let mut i: usize = 0;
    while i < ls.len()
        invariant
            i <= ls@.len(),
            lv@ == listing@,
            ls@.len() == lines_of(lv@).len(),
            forall|k: int| 0 <= k < ls@.len() ==> (#[trigger] ls@[k])@ == lines_of(lv@)[k],
            keys_sorted(char_views(keys@)),
            forall|x: Seq<char>|
                #[trigger] among(char_views(keys@), x) <==> listed_below(lv@, tree@, x, i as int),
        decreases ls@.len() - i,
    {
        let ghost before = char_views(keys@);
        match entry_of(&ls[i], tree) {
            Some(e) => {
                let ghost ev = e@;
                insert_sorted_unique(&mut keys, e);
                proof {
                    assert forall|x: Seq<char>|
                        #[trigger] among(char_views(keys@), x) <== listed_below(lv@, tree@, x, i + 1) by {
                        if listed_below(lv@, tree@, x, i + 1) {
                            let k = choose|k: int|
                                0 <= k < i + 1 && entry_below(lines_of(lv@)[k], tree@) == Some(x);
                            if k < i {
                                assert(listed_below(lv@, tree@, x, i as int));
                                assert(among(before, x));
                            }
                        }
                    }
                    assert forall|x: Seq<char>|
                        #[trigger] among(char_views(keys@), x) ==> listed_below(lv@, tree@, x, i + 1) by {
                        if among(char_views(keys@), x) {
                            if x == ev {
                                assert(entry_below(lines_of(lv@)[i as int], tree@) == Some(x));
                            } else {
                                assert(among(before, x));
                                let k = choose|k: int|
                                    0 <= k < i && entry_below(lines_of(lv@)[k], tree@) == Some(x);
                                assert(0 <= k < i + 1);
                            }
                        }
                    }
                }
            },
            None => {
                proof {
                    assert forall|x: Seq<char>|
                        #[trigger] among(char_views(keys@), x) <==> listed_below(lv@, tree@, x, i + 1) by {
                        if listed_below(lv@, tree@, x, i + 1) {
                            let k = choose|k: int|
                                0 <= k < i + 1 && entry_below(lines_of(lv@)[k], tree@) == Some(x);
                            assert(k != i);
                            assert(listed_below(lv@, tree@, x, i as int));
                        }
                        if among(char_views(keys@), x) {
                            let k = choose|k: int|
                                0 <= k < i && entry_below(lines_of(lv@)[k], tree@) == Some(x);
                            assert(0 <= k < i + 1);
                        }
                    }
                }
            },
        }
        i += 1;
    }
    let mut out: Vec<String> = Vec::new();
    let mut j: usize = 0;
    while j < keys.len()
        invariant
            j <= keys@.len(),
            out@.len() == j,
            forall|m: int| 0 <= m < j ==> (#[trigger] out@[m])@ == keys@[m]@,
        decreases keys@.len() - j,
    {
        out.push(string_of(keys[j].as_slice()));
        j += 1;
    }
    assert(views(out@) =~= char_views(keys@));
    out
}

} // verus!
