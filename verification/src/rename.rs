//! Planning the copy of listed files under new names: each record names a
//! person and the start of a file name; the start is cleaned up, matched
//! against the available files, and the matching file is copied to
//! `passed_files\{name}____{file}`.
use vstd::prelude::*;
use crate::dedup::{csv_read_rows, csv_rows_of, table_texts, texts};

verus! {

/// `String::push`: appends one character.
pub assume_specification[ String::push ](string: &mut String, ch: char)
    ensures
        final(string)@ == old(string)@.push(ch),
;

/// Direction marks that cannot stand in a file name.
pub open spec fn is_illegal_char(c: char) -> bool {
    c == '\u{2067}' || c == '\u{2066}' || c == '\u{202d}'
}

/// Every illegal character replaced by `-`.
pub open spec fn replace_illegal(s: Seq<char>) -> Seq<char> {
    s.map_values(|c: char| if is_illegal_char(c) { '-' } else { c })
}

/// Every occurrence of `pat` in `s`, found from left to right without
/// overlap, replaced by `rep`.
pub open spec fn replace_all(s: Seq<char>, pat: Seq<char>, rep: Seq<char>) -> Seq<char>
    decreases s.len(),
{
    if pat.len() == 0 || s.len() < pat.len() {
        s
    } else if s.take(pat.len() as int) == pat {
        rep + replace_all(s.skip(pat.len() as int), pat, rep)
    } else {
        seq![s[0]] + replace_all(s.skip(1), pat, rep)
    }
}

/// The cleaned-up start of a file name: illegal characters become `-`, and
/// the upper-case extensions `.MP3` and `.MOV` become lower-case.
pub open spec fn sanitized(s: Seq<char>) -> Seq<char> {
    replace_all(
        replace_all(replace_illegal(s), seq!['.', 'M', 'P', '3'], seq!['.', 'm', 'p', '3']),
        seq!['.', 'M', 'O', 'V'],
        seq!['.', 'm', 'o', 'v'],
    )
}

fn chars_of(s: &str) -> (v: Vec<char>)
    ensures
        v@ == s@,
{
    let n = s.unicode_len();
    let mut v: Vec<char> = Vec::new();
    let mut i: usize = 0;
    while i < n
        invariant
            n == s@.len(),
            i <= n,
            v@ == s@.take(i as int),
        decreases n - i,
    {
        v.push(s.get_char(i));
        i = i + 1;
        assert(v@ =~= s@.take(i as int));
    }
    assert(s@.take(n as int) =~= s@);
    v
}

fn string_of(v: &Vec<char>) -> (s: String)
    ensures
        s@ == v@,
{
    let mut s = String::new();
    let mut i: usize = 0;
    while i < v.len()
        invariant
            i <= v.len(),
            s@ == v@.take(i as int),
        decreases v.len() - i,
    {
        s.push(v[i]);
        i = i + 1;
        assert(s@ =~= v@.take(i as int));
    }
    assert(v@.take(v.len() as int) =~= v@);
    s
}

/// Whether `pat` occurs in `s` at position `at`.
fn occurs_at(s: &Vec<char>, at: usize, pat: &Vec<char>) -> (b: bool)
    requires
        at + pat.len() <= s.len(),
    ensures
        b == (s@.subrange(at as int, at + pat.len()) == pat@),
{
    let mut k: usize = 0;
    while k < pat.len()
        invariant
            at + pat.len() <= s.len(),
            k <= pat.len(),
            forall|j: int| 0 <= j < k ==> s@[at + j] == pat@[j],
        decreases pat.len() - k,
    {
        if s[at + k] != pat[k] {
            assert(s@.subrange(at as int, at + pat.len())[k as int] != pat@[k as int]);
            return false;
        }
        k = k + 1;
    }
    assert(s@.subrange(at as int, at + pat.len()) =~= pat@);
    true
}

fn replace_all_chars(s: &Vec<char>, pat: &Vec<char>, rep: &Vec<char>) -> (out: Vec<char>)
    requires
        pat.len() > 0,
    ensures
        out@ == replace_all(s@, pat@, rep@),
{
    let mut out: Vec<char> = Vec::new();
    let mut i: usize = 0;
    assert(s@.skip(0) =~= s@);
    assert(out@ + replace_all(s@, pat@, rep@) =~= replace_all(s@, pat@, rep@));
    while i < s.len()
        invariant
            pat.len() > 0,
            i <= s.len(),
            out@ + replace_all(s@.skip(i as int), pat@, rep@) == replace_all(s@, pat@, rep@),
        decreases s.len() - i,
    {
        let ghost rest = s@.skip(i as int);
        if pat.len() <= s.len() - i && occurs_at(s, i, pat) {
            assert(rest.take(pat.len() as int) =~= s@.subrange(i as int, i + pat.len()));
            assert(rest.skip(pat.len() as int) =~= s@.skip(i + pat.len()));
            let mut k: usize = 0;
            let ghost before = out@;
            while k < rep.len()
                invariant
                    k <= rep.len(),
                    out@ == before + rep@.take(k as int),
                decreases rep.len() - k,
            {
                out.push(rep[k]);
                k = k + 1;
                assert(out@ =~= before + rep@.take(k as int));
            }
            assert(rep@.take(rep.len() as int) =~= rep@);
            assert(before + (rep@ + replace_all(rest.skip(pat.len() as int), pat@, rep@)) =~= out@
                + replace_all(s@.skip(i + pat.len()), pat@, rep@));
            i = i + pat.len();
        } else {
            proof {
                if rest.len() >= pat.len() {
                    assert(rest.take(pat.len() as int) =~= s@.subrange(i as int, i + pat.len()));
                }
            }
            assert(rest.skip(1) =~= s@.skip(i + 1));
            let ghost before = out@;
            out.push(s[i]);
            assert(before + (seq![rest[0]] + replace_all(rest.skip(1), pat@, rep@)) =~= out@
                + replace_all(s@.skip(i + 1), pat@, rep@));
            i = i + 1;
        }
    }
    assert(out@ + replace_all(s@.skip(s.len() as int), pat@, rep@) =~= out@);
    out
}

/// Cleans up the start of a file name as the listing writes it.
pub fn sanitize_prefix(prefix: &str) -> (clean: String)
    ensures
        clean@ == sanitized(prefix@),
{
    let chars = chars_of(prefix);
    let mut plain: Vec<char> = Vec::new();
    let mut i: usize = 0;
    while i < chars.len()
        invariant
            i <= chars.len(),
            plain@ == replace_illegal(chars@.take(i as int)),
        decreases chars.len() - i,
    {
        let c = chars[i];
        if c == '\u{2067}' || c == '\u{2066}' || c == '\u{202d}' {
            plain.push('-');
        } else {
            plain.push(c);
        }
        i = i + 1;
        assert(plain@ =~= replace_illegal(chars@.take(i as int)));
    }
    assert(chars@.take(chars.len() as int) =~= chars@);
    let mp3 = replace_all_chars(&plain, &vec!['.', 'M', 'P', '3'], &vec!['.', 'm', 'p', '3']);
    let mov = replace_all_chars(&mp3, &vec!['.', 'M', 'O', 'V'], &vec!['.', 'm', 'o', 'v']);
    string_of(&mov)
}

/// Whether `s` starts with `prefix`.
pub fn starts_with(s: &str, prefix: &str) -> (b: bool)
    ensures
        b == prefix@.is_prefix_of(s@),
{
    let n = s.unicode_len();
    let m = prefix.unicode_len();
    if m > n {
        return false;
    }
    let mut k: usize = 0;
    while k < m
        invariant
            n == s@.len(),
            m == prefix@.len(),
            m <= n,
            k <= m,
            forall|j: int| 0 <= j < k ==> s@[j] == prefix@[j],
        decreases m - k,
    {
        if s.get_char(k) != prefix.get_char(k) {
            return false;
        }
        k = k + 1;
    }
    assert(s@.take(m as int) =~= prefix@);
    true
}

/// The first of `file_names` that starts with `prefix`.
pub fn find_source(file_names: &Vec<String>, prefix: &str) -> (found: Option<usize>)
    ensures
        match found {
            Some(j) => j < file_names.len() && prefix@.is_prefix_of(file_names[j as int]@) && forall|k: int|
                0 <= k < j ==> !prefix@.is_prefix_of(#[trigger] file_names[k]@),
            None => forall|k: int| 0 <= k < file_names.len() ==> !prefix@.is_prefix_of(#[trigger] file_names[k]@),
        },
{
    let mut j: usize = 0;
    while j < file_names.len()
        invariant
            j <= file_names.len(),
            forall|k: int| 0 <= k < j ==> !prefix@.is_prefix_of(#[trigger] file_names[k]@),
        decreases file_names.len() - j,
    {
        if starts_with(file_names[j].as_str(), prefix) {
            return Some(j);
        }
        j = j + 1;
    }
    None
}

/// `passed_files\{name}____{source}`
pub open spec fn destination_of(name: Seq<char>, source: Seq<char>) -> Seq<char> {
    "passed_files\\"@ + name + "____"@ + source
}

/// Where the file `source` is copied for the person `name`.
pub fn destination_name(name: &str, source: &str) -> (dst: String)
    ensures
        dst@ == destination_of(name@, source@),
{
    let mut dst = String::from_str("passed_files\\");
    dst.append(name);
    dst.append("____");
    dst.append(source);
    dst
}

/// What to do for one record.
#[derive(Debug)]
pub enum CopyDecision {
    /// Copy the file at index `source` to `destination`.
    Copy { source: usize, destination: String },
    /// No file starts with the cleaned-up `prefix`.
    Missing { prefix: String },
}

/// The decision for the record (`name`, `prefix`).
pub open spec fn is_decision_for(
    d: CopyDecision,
    file_names: Seq<String>,
    name: Seq<char>,
    prefix: Seq<char>,
) -> bool {
    let clean = sanitized(prefix);
    match d {
        CopyDecision::Copy { source, destination } => {
            &&& source < file_names.len()
            &&& clean.is_prefix_of(file_names[source as int]@)
            &&& forall|k: int| 0 <= k < source ==> !clean.is_prefix_of(#[trigger] file_names[k]@)
            &&& destination@ == destination_of(name, file_names[source as int]@)
        },
        CopyDecision::Missing { prefix: p } => {
            &&& p@ == clean
            &&& forall|k: int| 0 <= k < file_names.len() ==> !clean.is_prefix_of(#[trigger] file_names[k]@)
        },
    }
}

/// Decides which file to copy for the record (`name`, `prefix`).
pub fn decide_copy(file_names: &Vec<String>, name: &str, prefix: &str) -> (d: CopyDecision)
    ensures
        is_decision_for(d, file_names@, name@, prefix@),
{
    let clean = sanitize_prefix(prefix);
    match find_source(file_names, clean.as_str()) {
        Some(j) => {
            let destination = destination_name(name, file_names[j].as_str());
            CopyDecision::Copy { source: j, destination }
        },
        None => CopyDecision::Missing { prefix: clean },
    }
}

/// Every row has exactly two fields.
pub open spec fn rows_have_two_fields_exactly(rows: Seq<Seq<Seq<char>>>) -> bool {
    forall|i: int| 0 <= i < rows.len() ==> #[trigger] rows[i].len() == 2
}

/// The decisions for the CSV list `list_csv` (a header row, then one row
/// per person: name, start of a file name), one per row and in order;
/// `None` when the list cannot be read or a row does not have exactly two
/// fields.
pub fn plan_renames(file_names: &Vec<String>, list_csv: &[u8]) -> (plan: Option<Vec<CopyDecision>>)
    ensures
        match csv_rows_of(list_csv@) {
            None => plan is None,
            Some(rows) => if rows_have_two_fields_exactly(rows) {
                plan matches Some(p) && p.len() == rows.len() && forall|i: int|
                    0 <= i < rows.len() ==> is_decision_for(
                        #[trigger] p[i],
                        file_names@,
                        rows[i][0],
                        rows[i][1],
                    )
            } else {
                plan is None
            },
        },
{
    let records = match csv_read_rows(list_csv) {
        Some(r) => r,
        None => return None,
    };
    let ghost table = table_texts(records@);
    let mut i: usize = 0;
    while i < records.len()
        invariant
            i <= records.len(),
            table == table_texts(records@),
            csv_rows_of(list_csv@) == Some(table),
            forall|k: int| 0 <= k < i ==> #[trigger] records[k].len() == 2,
        decreases records.len() - i,
    {
        if records[i].len() != 2 {
            assert(table[i as int] == texts(records[i as int]@));
            assert(!rows_have_two_fields_exactly(table));
            return None;
        }
        i = i + 1;
    }
    let mut decisions: Vec<CopyDecision> = Vec::new();
    let mut i: usize = 0;
    while i < records.len()
        invariant
            i <= records.len(),
            table == table_texts(records@),
            forall|k: int| 0 <= k < records.len() ==> #[trigger] records[k].len() == 2,
            decisions.len() == i,
            forall|k: int|
                0 <= k < i ==> is_decision_for(
                    #[trigger] decisions[k],
                    file_names@,
                    table[k][0],
                    table[k][1],
                ),
        decreases records.len() - i,
    {
        assert(records[i as int].len() == 2);
        assert(table[i as int] == texts(records[i as int]@));
        let record = &records[i];
        let d = decide_copy(file_names, record[0].as_str(), record[1].as_str());
        decisions.push(d);
        i = i + 1;
    }
    assert forall|k: int| 0 <= k < table.len() implies #[trigger] table[k].len() == 2 by {
        assert(table.len() == records.len());
        assert(records[k].len() == 2);
        assert(table[k] == texts(records[k]@));
    }
    Some(decisions)
}

proof fn lemma_replace_all_keeps_legal(s: Seq<char>, pat: Seq<char>, rep: Seq<char>)
    requires
        forall|i: int| 0 <= i < s.len() ==> !is_illegal_char(#[trigger] s[i]),
        forall|i: int| 0 <= i < rep.len() ==> !is_illegal_char(#[trigger] rep[i]),
    ensures
        forall|i: int| 0 <= i < replace_all(s, pat, rep).len() ==> !is_illegal_char(
            #[trigger] replace_all(s, pat, rep)[i],
        ),
    decreases s.len(),
{
    if pat.len() == 0 || s.len() < pat.len() {
    } else if s.take(pat.len() as int) == pat {
        let rest = s.skip(pat.len() as int);
        lemma_replace_all_keeps_legal(rest, pat, rep);
        let out = replace_all(s, pat, rep);
        assert forall|i: int| 0 <= i < out.len() implies !is_illegal_char(#[trigger] out[i]) by {
            if i >= rep.len() {
                assert(out[i] == replace_all(rest, pat, rep)[i - rep.len()]);
            }
        }
    } else {
        let rest = s.skip(1);
        lemma_replace_all_keeps_legal(rest, pat, rep);
        let out = replace_all(s, pat, rep);
        assert forall|i: int| 0 <= i < out.len() implies !is_illegal_char(#[trigger] out[i]) by {
            if i >= 1 {
                assert(out[i] == replace_all(rest, pat, rep)[i - 1]);
            }
        }
    }
}

/// A cleaned-up file name start holds none of the illegal direction marks.
pub proof fn lemma_sanitized_has_no_illegal_chars(s: Seq<char>)
    ensures
        forall|i: int| 0 <= i < sanitized(s).len() ==> !is_illegal_char(#[trigger] sanitized(s)[i]),
{
    let plain = replace_illegal(s);
    assert forall|i: int| 0 <= i < plain.len() implies !is_illegal_char(#[trigger] plain[i]) by {}
    let mp3_pat = seq!['.', 'M', 'P', '3'];
    let mp3_rep = seq!['.', 'm', 'p', '3'];
    let mov_pat = seq!['.', 'M', 'O', 'V'];
    let mov_rep = seq!['.', 'm', 'o', 'v'];
    assert forall|i: int| 0 <= i < mp3_rep.len() implies !is_illegal_char(#[trigger] mp3_rep[i]) by {}
    assert forall|i: int| 0 <= i < mov_rep.len() implies !is_illegal_char(#[trigger] mov_rep[i]) by {}
    lemma_replace_all_keeps_legal(plain, mp3_pat, mp3_rep);
    lemma_replace_all_keeps_legal(replace_all(plain, mp3_pat, mp3_rep), mov_pat, mov_rep);
}

/// `pat` occurs somewhere in `s`.
pub open spec fn occurs_in(s: Seq<char>, pat: Seq<char>) -> bool {
    exists|i: int| 0 <= i && i + pat.len() <= s.len() && #[trigger] s.subrange(i, i + pat.len()) == pat
}

/// `pat` stands in `s` at a position `p` whose span covers position `i`.
pub open spec fn covered_by(s: Seq<char>, pat: Seq<char>, i: int) -> bool {
    exists|p: int|
        0 <= p <= i && i < p + pat.len() && p + pat.len() <= s.len() && #[trigger] s.subrange(
            p,
            p + pat.len(),
        ) == pat
}

proof fn lemma_replace_all_same_length(s: Seq<char>, pat: Seq<char>, rep: Seq<char>)
    requires
        pat.len() == rep.len(),
        pat.len() > 0,
    ensures
        replace_all(s, pat, rep).len() == s.len(),
        forall|i: int|
            0 <= i < s.len() ==> #[trigger] replace_all(s, pat, rep)[i] == s[i] || exists|p: int|
                0 <= p <= i && i < p + pat.len() && p + pat.len() <= s.len() && #[trigger] s.subrange(
                    p,
                    p + pat.len(),
                ) == pat && replace_all(s, pat, rep)[i] == rep[i - p],
    decreases s.len(),
{
    let r = replace_all(s, pat, rep);
    let n = pat.len();
    if s.len() < pat.len() {
    } else if s.take(pat.len() as int) == pat {
        let k = pat.len() as int;
        let rest = s.skip(k);
        let rr = replace_all(rest, pat, rep);
        lemma_replace_all_same_length(rest, pat, rep);
        assert forall|i: int| 0 <= i < s.len() implies #[trigger] r[i] == s[i] || exists|p: int|
            0 <= p <= i && i < p + n && p + n <= s.len() && #[trigger] s.subrange(p, p + n) == pat
                && r[i] == rep[i - p] by {
            if i < k {
                assert(r[i] == rep[i]);
                assert(s.subrange(0int, 0int + n) =~= s.take(k));
                assert(0 <= 0int <= i && i < 0int + n && 0int + n <= s.len() && s.subrange(0int, 0int + n)
                    == pat && r[i] == rep[i - 0int]);
            } else {
                assert(r[i] == rr[i - k]);
                assert(rest[i - k] == s[i]);
                if rr[i - k] != rest[i - k] {
                    let q = choose|q: int|
                        0 <= q <= i - k && i - k < q + n && q + n <= rest.len() && #[trigger] rest.subrange(
                            q,
                            q + n,
                        ) == pat && rr[i - k] == rep[i - k - q];
                    assert(s.subrange(q + k, q + k + n) =~= rest.subrange(q, q + n));
                    assert(0 <= q + k <= i && i < q + k + n && q + k + n <= s.len() && s.subrange(
                        q + k,
                        q + k + n,
                    ) == pat && r[i] == rep[i - (q + k)]);
                }
            }
        }
    } else {
        let rest = s.skip(1);
        let rr = replace_all(rest, pat, rep);
        lemma_replace_all_same_length(rest, pat, rep);
        assert forall|i: int| 0 <= i < s.len() implies #[trigger] r[i] == s[i] || exists|p: int|
            0 <= p <= i && i < p + n && p + n <= s.len() && #[trigger] s.subrange(p, p + n) == pat
                && r[i] == rep[i - p] by {
            if i > 0 {
                assert(r[i] == rr[i - 1]);
                assert(rest[i - 1] == s[i]);
                if rr[i - 1] != rest[i - 1] {
                    let q = choose|q: int|
                        0 <= q <= i - 1 && i - 1 < q + n && q + n <= rest.len() && #[trigger] rest.subrange(
                            q,
                            q + n,
                        ) == pat && rr[i - 1] == rep[i - 1 - q];
                    assert(s.subrange(q + 1, q + 1 + n) =~= rest.subrange(q, q + n));
                    assert(0 <= q + 1 <= i && i < q + 1 + n && q + 1 + n <= s.len() && s.subrange(
                        q + 1,
                        q + 1 + n,
                    ) == pat && r[i] == rep[i - (q + 1)]);
                }
            }
        }
    }
}

proof fn lemma_replace_all_absent(s: Seq<char>, pat: Seq<char>, rep: Seq<char>)
    requires
        pat.len() > 0,
        !occurs_in(s, pat),
    ensures
        replace_all(s, pat, rep) == s,
    decreases s.len(),
{
    if s.len() >= pat.len() {
        assert(s.take(pat.len() as int) != pat) by {
            assert(s.take(pat.len() as int) =~= s.subrange(0, 0int + pat.len()));
        }
        let rest = s.skip(1);
        assert(!occurs_in(rest, pat)) by {
            if occurs_in(rest, pat) {
                let i = choose|i: int|
                    0 <= i && i + pat.len() <= rest.len() && #[trigger] rest.subrange(i, i + pat.len()) == pat;
                assert(s.subrange(i + 1, i + 1 + pat.len()) =~= rest.subrange(i, i + pat.len()));
            }
        }
        lemma_replace_all_absent(rest, pat, rep);
        assert(seq![s[0]] + rest =~= s);
    }
}

proof fn lemma_occurrence_before_marks(s: Seq<char>, pat: Seq<char>, p: int)
    requires
        0 <= p,
        p + pat.len() <= s.len(),
        replace_illegal(s).subrange(p, p + pat.len()) == pat,
        forall|j: int| 0 <= j < pat.len() ==> #[trigger] pat[j] != '-',
    ensures
        s.subrange(p, p + pat.len()) == pat,
{
    let t = replace_illegal(s);
    assert forall|j: int| 0 <= j < pat.len() implies #[trigger] s.subrange(p, p + pat.len())[j] == pat[j] by {
        assert(t.subrange(p, p + pat.len())[j] == t[p + j]);
        assert(t[p + j] == (if is_illegal_char(s[p + j]) { '-' } else { s[p + j] }));
    }
    assert(s.subrange(p, p + pat.len()) =~= pat);
}

proof fn lemma_mov_before_mp3_step(t: Seq<char>, p: int)
    requires
        0 <= p,
        p + 4 <= t.len(),
        replace_all(t, seq!['.', 'M', 'P', '3'], seq!['.', 'm', 'p', '3']).subrange(p, p + 4) == seq![
            '.',
            'M',
            'O',
            'V',
        ],
    ensures
        t.subrange(p, p + 4) == seq!['.', 'M', 'O', 'V'],
{
    let mp3 = seq!['.', 'M', 'P', '3'];
    let mp3_low = seq!['.', 'm', 'p', '3'];
    let mov = seq!['.', 'M', 'O', 'V'];
    let u = replace_all(t, mp3, mp3_low);
    lemma_replace_all_same_length(t, mp3, mp3_low);
    assert forall|j: int| 0 <= j < 4 implies #[trigger] t.subrange(p, p + 4)[j] == mov[j] by {
        assert(u.subrange(p, p + 4)[j] == u[p + j]);
        assert(u[p + j] == mov[j]);
        if u[p + j] != t[p + j] {
            let q = choose|q: int|
                0 <= q <= p + j && p + j < q + mp3.len() && q + mp3.len() <= t.len() && #[trigger] t.subrange(
                    q,
                    q + mp3.len(),
                ) == mp3 && u[p + j] == mp3_low[p + j - q];
            assert(t.subrange(q, q + mp3.len())[p + j - q] == t[p + j]);
        }
    }
    assert(t.subrange(p, p + 4) =~= mov);
}

/// Cleaning up a file-name start keeps its length and changes characters
/// only in two ways: a direction mark becomes `-`, and an upper-case `M`,
/// `P`, `O` or `V` that stands in an extension `.MP3` or `.MOV` of the
/// start becomes lower-case. Every other character, a space included, is
/// kept as it is.
pub proof fn lemma_sanitized_changes(s: Seq<char>)
    ensures
        sanitized(s).len() == s.len(),
        forall|i: int| 0 <= i < s.len() && is_illegal_char(s[i]) ==> #[trigger] sanitized(s)[i] == '-',
        forall|i: int|
            0 <= i < s.len() && !is_illegal_char(s[i]) && #[trigger] sanitized(s)[i] != s[i] ==> {
                let c = s[i];
                let d = sanitized(s)[i];
                &&& covered_by(s, seq!['.', 'M', 'P', '3'], i) || covered_by(s, seq!['.', 'M', 'O', 'V'], i)
                &&& (c == 'M' && d == 'm') || (c == 'P' && d == 'p') || (c == 'O' && d == 'o') || (c == 'V'
                    && d == 'v')
            },
{
    let t = replace_illegal(s);
    let mp3 = seq!['.', 'M', 'P', '3'];
    let mp3_low = seq!['.', 'm', 'p', '3'];
    let mov = seq!['.', 'M', 'O', 'V'];
    let mov_low = seq!['.', 'm', 'o', 'v'];
    let u = replace_all(t, mp3, mp3_low);
    let f = sanitized(s);
    lemma_replace_all_same_length(t, mp3, mp3_low);
    lemma_replace_all_same_length(u, mov, mov_low);
    assert forall|i: int| 0 <= i < s.len() && is_illegal_char(s[i]) implies #[trigger] sanitized(s)[i]
        == '-' by {
        assert(t[i] == '-');
        if u[i] != t[i] {
            let q = choose|q: int|
                0 <= q <= i && i < q + mp3.len() && q + mp3.len() <= t.len() && #[trigger] t.subrange(
                    q,
                    q + mp3.len(),
                ) == mp3 && u[i] == mp3_low[i - q];
            assert(t.subrange(q, q + mp3.len())[i - q] == t[i]);
        }
        if f[i] != u[i] {
            let q = choose|q: int|
                0 <= q <= i && i < q + mov.len() && q + mov.len() <= u.len() && #[trigger] u.subrange(
                    q,
                    q + mov.len(),
                ) == mov && f[i] == mov_low[i - q];
            assert(u.subrange(q, q + mov.len())[i - q] == u[i]);
        }
    }
    assert forall|i: int|
        0 <= i < s.len() && !is_illegal_char(s[i]) && #[trigger] sanitized(s)[i] != s[i] implies {
            let c = s[i];
            let d = sanitized(s)[i];
            &&& covered_by(s, seq!['.', 'M', 'P', '3'], i) || covered_by(s, seq!['.', 'M', 'O', 'V'], i)
            &&& (c == 'M' && d == 'm') || (c == 'P' && d == 'p') || (c == 'O' && d == 'o') || (c == 'V'
                && d == 'v')
        } by {
        assert(t[i] == s[i]);
        if u[i] != t[i] {
            let q = choose|q: int|
                0 <= q <= i && i < q + mp3.len() && q + mp3.len() <= t.len() && #[trigger] t.subrange(
                    q,
                    q + mp3.len(),
                ) == mp3 && u[i] == mp3_low[i - q];
            assert(t.subrange(q, q + mp3.len())[i - q] == t[i]);
            assert forall|j: int| 0 <= j < mp3.len() implies #[trigger] mp3[j] != '-' by {}
            lemma_occurrence_before_marks(s, mp3, q);
            assert(0 <= q <= i && i < q + mp3.len() && q + mp3.len() <= s.len() && s.subrange(q, q + mp3.len())
                == mp3);
            if f[i] != u[i] {
                let q2 = choose|q2: int|
                    0 <= q2 <= i && i < q2 + mov.len() && q2 + mov.len() <= u.len() && #[trigger] u.subrange(
                        q2,
                        q2 + mov.len(),
                    ) == mov && f[i] == mov_low[i - q2];
                assert(u.subrange(q2, q2 + mov.len())[i - q2] == u[i]);
            }
        } else {
            assert(f[i] != u[i]);
            let q = choose|q: int|
                0 <= q <= i && i < q + mov.len() && q + mov.len() <= u.len() && #[trigger] u.subrange(
                    q,
                    q + mov.len(),
                ) == mov && f[i] == mov_low[i - q];
            assert(u.subrange(q, q + mov.len())[i - q] == u[i]);
            lemma_mov_before_mp3_step(t, q);
            assert forall|j: int| 0 <= j < mov.len() implies #[trigger] mov[j] != '-' by {}
            lemma_occurrence_before_marks(s, mov, q);
            assert(0 <= q <= i && i < q + mov.len() && q + mov.len() <= s.len() && s.subrange(q, q + mov.len())
                == mov);
        }
    }
}

/// A file-name start with no direction mark and no `.MP3` or `.MOV` is
/// left exactly as it is.
pub proof fn lemma_sanitized_keeps_plain_text(s: Seq<char>)
    requires
        forall|i: int| 0 <= i < s.len() ==> !is_illegal_char(#[trigger] s[i]),
        !occurs_in(s, seq!['.', 'M', 'P', '3']),
        !occurs_in(s, seq!['.', 'M', 'O', 'V']),
    ensures
        sanitized(s) == s,
{
    assert(replace_illegal(s) =~= s);
    lemma_replace_all_absent(s, seq!['.', 'M', 'P', '3'], seq!['.', 'm', 'p', '3']);
    lemma_replace_all_absent(s, seq!['.', 'M', 'O', 'V'], seq!['.', 'm', 'o', 'v']);
}

} // verus!
