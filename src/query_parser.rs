//! Turns annotated source into clean code plus resolved queries.
use vstd::prelude::*;
use crate::pattern::QueryKind;
use crate::scan::{
    cut_offset, has_malformed, has_out_of_range, in_range, mark_offset, scan_bytes, scan_source,
    scanned_matches, DirectiveError, ScanModel, Scanned,
};
use crate::text::{join_lines, line_start, lemma_line_end_within};
use vstd::utf8::{encode_utf8, encode_utf8_valid_utf8, valid_utf8};

verus! {

/// The outcome of scanning a source.
pub struct ParseResult {
    /// The source without its directive lines, lines joined by `\n`.
    pub code: String,
    /// Each marker, in source order, with the byte offset in `code` it resolves to.
    pub queries: Vec<(QueryKind, usize)>,
    /// Whether the source carries the `@noErrors` pragma.
    pub no_errors: bool,
    /// Byte offset in `code` where the displayed part begins, if the source
    /// has a cut boundary; the text before it is context only.
    pub cut: Option<usize>,
}

/// `p` is the successful outcome of the scan `m`.
pub open spec fn parse_matches(p: ParseResult, m: ScanModel) -> bool {
    &&& encode_utf8(p.code@) == join_lines(m.kept)
    &&& p.queries@.len() == m.marks.len()
    &&& forall|j: int|
        0 <= j < m.marks.len() ==> (#[trigger] p.queries@[j]).0 == m.marks[j].kind
            && p.queries@[j].1 == mark_offset(m.kept, m.marks[j])
    &&& p.no_errors == m.no_errors
    &&& match m.cut {
        Some(n) => p.cut == Some(cut_offset(m.kept, n) as usize),
        None => p.cut is None,
    }
}

/// The start of every kept line, built once over the finished clean code.
fn line_start_table(s: &Scanned, Ghost(kept): Ghost<Seq<Seq<u8>>>) -> (r: Vec<usize>)
    requires
        s.code@ == join_lines(kept),
        s.line_lens@.len() == kept.len(),
        forall|t: int| 0 <= t < kept.len() ==> #[trigger] s.line_lens@[t] == kept[t].len(),
    ensures
        r@.len() == kept.len(),
        forall|t: int| 0 <= t < kept.len() ==> #[trigger] r@[t] == line_start(kept, t),
{
    let total = s.code.len();
    let n = s.line_lens.len();
    let mut r: Vec<usize> = Vec::new();
    if n == 0 {
        return r;
    }
    r.push(0);
    let mut t: usize = 0;
    while t + 1 < n
        invariant
            n == kept.len(),
            total == join_lines(kept).len(),
            s.line_lens@.len() == kept.len(),
            forall|u: int| 0 <= u < kept.len() ==> #[trigger] s.line_lens@[u] == kept[u].len(),
            t < n,
            r@.len() == t + 1,
            forall|u: int| 0 <= u <= t ==> #[trigger] r@[u] == line_start(kept, u),
        decreases n - t,
    {
        proof {
            lemma_line_end_within(kept, t as int);
        }
        let next = r[t] + s.line_lens[t] + 1;
        r.push(next);
        t = t + 1;
    }
    r
}

/// Resolves every marker to a byte offset, or names the first that cannot be.
fn resolve(s: &Scanned, starts: &Vec<usize>, Ghost(m): Ghost<ScanModel>) -> (r: Result<
    Vec<(QueryKind, usize)>,
    DirectiveError,
>)
    requires
        scanned_matches(*s, m),
        starts@.len() == m.kept.len(),
        forall|t: int| 0 <= t < m.kept.len() ==> #[trigger] starts@[t] == line_start(m.kept, t),
    ensures
        r is Err <==> has_out_of_range(m),
        r matches Err(e) ==> e == DirectiveError::PositionOutOfRange,
        r matches Ok(q) ==> q@.len() == m.marks.len() && forall|j: int|
            0 <= j < m.marks.len() ==> (#[trigger] q@[j]).0 == m.marks[j].kind && q@[j].1
                == mark_offset(m.kept, m.marks[j]),
{
    let mut out: Vec<(QueryKind, usize)> = Vec::new();
    let total = s.code.len();
    let mut j: usize = 0;
    while j < s.marks.len()
        invariant
            scanned_matches(*s, m),
            total == s.code@.len(),
            starts@.len() == m.kept.len(),
            forall|t: int| 0 <= t < m.kept.len() ==> #[trigger] starts@[t] == line_start(m.kept, t),
            j <= s.marks@.len(),
            out@.len() == j,
            forall|i: int| 0 <= i < j ==> in_range(m.kept, #[trigger] m.marks[i]),
            forall|i: int|
                0 <= i < j ==> (#[trigger] out@[i]).0 == m.marks[i].kind && out@[i].1
                    == mark_offset(m.kept, m.marks[i]),
        decreases s.marks@.len() - j,
    {
        let (kind, line, col) = s.marks[j];
        let ghost mk = m.marks[j as int];
        if line >= s.line_lens.len() || col > s.line_lens[line] {
            assert(!in_range(m.kept, m.marks[j as int]));
            return Err(DirectiveError::PositionOutOfRange);
        }
        proof {
            lemma_line_end_within(m.kept, line as int);
        }
        out.push((kind, starts[line] + col));
        j = j + 1;
    }
    Ok(out)
}


/// Relies on `String::from_utf8`: bytes that are valid UTF-8 become a string
/// holding exactly those bytes.
#[verifier::external_body]
fn string_from_utf8(v: Vec<u8>) -> (r: String)
    requires
        valid_utf8(v@),
    ensures
        encode_utf8(r@) == v@,
{
    String::from_utf8(v).unwrap()
}

/// Scans `src` line by line (lines end at `\n`, a `\r` before it is dropped):
/// directive lines are removed, the rest are joined by `\n` into the clean
/// code, and each marker is resolved to the byte offset in the clean code of
/// the column it names on the nearest code line above it.
pub fn find_queries(src: &str) -> (r: Result<ParseResult, DirectiveError>)
    ensures
        r is Err <==> has_malformed(scan_source(encode_utf8(src@))) || has_out_of_range(
            scan_source(encode_utf8(src@)),
        ),
        r matches Err(e) ==> (e == DirectiveError::MalformedDirective <==> has_malformed(
            scan_source(encode_utf8(src@)),
        )),
        r matches Ok(p) ==> parse_matches(p, scan_source(encode_utf8(src@))),
{
    let b = src.as_bytes();
    let ghost m = scan_source(b@);
    let s = match scan_bytes(b) {
        Ok(s) => s,
        Err(e) => {
            return Err(e);
        },
    };
    let starts = line_start_table(&s, Ghost(m.kept));
    let queries = match resolve(&s, &starts, Ghost(m)) {
        Ok(q) => q,
        Err(e) => {
            return Err(e);
        },
    };
    let cut = match s.cut {
        Some(n) => {
            if n < starts.len() {
                Some(starts[n])
            } else {
                Some(s.code.len())
            }
        },
        None => None,
    };
    proof {
        encode_utf8_valid_utf8(src@);
        assert(b@.subrange(0, b@.len() as int) =~= b@);
        crate::text::lemma_lines_valid(b@, 0);
        crate::scan::lemma_kept_keep(crate::text::lines_of(b@), |l: Seq<u8>| valid_utf8(l));
        crate::text::lemma_join_valid(m.kept);
    }
    let code = string_from_utf8(s.code);
    Ok(ParseResult { code, queries, no_errors: s.no_errors, cut })
}

} // verus!
