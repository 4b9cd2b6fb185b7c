//! The directive scanner: one pass over the source lines that drops the
//! directive lines, keeps the rest as the clean code, and resolves each marker
//! to a byte offset in that code.
use vstd::prelude::*;
use crate::pattern::{classify, classify_line, target_col, LineKind, QueryKind};
use crate::text::{find_nl, join_lines, line_start, lines_from, lines_of, next_nl, strip_cr, CR, NL};

verus! {

/// A marker as read from the source: what it asks, the clean line it points
/// at (negative when no code line precedes it) and the column on that line.
pub struct Mark {
    pub kind: QueryKind,
    pub line: int,
    pub col: int,
}

/// What the scan has gathered after a run of lines.
pub struct ScanModel {
    /// The code lines kept, in order.
    pub kept: Seq<Seq<u8>>,
    /// The markers met, in order.
    pub marks: Seq<Mark>,
    /// Whether a `@noErrors` pragma was met.
    pub no_errors: bool,
    /// The number of code lines kept before the last cut boundary, if any.
    pub cut: Option<nat>,
}

pub open spec fn empty_scan() -> ScanModel {
    ScanModel { kept: Seq::empty(), marks: Seq::empty(), no_errors: false, cut: None }
}

/// One line's effect on the scan. A marker points at the last code line kept.
pub open spec fn scan_step(m: ScanModel, l: Seq<u8>) -> ScanModel {
    match classify(l) {
        LineKind::Plain => ScanModel { kept: m.kept.push(l), ..m },
        LineKind::NoErrors => ScanModel { no_errors: true, ..m },
        LineKind::Cut => ScanModel { cut: Some(m.kept.len()), ..m },
        LineKind::Marker(kind, c) => ScanModel {
            marks: m.marks.push(
                Mark { kind, line: m.kept.len() - 1, col: target_col(kind, c as int) },
            ),
            ..m
        },
    }
}

/// The scan of a sequence of lines, top to bottom.
pub open spec fn scan_lines(ls: Seq<Seq<u8>>) -> ScanModel
    decreases ls.len(),
{
    if ls.len() == 0 {
        empty_scan()
    } else {
        scan_step(scan_lines(ls.drop_last()), ls.last())
    }
}

/// The scan of a source text.
pub open spec fn scan_source(b: Seq<u8>) -> ScanModel {
    scan_lines(lines_of(b))
}

/// The marker has no code line above it.
pub open spec fn malformed(mk: Mark) -> bool {
    mk.line < 0
}

/// The marker's line and column exist in the kept code.
pub open spec fn in_range(kept: Seq<Seq<u8>>, mk: Mark) -> bool {
    0 <= mk.line < kept.len() && 0 <= mk.col <= kept[mk.line].len()
}

/// Some marker of the scan has no code line above it.
pub open spec fn has_malformed(m: ScanModel) -> bool {
    exists|j: int| 0 <= j < m.marks.len() && malformed(#[trigger] m.marks[j])
}

/// Some marker of the scan points past the end of its line.
pub open spec fn has_out_of_range(m: ScanModel) -> bool {
    exists|j: int| 0 <= j < m.marks.len() && !in_range(m.kept, #[trigger] m.marks[j])
}

/// The byte offset in the clean code that a marker resolves to.
pub open spec fn mark_offset(kept: Seq<Seq<u8>>, mk: Mark) -> int {
    line_start(kept, mk.line) + mk.col
}

/// The byte offset in the clean code at which the text after the cut begins.
pub open spec fn cut_offset(kept: Seq<Seq<u8>>, n: nat) -> int {
    if n < kept.len() {
        line_start(kept, n as int)
    } else {
        join_lines(kept).len() as int
    }
}

/// Why a source cannot be scanned.
#[derive(Clone, Copy, Debug, PartialEq, Eq, Structural)]
pub enum DirectiveError {
    /// A marker stands above every line of code, so it points at no line.
    MalformedDirective,
    /// A marker points past the end of the line above it.
    PositionOutOfRange,
}

/// The scan of a source as bytes: clean code, markers by clean line and
/// column, the pragma flag and the cut boundary as a count of code lines.
pub struct Scanned {
    pub code: Vec<u8>,
    pub line_lens: Vec<usize>,
    pub marks: Vec<(QueryKind, usize, usize)>,
    pub no_errors: bool,
    pub cut: Option<usize>,
}

proof fn lemma_lines_from_unfold(b: Seq<u8>, i: int)
    requires
        0 <= i < b.len(),
    ensures
        next_nl(b, i) >= b.len() ==> lines_from(b, i) == seq![b.subrange(i, next_nl(b, i))],
        next_nl(b, i) < b.len() ==> lines_from(b, i) == seq![strip_cr(b.subrange(i, next_nl(b, i)))]
            + lines_from(b, next_nl(b, i) + 1),
{
    crate::text::lemma_next_nl_bounds(b, i);
}

fn copy_range(b: &[u8], s: usize, e: usize) -> (r: Vec<u8>)
    requires
        s <= e <= b@.len(),
    ensures
        r@ == b@.subrange(s as int, e as int),
{
    let mut r: Vec<u8> = Vec::new();
    let mut k: usize = s;
    while k < e
        invariant
            s <= k <= e <= b@.len(),
            r@ == b@.subrange(s as int, k as int),
        decreases e - k,
    {
        r.push(b[k]);
        k = k + 1;
        assert(r@ =~= b@.subrange(s as int, k as int));
    }
    r
}


/// The exec record of a scan agrees with the model.
pub open spec fn scanned_matches(s: Scanned, m: ScanModel) -> bool {
    &&& s.code@ == join_lines(m.kept)
    &&& s.line_lens@.len() == m.kept.len()
    &&& forall|t: int| 0 <= t < m.kept.len() ==> #[trigger] s.line_lens@[t] == m.kept[t].len()
    &&& s.marks@.len() == m.marks.len()
    &&& forall|j: int|
        0 <= j < m.marks.len() ==> {
            let mk = #[trigger] m.marks[j];
            &&& s.marks@[j].0 == mk.kind
            &&& s.marks@[j].1 == mk.line
            &&& s.marks@[j].2 == mk.col
        }
    &&& s.no_errors == m.no_errors
    &&& (s.cut matches Some(n) <==> m.cut matches Some(k)) && (s.cut matches Some(n) ==> m.cut
        == Some(n as nat))
}

/// The scan so far is recorded faithfully: `bad` tells whether a marker
/// stood above all code, and otherwise `s` agrees with the model.
pub open spec fn scan_inv(s: Scanned, bad: bool, done: Seq<Seq<u8>>) -> bool {
    &&& bad == has_malformed(scan_lines(done))
    &&& !bad ==> scanned_matches(s, scan_lines(done))
    &&& s.line_lens@.len() == scan_lines(done).kept.len()
}

fn append_line(code: &mut Vec<u8>, line: &Vec<u8>)
    ensures
        final(code)@ == old(code)@ + line@,
{
    let mut k: usize = 0;
    while k < line.len()
        invariant
            0 <= k <= line@.len(),
            code@ == old(code)@ + line@.subrange(0, k as int),
        decreases line@.len() - k,
    {
        code.push(line[k]);
        k = k + 1;
        assert(code@ =~= old(code)@ + line@.subrange(0, k as int));
    }
    assert(line@.subrange(0, line@.len() as int) =~= line@);
}

/// Takes one source line into the scan.
fn absorb(s: &mut Scanned, bad: &mut bool, line: &Vec<u8>, Ghost(done): Ghost<Seq<Seq<u8>>>)
    requires
        scan_inv(*old(s), *old(bad), done),
    ensures
        scan_inv(*final(s), *final(bad), done.push(line@)),
{
    let ghost l = line@;
    let ghost m = scan_lines(done);
    let ghost done2 = done.push(l);
    assert(done2.drop_last() =~= done);
    assert(scan_lines(done2) == scan_step(m, l));
    let ghost m2 = scan_lines(done2);
    let kind = classify_line(line.as_slice());
    match kind {
        LineKind::Plain => {
            if s.line_lens.len() > 0 {
                s.code.push(NL);
            }
            append_line(&mut s.code, line);
            s.line_lens.push(line.len());
            proof {
                assert(m2.marks == m.marks);
                assert(m2.kept.drop_last() =~= m.kept);
                if !*bad {
                    assert forall|t: int| 0 <= t < m2.kept.len() implies #[trigger] s.line_lens@[t]
                        == m2.kept[t].len() by {
                        if t < m.kept.len() {
                            assert(m2.kept[t] == m.kept[t]);
                        }
                    }
                    if m.kept.len() > 0 {
                        assert(s.code@ =~= join_lines(m.kept) + seq![NL] + l);
                    } else {
                        assert(s.code@ =~= l);
                    }
                }
            }
        },
        LineKind::NoErrors => {
            s.no_errors = true;
        },
        LineKind::Cut => {
            s.cut = Some(s.line_lens.len());
        },
        LineKind::Marker(qk, c) => {
            if s.line_lens.len() == 0 {
                *bad = true;
                assert(malformed(m2.marks[m2.marks.len() - 1]));
            } else {
                let col = match qk {
                    QueryKind::Query => c,
                    QueryKind::Completions => c - 1,
                };
                s.marks.push((qk, s.line_lens.len() - 1, col));
            }
            proof {
                assert forall|j: int| 0 <= j < m.marks.len() implies m2.marks[j] == m.marks[j] by {}
                if has_malformed(m) {
                    let j = choose|j: int| 0 <= j < m.marks.len() && malformed(#[trigger] m.marks[j]);
                    assert(m2.marks[j] == m.marks[j]);
                }
                if !*bad {
                    assert(!malformed(m2.marks[m2.marks.len() - 1]));
                }
            }
        },
    }
}

/// Splits the source into lines, drops the directive lines and records them.
pub fn scan_bytes(b: &[u8]) -> (r: Result<Scanned, DirectiveError>)
    ensures
        r matches Ok(s) ==> !has_malformed(scan_source(b@)) && scanned_matches(s, scan_source(b@)),
        r matches Err(e) ==> has_malformed(scan_source(b@)) && e == DirectiveError::MalformedDirective,
{
    let mut s = Scanned {
        code: Vec::new(),
        line_lens: Vec::new(),
        marks: Vec::new(),
        no_errors: false,
        cut: None,
    };
    let mut bad = false;
    let mut pos: usize = 0;
    let ghost mut done: Seq<Seq<u8>> = Seq::empty();
    let n = b.len();
    assert(done + lines_from(b@, 0) =~= lines_of(b@));
    assert(scan_lines(done) == empty_scan());
    while pos < n
        invariant
            n == b@.len(),
            pos <= n,
            done + lines_from(b@, pos as int) == lines_of(b@),
            scan_inv(s, bad, done),
        decreases n - pos,
    {
        let e = find_nl(b, pos);
        proof {
            crate::text::lemma_next_nl_bounds(b@, pos as int);
            lemma_lines_from_unfold(b@, pos as int);
        }
        let end = if e < n && e > pos && b[e - 1] == CR {
            e - 1
        } else {
            e
        };
        let line = copy_range(b, pos, end);
        proof {
            if e < n {
                assert(line@ =~= strip_cr(b@.subrange(pos as int, e as int)));
            }
        }
        absorb(&mut s, &mut bad, &line, Ghost(done));
        proof {
            done = done.push(line@);
        }
        if e < n {
            pos = e + 1;
        } else {
            pos = n;
            assert(lines_from(b@, n as int) =~= Seq::<Seq<u8>>::empty());
        }
        assert(done + lines_from(b@, pos as int) =~= lines_of(b@));
    }
    assert(lines_from(b@, pos as int) =~= Seq::<Seq<u8>>::empty());
    assert(done =~= lines_of(b@));
    if bad {
        Err(DirectiveError::MalformedDirective)
    } else {
        Ok(s)
    }
}


/// Every kept line is a plain line.
pub proof fn lemma_kept_plain(ls: Seq<Seq<u8>>)
    ensures
        forall|t: int|
            0 <= t < scan_lines(ls).kept.len() ==> classify(#[trigger] scan_lines(ls).kept[t])
                == LineKind::Plain,
    decreases ls.len(),
{
    if ls.len() > 0 {
        let p = ls.drop_last();
        lemma_kept_plain(p);
        lemma_kept_prefix(ls);
    }
}

/// What holds of every line holds of every kept line.
pub proof fn lemma_kept_keep(ls: Seq<Seq<u8>>, pred: spec_fn(Seq<u8>) -> bool)
    requires
        forall|k: int| 0 <= k < ls.len() ==> pred(#[trigger] ls[k]),
    ensures
        forall|t: int| 0 <= t < scan_lines(ls).kept.len() ==> pred(#[trigger] scan_lines(ls).kept[t]),
    decreases ls.len(),
{
    if ls.len() > 0 {
        let p = ls.drop_last();
        assert forall|k: int| 0 <= k < p.len() implies pred(#[trigger] p[k]) by {
            assert(p[k] == ls[k]);
        }
        lemma_kept_keep(p, pred);
        lemma_kept_prefix(ls);
        assert(pred(ls[ls.len() - 1]));
    }
}

proof fn lemma_kept_prefix(ls: Seq<Seq<u8>>)
    requires
        ls.len() > 0,
    ensures
        ({
            let m = scan_lines(ls.drop_last());
            let m2 = scan_lines(ls);
            &&& classify(ls.last()) == LineKind::Plain ==> m2.kept == m.kept.push(ls.last())
            &&& classify(ls.last()) != LineKind::Plain ==> m2.kept == m.kept
        }),
{
}

} // verus!
