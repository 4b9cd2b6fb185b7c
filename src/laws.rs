//! What holds of every scan, stated over the scan model that the contract of
//! `find_queries` speaks of.
use vstd::prelude::*;
use vstd::utf8::{
    is_char_boundary, is_char_boundary_iff_not_is_continuation_byte,
    is_char_boundary_start_end_of_seq, valid_utf8,
};
use crate::assemble::{shift_answer, visible_queries, Answer, QueryResult};
use crate::result::{column_at, line_at};
use crate::pattern::{
    classify, is_directive, lemma_plain_without_cr, target_col, LineKind, QueryKind,
};
use crate::scan::{
    cut_offset, in_range, lemma_kept_keep, lemma_kept_plain, mark_offset, scan_lines, scan_source,
    scan_step,
};
use crate::text::{
    join_lines, lemma_join_index, lemma_join_len, lemma_line_end_within, lemma_line_start_prefix,
    lemma_lines_no_nl, lemma_lines_of_join, line_start, lines_of, no_nl, relined, CR, NL,
};

verus! {

/// The number of directive lines among `ls`.
pub open spec fn directive_count(ls: Seq<Seq<u8>>) -> nat
    decreases ls.len(),
{
    if ls.len() == 0 {
        0
    } else {
        directive_count(ls.drop_last()) + if is_directive(ls.last()) {
            1nat
        } else {
            0nat
        }
    }
}

/// The index, among the markers, of the marker on source line `n`.
pub open spec fn marker_index(ls: Seq<Seq<u8>>, n: int) -> int {
    scan_lines(ls.take(n)).marks.len() as int
}

/// The scan of a run of lines extends the scan of each of its prefixes.
pub proof fn lemma_scan_prefix(ls: Seq<Seq<u8>>, i: int)
    requires
        0 <= i <= ls.len(),
    ensures
        ({
            let a = scan_lines(ls.take(i));
            let z = scan_lines(ls);
            &&& a.kept.len() <= z.kept.len()
            &&& a.marks.len() <= z.marks.len()
            &&& forall|t: int| 0 <= t < a.kept.len() ==> #[trigger] z.kept[t] == a.kept[t]
            &&& forall|j: int| 0 <= j < a.marks.len() ==> #[trigger] z.marks[j] == a.marks[j]
        }),
    decreases ls.len(),
{
    if i == ls.len() {
        assert(ls.take(i) =~= ls);
    } else {
        let p = ls.drop_last();
        lemma_scan_prefix(p, i);
        assert(p.take(i) =~= ls.take(i));
        let m = scan_lines(p);
        let z = scan_lines(ls);
        assert(z == scan_step(m, ls.last()));
        assert forall|t: int| 0 <= t < m.kept.len() implies #[trigger] z.kept[t] == m.kept[t] by {
            if classify(ls.last()) == LineKind::Plain {
                assert(z.kept == m.kept.push(ls.last()));
            }
        }
        assert forall|j: int| 0 <= j < m.marks.len() implies #[trigger] z.marks[j] == m.marks[j] by {
            if classify(ls.last()) is Marker {
                assert(z.marks[j] == m.marks[j]);
            }
        }
    }
}

/// No line of the clean code is a directive: split into lines again, the
/// clean code holds only lines that read as plain code.
pub proof fn lemma_clean_code_has_no_directive(b: Seq<u8>)
    ensures
        forall|k: int|
            0 <= k < lines_of(join_lines(scan_source(b).kept)).len() ==> !is_directive(
                #[trigger] lines_of(join_lines(scan_source(b).kept))[k],
            ),
{
    let kept = scan_source(b).kept;
    lemma_lines_no_nl(b, 0);
    lemma_kept_keep(lines_of(b), |l: Seq<u8>| no_nl(l));
    lemma_kept_plain(lines_of(b));
    lemma_lines_of_join(kept);
    lemma_relined_plain(kept);
}

proof fn lemma_relined_plain(ls: Seq<Seq<u8>>)
    requires
        forall|t: int| 0 <= t < ls.len() ==> classify(#[trigger] ls[t]) == LineKind::Plain,
    ensures
        forall|k: int| 0 <= k < relined(ls).len() ==> classify(#[trigger] relined(ls)[k])
            == LineKind::Plain,
    decreases ls.len(),
{
    if ls.len() >= 2 {
        let r = ls.drop_first();
        assert forall|t: int| 0 <= t < r.len() implies classify(#[trigger] r[t]) == LineKind::Plain by {
            assert(r[t] == ls[t + 1]);
        }
        lemma_relined_plain(r);
        let l = ls[0];
        assert(classify(l) == LineKind::Plain);
        if l.len() > 0 && l.last() == CR {
            assert(l =~= l.drop_last().push(13u8));
            lemma_plain_without_cr(l.drop_last());
        }
        let v = relined(ls);
        assert forall|k: int| 0 <= k < v.len() implies classify(#[trigger] v[k]) == LineKind::Plain by {
            if k > 0 {
                assert(v[k] == relined(r)[k - 1]);
            }
        }
    } else if ls.len() == 1 {
        assert(classify(ls[0]) == LineKind::Plain);
    }
}

proof fn lemma_relined_same(ls: Seq<Seq<u8>>)
    requires
        ls.len() > 0 ==> ls.last().len() > 0,
        forall|t: int| 0 <= t < ls.len() - 1 ==> !ends_with_cr(#[trigger] ls[t]),
    ensures
        relined(ls) == ls,
    decreases ls.len(),
{
    if ls.len() >= 2 {
        let r = ls.drop_first();
        assert forall|t: int| 0 <= t < r.len() - 1 implies !ends_with_cr(#[trigger] r[t]) by {
            assert(r[t] == ls[t + 1]);
        }
        assert(r.last() == ls.last());
        lemma_relined_same(r);
        assert(!ends_with_cr(ls[0]));
        assert(relined(ls) =~= ls);
    } else if ls.len() == 1 {
        assert(relined(ls) =~= ls);
    }
}

/// The line ends with a carriage return.
pub open spec fn ends_with_cr(l: Seq<u8>) -> bool {
    l.len() > 0 && l.last() == CR
}

/// The kept lines number the source lines less the directive lines.
pub proof fn lemma_kept_line_count(ls: Seq<Seq<u8>>)
    ensures
        scan_lines(ls).kept.len() == ls.len() - directive_count(ls),
    decreases ls.len(),
{
    if ls.len() > 0 {
        lemma_kept_line_count(ls.drop_last());
    }
}

/// Split into lines again, the clean code has as many lines as the source
/// less its directive lines. This needs the last kept line to be non-empty
/// (else the joined text ends in a line feed that opens no line) and no kept
/// line before it to end in a carriage return (else the split drops it).
pub proof fn lemma_line_count(b: Seq<u8>)
    requires
        scan_source(b).kept.len() > 0 ==> scan_source(b).kept.last().len() > 0,
        forall|t: int|
            0 <= t < scan_source(b).kept.len() - 1 ==> !ends_with_cr(
                #[trigger] scan_source(b).kept[t],
            ),
    ensures
        lines_of(join_lines(scan_source(b).kept)).len() == lines_of(b).len() - directive_count(
            lines_of(b),
        ),
{
    let kept = scan_source(b).kept;
    lemma_lines_no_nl(b, 0);
    lemma_kept_keep(lines_of(b), |l: Seq<u8>| no_nl(l));
    lemma_lines_of_join(kept);
    lemma_relined_same(kept);
    lemma_kept_line_count(lines_of(b));
}

/// A marker right under a code line resolves to an offset in the clean code
/// that holds the byte found at the marker's target column on that line of
/// the source, whatever directive lines stood earlier. The target column is
/// the caret's column for a hover and the one before it for completions.
pub proof fn lemma_offset_points_at_source(ls: Seq<Seq<u8>>, n: int)
    requires
        1 <= n < ls.len(),
        ls[n].len() <= usize::MAX,
        classify(ls[n]) is Marker,
        classify(ls[n - 1]) == LineKind::Plain,
        target_col(classify(ls[n])->Marker_0, classify(ls[n])->Marker_1 as int) < ls[n - 1].len(),
    ensures
        ({
            let m = scan_lines(ls);
            let j = marker_index(ls, n);
            let col = target_col(classify(ls[n])->Marker_0, classify(ls[n])->Marker_1 as int);
            &&& 0 <= j < m.marks.len()
            &&& m.marks[j].kind == classify(ls[n])->Marker_0
            &&& m.marks[j].col == col
            &&& in_range(m.kept, m.marks[j])
            &&& 0 <= mark_offset(m.kept, m.marks[j]) < join_lines(m.kept).len()
            &&& join_lines(m.kept)[mark_offset(m.kept, m.marks[j])] == ls[n - 1][col]
        }),
{
    let m = scan_lines(ls);
    let a = scan_lines(ls.take(n - 1));
    let p = scan_lines(ls.take(n));
    let q = scan_lines(ls.take(n + 1));
    assert(ls.take(n).drop_last() =~= ls.take(n - 1));
    assert(ls.take(n + 1).drop_last() =~= ls.take(n));
    assert(p == scan_step(a, ls[n - 1]));
    assert(q == scan_step(p, ls[n]));
    let kind = classify(ls[n])->Marker_0;
    let c = classify(ls[n])->Marker_1;
    let t = p.kept.len() - 1;
    assert(p.kept[t] == ls[n - 1]);
    assert(q.kept == p.kept);
    let j = p.marks.len() as int;
    assert(q.marks[j].line == t);
    lemma_scan_prefix(ls, n + 1);
    assert(m.marks[j] == q.marks[j]);
    assert(m.kept[t] == q.kept[t]);
    let col = target_col(kind, c as int);
    crate::pattern::lemma_marker_caret(ls[n]);
    lemma_join_index(m.kept, t, col);
    crate::text::lemma_line_start_mono(m.kept, 0, t);
}

/// Markers keep their source order: of two marker lines, the upper one has
/// the smaller index among the resolved queries.
pub proof fn lemma_queries_in_source_order(ls: Seq<Seq<u8>>, n1: int, n2: int)
    requires
        0 <= n1 < n2 < ls.len(),
        classify(ls[n1]) is Marker,
        classify(ls[n2]) is Marker,
    ensures
        0 <= marker_index(ls, n1) < marker_index(ls, n2) < scan_lines(ls).marks.len(),
{
    let s1 = ls.take(n2);
    let s2 = ls.take(n2 + 1);
    lemma_scan_prefix(s1, n1 + 1);
    assert(s1.take(n1 + 1) =~= ls.take(n1 + 1));
    assert(ls.take(n1 + 1).drop_last() =~= ls.take(n1));
    assert(s2.drop_last() =~= s1);
    lemma_scan_prefix(ls, n2 + 1);
}

/// The code shown after a cut holds nothing from before it: from the cut
/// offset on, the clean code is exactly the kept lines after the cut, joined.
pub proof fn lemma_display_after_cut(kept: Seq<Seq<u8>>, n: nat)
    requires
        n <= kept.len(),
    ensures
        cut_offset(kept, n) <= join_lines(kept).len(),
        join_lines(kept).subrange(cut_offset(kept, n), join_lines(kept).len() as int) == join_lines(
            kept.subrange(n as int, kept.len() as int),
        ),
    decreases kept.len(),
{
    let j = join_lines(kept);
    if n == kept.len() {
        assert(j.subrange(j.len() as int, j.len() as int) =~= join_lines(
            kept.subrange(n as int, kept.len() as int),
        ));
    } else {
        lemma_line_end_within(kept, n as int);
        let tail = kept.subrange(n as int, kept.len() as int);
        if kept.len() == 1 {
            assert(tail =~= kept);
            assert(j.subrange(0, j.len() as int) =~= j);
        } else {
            let p = kept.drop_last();
            assert(j == join_lines(p) + seq![NL] + kept.last());
            lemma_join_len(p);
            if n as int == kept.len() - 1 {
                lemma_line_start_prefix(kept, p, n as int - 1);
                assert(tail =~= seq![kept.last()]);
                if n > 0 {
                    assert(line_start(kept, n as int) == join_lines(p).len() + 1);
                }
                assert(j.subrange(cut_offset(kept, n), j.len() as int) =~= kept.last());
            } else {
                lemma_display_after_cut(p, n);
                lemma_line_start_prefix(kept, p, n as int);
                let pt = p.subrange(n as int, p.len() as int);
                assert(tail.drop_last() =~= pt);
                assert(join_lines(tail) == join_lines(pt) + seq![NL] + tail.last());
                lemma_line_end_within(p, n as int);
                crate::text::lemma_line_start_mono(kept, 0, n as int);
                assert(cut_offset(kept, n) == cut_offset(p, n));
                assert(j.subrange(cut_offset(kept, n), j.len() as int) =~= join_lines(p).subrange(
                    cut_offset(p, n),
                    join_lines(p).len() as int,
                ) + seq![NL] + kept.last());
            }
        }
    }
}

/// The cut offset of valid UTF-8 lines falls on a character boundary, so the
/// code after it can always be shown.
pub proof fn lemma_cut_is_char_boundary(kept: Seq<Seq<u8>>, n: nat)
    requires
        n <= kept.len(),
        forall|k: int| 0 <= k < kept.len() ==> valid_utf8(#[trigger] kept[k]),
    ensures
        is_char_boundary(join_lines(kept), cut_offset(kept, n)),
{
    let j = join_lines(kept);
    crate::text::lemma_join_valid(kept);
    is_char_boundary_start_end_of_seq(j);
    lemma_display_after_cut(kept, n);
    if n < kept.len() && n > 0 && cut_offset(kept, n) < j.len() {
        let o = line_start(kept, n as int);
        crate::text::lemma_line_start_mono(kept, 0, n as int);
        if kept[n as int].len() > 0 {
            lemma_join_index(kept, n as int, 0);
            is_char_boundary_start_end_of_seq(kept[n as int]);
            is_char_boundary_iff_not_is_continuation_byte(kept[n as int], 0);
        } else {
            lemma_join_len(kept);
            if n as int == kept.len() - 1 {
                assert(false);
            }
            crate::text::lemma_join_sep(kept, n as int);
        }
        is_char_boundary_iff_not_is_continuation_byte(j, o);
    }
}

/// Without a cut, the result lists every query that lies in the code, in
/// source order, each with the answer placed for it.
pub proof fn lemma_result_keeps_query_order(
    qs: Seq<(QueryKind, usize)>,
    slots: Seq<Option<Answer>>,
    shown: Seq<u8>,
)
    requires
        slots.len() == qs.len(),
        forall|j: int| 0 <= j < qs.len() ==> #[trigger] qs[j].1 <= shown.len(),
    ensures
        visible_queries(qs, slots, None, shown).len() == qs.len(),
        forall|j: int|
            0 <= j < qs.len() ==> #[trigger] visible_queries(qs, slots, None, shown)[j] == (
            QueryResult {
                kind: qs[j].0,
                offset: qs[j].1,
                line: line_at(shown, qs[j].1),
                character: column_at(shown, qs[j].1),
                answer: shift_answer(slots[j], None, shown),
            }),
{
    lemma_result_keeps_query_order_prefix(qs, slots, shown);
}

proof fn lemma_result_keeps_query_order_prefix(
    qs: Seq<(QueryKind, usize)>,
    slots: Seq<Option<Answer>>,
    shown: Seq<u8>,
)
    requires
        qs.len() <= slots.len(),
        forall|j: int| 0 <= j < qs.len() ==> #[trigger] qs[j].1 <= shown.len(),
    ensures
        visible_queries(qs, slots, None, shown).len() == qs.len(),
        forall|j: int|
            0 <= j < qs.len() ==> #[trigger] visible_queries(qs, slots, None, shown)[j] == (
            QueryResult {
                kind: qs[j].0,
                offset: qs[j].1,
                line: line_at(shown, qs[j].1),
                character: column_at(shown, qs[j].1),
                answer: shift_answer(slots[j], None, shown),
            }),
    decreases qs.len(),
{
    if qs.len() > 0 {
        let p = qs.drop_last();
        assert forall|j: int| 0 <= j < p.len() implies #[trigger] p[j].1 <= shown.len() by {
            assert(p[j] == qs[j]);
        }
        lemma_result_keeps_query_order_prefix(p, slots, shown);
        let v = visible_queries(qs, slots, None, shown);
        assert(qs[qs.len() - 1].1 <= shown.len());
        assert forall|j: int| 0 <= j < qs.len() implies #[trigger] v[j] == (QueryResult {
            kind: qs[j].0,
            offset: qs[j].1,
            line: line_at(shown, qs[j].1),
            character: column_at(shown, qs[j].1),
            answer: shift_answer(slots[j], None, shown),
        }) by {
            if j < p.len() {
                assert(p[j] == qs[j]);
            }
        }
    }
}

} // verus!
