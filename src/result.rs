//! Assembly of what is shown: the code after the cut boundary, and backend
//! answers moved from compiled-code offsets to display offsets.
use vstd::prelude::*;
use vstd::utf8::{encode_utf8, is_char_boundary};
use crate::text::{line_begin, line_of, position_of};

verus! {

/// One message of the analysis backend, placed by a byte span, and by the
/// line and column of its start once it is shown.
pub struct Diagnostic {
    pub rendered_message: String,
    pub id: String,
    pub category: String,
    pub code: u32,
    pub start: usize,
    pub length: usize,
    pub line: usize,
    pub character: usize,
}

/// Hover information on one token, placed by a byte span, and by the line and
/// column of its start once it is shown.
pub struct QuickInfo {
    pub target: String,
    pub text: String,
    pub start: usize,
    pub length: usize,
    pub line: usize,
    pub character: usize,
}

/// Where an offset of the compiled code lands in the displayed code: shifted
/// back by the cut, and nowhere if it lies before the cut.
pub open spec fn shift_offset(offset: usize, cut: Option<usize>) -> Option<usize> {
    match cut {
        None => Some(offset),
        Some(c) => if offset >= c {
            Some((offset - c) as usize)
        } else {
            None
        },
    }
}

/// Where an offset of the compiled code lands in the displayed text `text`:
/// nowhere if it lies before the cut or past the end of the text.
pub open spec fn place(offset: usize, cut: Option<usize>, text: Seq<u8>) -> Option<usize> {
    match shift_offset(offset, cut) {
        Some(s) => if s <= text.len() {
            Some(s)
        } else {
            None
        },
        None => None,
    }
}

/// The line of a display offset.
pub open spec fn line_at(text: Seq<u8>, s: usize) -> usize {
    line_of(text, s as int) as usize
}

/// The column of a display offset.
pub open spec fn column_at(text: Seq<u8>, s: usize) -> usize {
    (s - line_begin(text, s as int)) as usize
}

/// The diagnostics that start in the displayed text, moved to display
/// offsets and given their line and column there, in order.
pub open spec fn visible_diagnostics(ds: Seq<Diagnostic>, cut: Option<usize>, text: Seq<u8>) -> Seq<
    Diagnostic,
>
    decreases ds.len(),
{
    if ds.len() == 0 {
        Seq::empty()
    } else {
        let rest = visible_diagnostics(ds.drop_last(), cut, text);
        match place(ds.last().start, cut, text) {
            Some(s) => rest.push(
                Diagnostic {
                    start: s,
                    line: line_at(text, s),
                    character: column_at(text, s),
                    ..ds.last()
                },
            ),
            None => rest,
        }
    }
}

/// The hover data on tokens in the displayed text, moved to display offsets
/// and given their line and column there, in order.
pub open spec fn visible_infos(qs: Seq<QuickInfo>, cut: Option<usize>, text: Seq<u8>) -> Seq<
    QuickInfo,
>
    decreases qs.len(),
{
    if qs.len() == 0 {
        Seq::empty()
    } else {
        let rest = visible_infos(qs.drop_last(), cut, text);
        match place(qs.last().start, cut, text) {
            Some(s) => rest.push(
                QuickInfo {
                    start: s,
                    line: line_at(text, s),
                    character: column_at(text, s),
                    ..qs.last()
                },
            ),
            None => rest,
        }
    }
}

/// Moves an offset of the compiled code to the displayed code.
pub fn display_offset(offset: usize, cut: Option<usize>) -> (r: Option<usize>)
    ensures
        r == shift_offset(offset, cut),
{
    match cut {
        None => Some(offset),
        Some(c) => if offset >= c {
            Some(offset - c)
        } else {
            None
        },
    }
}

/// Places an offset of the compiled code in the displayed text: its display
/// offset, line and column.
pub fn locate(offset: usize, cut: Option<usize>, text: &[u8]) -> (r: Option<(usize, usize, usize)>)
    ensures
        r is Some <==> place(offset, cut, text@) is Some,
        r matches Some(p) ==> place(offset, cut, text@) == Some(p.0) && p.1 == line_at(text@, p.0)
            && p.2 == column_at(text@, p.0),
{
    match display_offset(offset, cut) {
        Some(s) => if s <= text.len() {
            let (line, character) = position_of(text, s);
            Some((s, line, character))
        } else {
            None
        },
        None => None,
    }
}

/// The diagnostics to report: none under the `@noErrors` pragma, else those
/// that start in the displayed text `display`, placed there.
pub fn visible_errors(diags: &Vec<Diagnostic>, no_errors: bool, cut: Option<usize>, display: &str) -> (r:
    Vec<Diagnostic>)
    ensures
        no_errors ==> r@.len() == 0,
        !no_errors ==> r@ == visible_diagnostics(diags@, cut, encode_utf8(display@)),
{
    let text = display.as_bytes();
    let mut out: Vec<Diagnostic> = Vec::new();
    if no_errors {
        return out;
    }
    let mut i: usize = 0;
    while i < diags.len()
        invariant
            i <= diags@.len(),
            text@ == encode_utf8(display@),
            out@ == visible_diagnostics(diags@.take(i as int), cut, text@),
        decreases diags@.len() - i,
    {
        let d = &diags[i];
        assert(diags@.take(i + 1).drop_last() =~= diags@.take(i as int));
        if let Some((s, line, character)) = locate(d.start, cut, text) {
            out.push(
                Diagnostic {
                    rendered_message: d.rendered_message.clone(),
                    id: d.id.clone(),
                    category: d.category.clone(),
                    code: d.code,
                    start: s,
                    length: d.length,
                    line,
                    character,
                },
            );
        }
        i = i + 1;
    }
    assert(diags@.take(i as int) =~= diags@);
    out
}

/// The hover data to show: that on tokens in the displayed text `display`,
/// placed there.
pub fn visible_quick_infos(infos: &Vec<QuickInfo>, cut: Option<usize>, display: &str) -> (r: Vec<
    QuickInfo,
>)
    ensures
        r@ == visible_infos(infos@, cut, encode_utf8(display@)),
{
    let text = display.as_bytes();
    let mut out: Vec<QuickInfo> = Vec::new();
    let mut i: usize = 0;
    while i < infos.len()
        invariant
            i <= infos@.len(),
            text@ == encode_utf8(display@),
            out@ == visible_infos(infos@.take(i as int), cut, text@),
        decreases infos@.len() - i,
    {
        let q = &infos[i];
        assert(infos@.take(i + 1).drop_last() =~= infos@.take(i as int));
        if let Some((s, line, character)) = locate(q.start, cut, text) {
            out.push(
                QuickInfo {
                    target: q.target.clone(),
                    text: q.text.clone(),
                    start: s,
                    length: q.length,
                    line,
                    character,
                },
            );
        }
        i = i + 1;
    }
    assert(infos@.take(i as int) =~= infos@);
    out
}

/// The code to display: all of it without a cut, else the part after the cut.
/// `None` if the cut is not a character boundary of the code.
pub fn display_code(code: &str, cut: Option<usize>) -> (r: Option<String>)
    ensures
        cut is None ==> (r matches Some(s) && s@ == code@),
        cut matches Some(n) ==> (r is Some <==> is_char_boundary(encode_utf8(code@), n as int)),
        cut matches Some(n) ==> (r matches Some(s) ==> encode_utf8(s@) == encode_utf8(
            code@,
        ).subrange(n as int, encode_utf8(code@).len() as int)),
{
    match cut {
        None => Some(code.to_owned()),
        Some(n) => {
            if code.is_char_boundary(n) {
                let (_, after) = code.split_at(n);
                Some(after.to_owned())
            } else {
                None
            }
        },
    }
}

} // verus!
