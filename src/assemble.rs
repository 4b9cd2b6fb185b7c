//! The result document: clean display code, hover data, the answers to the
//! queries in source order, and the diagnostics that are to be reported.
use vstd::prelude::*;
use vstd::utf8::{encode_utf8, is_char_boundary};
use crate::pattern::QueryKind;
use crate::query_parser::ParseResult;
use crate::result::{
    column_at, display_code, line_at, locate, place, visible_diagnostics, visible_errors,
    visible_infos, visible_quick_infos, Diagnostic, QuickInfo,
};

verus! {

/// What the analysis backend answered to one query, placed in compiled code.
pub enum Answer {
    /// Hover text, absent where the backend has none, and the token's span.
    Hover { text: Option<String>, start: usize, length: usize },
    /// The completion candidates in order, and the prefix already typed.
    Completions { names: Vec<String>, prefix: String },
}

/// One query of the result: its kind, its offset in the displayed code with
/// the line and column there, and the backend's answer, absent where the
/// backend gave none.
pub struct QueryResult {
    pub kind: QueryKind,
    pub offset: usize,
    pub line: usize,
    pub character: usize,
    pub answer: Option<Answer>,
}

/// Everything one annotated snippet turns into.
pub struct ResultDocument {
    pub code: String,
    pub extension: String,
    pub highlights: Vec<(usize, usize)>,
    pub static_quick_infos: Vec<QuickInfo>,
    pub queries: Vec<QueryResult>,
    pub tags: Vec<String>,
    pub errors: Vec<Diagnostic>,
    pub playground_url: String,
}

/// The first answer given for query `i`, if any.
pub open spec fn answer_for(answers: Seq<(usize, Answer)>, i: int) -> Option<Answer>
    decreases answers.len(),
{
    if answers.len() == 0 {
        None
    } else if answers[0].0 == i {
        Some(answers[0].1)
    } else {
        answer_for(answers.drop_first(), i)
    }
}

/// An answer moved to display offsets; a hover on a token outside the
/// displayed text is dropped.
pub open spec fn shift_answer(a: Option<Answer>, cut: Option<usize>, shown: Seq<u8>) -> Option<
    Answer,
> {
    match a {
        Some(Answer::Hover { text, start, length }) => match place(start, cut, shown) {
            Some(s) => Some(Answer::Hover { text, start: s, length }),
            None => None,
        },
        other => other,
    }
}

/// The queries in the displayed text `shown`, in source order, each placed
/// there and with its answer.
pub open spec fn visible_queries(
    qs: Seq<(QueryKind, usize)>,
    slots: Seq<Option<Answer>>,
    cut: Option<usize>,
    shown: Seq<u8>,
) -> Seq<QueryResult>
    decreases qs.len(),
{
    if qs.len() == 0 {
        Seq::empty()
    } else {
        let rest = visible_queries(qs.drop_last(), slots, cut, shown);
        let j = qs.len() - 1;
        match place(qs[j].1, cut, shown) {
            Some(o) => rest.push(
                QueryResult {
                    kind: qs[j].0,
                    offset: o,
                    line: line_at(shown, o),
                    character: column_at(shown, o),
                    answer: shift_answer(slots[j], cut, shown),
                },
            ),
            None => rest,
        }
    }
}

/// Puts answers that came in any order, each tagged with the index of its
/// query, back in query order. Query `i` gets the first answer tagged `i`.
pub fn place_answers(n: usize, answers: Vec<(usize, Answer)>) -> (r: Vec<Option<Answer>>)
    ensures
        r@.len() == n,
        forall|i: int| 0 <= i < n ==> #[trigger] r@[i] == answer_for(answers@, i),
{
    let ghost all = answers@;
    let mut rest = answers;
    let mut slots: Vec<Option<Answer>> = Vec::new();
    let mut k: usize = 0;
    while k < n
        invariant
            k <= n,
            slots@.len() == k,
            forall|i: int| 0 <= i < k ==> #[trigger] slots@[i] is None,
        decreases n - k,
    {
        slots.push(None);
        k = k + 1;
    }
    assert(all.subrange(all.len() as int, all.len() as int) =~= Seq::<(usize, Answer)>::empty());
    while rest.len() > 0
        invariant
            rest@ == all.take(rest@.len() as int),
            rest@.len() <= all.len(),
            slots@.len() == n,
            forall|i: int|
                0 <= i < n ==> #[trigger] slots@[i] == answer_for(
                    all.subrange(rest@.len() as int, all.len() as int),
                    i,
                ),
        decreases rest@.len(),
    {
        let ghost k0 = rest@.len() as int;
        let (i, a) = rest.pop().unwrap();
        let ghost suffix = all.subrange(k0 - 1, all.len() as int);
        assert(suffix.drop_first() =~= all.subrange(k0, all.len() as int));
        assert(suffix[0] == all[k0 - 1]);
        assert(rest@ =~= all.take(k0 - 1));
        if i < n {
            slots[i] = Some(a);
        }
    }
    assert(all.subrange(0, all.len() as int) =~= all);
    slots
}

/// Builds the result document from a scan and the backend's answers: the code
/// after the cut, the hover data and queries after it at display offsets, and
/// the diagnostics after it unless the `@noErrors` pragma was given.
/// `None` if the scan's cut is not a character boundary of its code.
pub fn assemble(
    parse: &ParseResult,
    infos: &Vec<QuickInfo>,
    answers: Vec<(usize, Answer)>,
    diags: &Vec<Diagnostic>,
) -> (r: Option<ResultDocument>)
    ensures
        r is Some <==> (parse.cut matches Some(n) ==> is_char_boundary(
            encode_utf8(parse.code@),
            n as int,
        )),
        r matches Some(d) ==> {
            &&& parse.cut is None ==> d.code@ == parse.code@
            &&& parse.cut matches Some(n) ==> encode_utf8(d.code@) == encode_utf8(
                parse.code@,
            ).subrange(n as int, encode_utf8(parse.code@).len() as int)
            &&& d.extension@ == seq!['.', 'r', 's']
            &&& d.highlights@.len() == 0
            &&& d.tags@.len() == 0
            &&& d.static_quick_infos@ == visible_infos(infos@, parse.cut, encode_utf8(d.code@))
            &&& d.queries@ == visible_queries(
                parse.queries@,
                Seq::new(parse.queries@.len(), |j: int| answer_for(answers@, j)),
                parse.cut,
                encode_utf8(d.code@),
            )
            &&& parse.no_errors ==> d.errors@.len() == 0
            &&& !parse.no_errors ==> d.errors@ == visible_diagnostics(
                diags@,
                parse.cut,
                encode_utf8(d.code@),
            )
            &&& d.playground_url@ == playground_url_spec()
        },
{
    let code = match display_code(parse.code.as_str(), parse.cut) {
        Some(c) => c,
        None => {
            return None;
        },
    };
    let shown = code.as_str().as_bytes();
    let ghost all = answers@;
    let n = parse.queries.len();
    let mut slots = place_answers(n, answers);
    let ghost placed = slots@;
    assert(placed =~= Seq::new(n as nat, |j: int| answer_for(all, j)));
    let mut queries: Vec<QueryResult> = Vec::new();
    let mut j: usize = 0;
    while j < n
        invariant
            n == parse.queries@.len(),
            j <= n,
            slots@.len() == n,
            forall|i: int| j <= i < n ==> #[trigger] slots@[i] == placed[i],
            placed.len() == n,
            shown@ == encode_utf8(code@),
            queries@ == visible_queries(parse.queries@.take(j as int), placed, parse.cut, shown@),
        decreases n - j,
    {
        let (kind, offset) = parse.queries[j];
        let mut taken: Option<Answer> = None;
        std::mem::swap(&mut slots[j], &mut taken);
        assert(parse.queries@.take(j + 1).drop_last() =~= parse.queries@.take(j as int));
        if let Some((o, line, character)) = locate(offset, parse.cut, shown) {
            let answer = match taken {
                Some(Answer::Hover { text, start, length }) => match locate(start, parse.cut, shown) {
                    Some((s, _, _)) => Some(Answer::Hover { text, start: s, length }),
                    None => None,
                },
                other => other,
            };
            queries.push(QueryResult { kind, offset: o, line, character, answer });
        }
        j = j + 1;
    }
    assert(parse.queries@.take(n as int) =~= parse.queries@);
    let static_quick_infos = visible_quick_infos(infos, parse.cut, code.as_str());
    let errors = visible_errors(diags, parse.no_errors, parse.cut, code.as_str());
    Some(
        ResultDocument {
            code,
            extension: extension_rs(),
            highlights: Vec::new(),
            static_quick_infos,
            queries,
            tags: Vec::new(),
            errors,
            playground_url: playground_url(),
        },
    )
}

/// The playground address attached to every result.
pub open spec fn playground_url_spec() -> Seq<char> {
    seq!['h', 't', 't', 'p', 's', ':', '/', '/', 'p', 'l', 'a', 'y', '.', 'r', 'u', 's', 't', '-', 'l', 'a', 'n', 'g', '.', 'o', 'r', 'g']
}

fn extension_rs() -> (r: String)
    ensures
        r@ == seq!['.', 'r', 's'],
{
    let s = ".rs";
    proof {
        reveal_strlit(".rs");
    }
    s.to_owned()
}

fn playground_url() -> (r: String)
    ensures
        r@ == playground_url_spec(),
{
    let s = "https://play.rust-lang.org";
    proof {
        reveal_strlit("https://play.rust-lang.org");
    }
    let r = s.to_owned();
    assert(r@ =~= playground_url_spec());
    r
}

} // verus!
