//! The grammar of directive lines. A directive is a line comment whose body is
//! a caret marker (`^?` or `^|`), the `@noErrors` pragma or the `---cut---`
//! boundary. Whitespace is Unicode `White_Space`, read from UTF-8 bytes.
use vstd::prelude::*;

verus! {

/// What an answer to a marker asks of the analysis backend.
#[derive(Clone, Copy, Debug, PartialEq, Eq, Structural)]
pub enum QueryKind {
    /// Hover information on the character under the caret.
    Query,
    /// Completions at the cursor just after the character left of the caret.
    Completions,
}

/// How one source line is read.
#[derive(Clone, Copy, Debug, PartialEq, Eq, Structural)]
pub enum LineKind {
    /// Ordinary code, kept as it is.
    Plain,
    /// The `@noErrors` pragma.
    NoErrors,
    /// The `---cut---` boundary.
    Cut,
    /// A caret marker, with the byte column of its caret.
    Marker(QueryKind, usize),
}

/// Length of the UTF-8 encoding of a `White_Space` character at `i`, or 0.
pub open spec fn ws_len(l: Seq<u8>, i: int) -> int {
    if 0 <= i < l.len() && ((9 <= l[i] <= 13) || l[i] == 32) {
        1
    } else if 0 <= i && i + 1 < l.len() && l[i] == 0xC2 && (l[i + 1] == 0x85 || l[i + 1] == 0xA0) {
        2
    } else if 0 <= i && i + 2 < l.len() && ((l[i] == 0xE1 && l[i + 1] == 0x9A && l[i + 2] == 0x80)
        || (l[i] == 0xE2 && l[i + 1] == 0x80 && ((0x80 <= l[i + 2] <= 0x8A) || l[i + 2] == 0xA8
        || l[i + 2] == 0xA9 || l[i + 2] == 0xAF)) || (l[i] == 0xE2 && l[i + 1] == 0x81 && l[i
        + 2] == 0x9F) || (l[i] == 0xE3 && l[i + 1] == 0x80 && l[i + 2] == 0x80)) {
        3
    } else {
        0
    }
}

/// The index just past the longest run of whitespace that starts at `i`.
pub open spec fn skip_ws(l: Seq<u8>, i: int) -> int
    decreases l.len() - i,
{
    if 0 <= i < l.len() && ws_len(l, i) > 0 {
        skip_ws(l, i + ws_len(l, i))
    } else {
        i
    }
}

/// Where the body of a line comment starts: after leading whitespace, `//`
/// and the whitespace that follows it. `None` if the line is no line comment.
pub open spec fn comment_body(l: Seq<u8>) -> Option<int> {
    let a = skip_ws(l, 0);
    if a < l.len() && l.len() - a > 1 && l[a] == 0x2F && l[a + 1] == 0x2F {
        Some(skip_ws(l, a + 2))
    } else {
        None
    }
}

/// The bytes of `@noErrors`.
pub open spec fn no_errors_word() -> Seq<u8> {
    seq![0x40u8, 0x6E, 0x6F, 0x45, 0x72, 0x72, 0x6F, 0x72, 0x73]
}

/// The bytes of `---cut---`.
pub open spec fn cut_word() -> Seq<u8> {
    seq![0x2Du8, 0x2D, 0x2D, 0x63, 0x75, 0x74, 0x2D, 0x2D, 0x2D]
}

/// The comment body is exactly `w`, up to trailing whitespace.
pub open spec fn body_is_word(l: Seq<u8>, w: Seq<u8>) -> bool {
    match comment_body(l) {
        Some(c) => c + w.len() <= l.len() && l.subrange(c, c + w.len()) == w && skip_ws(
            l,
            c + w.len(),
        ) == l.len(),
        None => false,
    }
}

/// How a line is read: the pragma first, then the markers, else plain code.
pub open spec fn classify(l: Seq<u8>) -> LineKind {
    if body_is_word(l, no_errors_word()) {
        LineKind::NoErrors
    } else if body_is_word(l, cut_word()) {
        LineKind::Cut
    } else {
        match comment_body(l) {
            Some(c) => if c + 1 < l.len() && l[c] == 0x5E && l[c + 1] == 0x3F {
                LineKind::Marker(QueryKind::Query, c as usize)
            } else if c < l.len() && l.len() - c > 1 && l[c] == 0x5E && l[c + 1] == 0x7C {
                LineKind::Marker(QueryKind::Completions, c as usize)
            } else {
                LineKind::Plain
            },
            None => LineKind::Plain,
        }
    }
}

/// The line is a directive, and is left out of the clean code.
pub open spec fn is_directive(l: Seq<u8>) -> bool {
    classify(l) != LineKind::Plain
}

/// The column a marker resolves to: the caret's own for a hover, the one to
/// its left for completions.
pub open spec fn target_col(kind: QueryKind, caret: int) -> int {
    match kind {
        QueryKind::Query => caret,
        QueryKind::Completions => caret - 1,
    }
}

proof fn lemma_skip_ws_bounds(l: Seq<u8>, i: int)
    requires
        0 <= i,
    ensures
        i <= skip_ws(l, i),
        i <= l.len() ==> skip_ws(l, i) <= l.len(),
    decreases l.len() - i,
{
    if 0 <= i < l.len() && ws_len(l, i) > 0 {
        lemma_skip_ws_bounds(l, i + ws_len(l, i));
    }
}

proof fn lemma_ws_len_cr(x: Seq<u8>, i: int)
    requires
        0 <= i < x.len(),
    ensures
        ws_len(x.push(13u8), i) == ws_len(x, i),
        ws_len(x, i) > 0 ==> i + ws_len(x, i) <= x.len(),
{
    let l = x.push(13u8);
    assert(l[x.len() as int] == 13u8);
    assert(forall|k: int| 0 <= k < x.len() ==> l[k] == x[k]);
}

proof fn lemma_skip_ws_cr(x: Seq<u8>, i: int)
    requires
        0 <= i <= x.len(),
    ensures
        skip_ws(x, i) < x.len() ==> skip_ws(x.push(13u8), i) == skip_ws(x, i),
        skip_ws(x, i) >= x.len() ==> skip_ws(x.push(13u8), i) == x.len() + 1,
    decreases x.len() - i,
{
    let l = x.push(13u8);
    if i == x.len() {
        assert(l[i] == 13u8);
        assert(ws_len(l, i) == 1);
        assert(skip_ws(l, i + 1) == i + 1);
    } else {
        lemma_ws_len_cr(x, i);
        if ws_len(x, i) > 0 {
            lemma_skip_ws_cr(x, i + ws_len(x, i));
        }
    }
}

/// Dropping a final carriage return never turns a plain line into a directive.
pub proof fn lemma_plain_without_cr(x: Seq<u8>)
    requires
        classify(x.push(13u8)) == LineKind::Plain,
    ensures
        classify(x) == LineKind::Plain,
{
    let l = x.push(13u8);
    lemma_skip_ws_bounds(x, 0);
    lemma_skip_ws_cr(x, 0);
    assert(forall|k: int| 0 <= k < x.len() ==> l[k] == x[k]);
    if let Some(c) = comment_body(x) {
        let a = skip_ws(x, 0);
        assert(skip_ws(l, 0) == a);
        lemma_skip_ws_bounds(x, a + 2);
        lemma_skip_ws_cr(x, a + 2);
        if c < x.len() {
            assert(comment_body(l) == Some(c));
            if c + 9 <= x.len() {
                lemma_skip_ws_cr(x, c + 9);
                lemma_skip_ws_bounds(x, c + 9);
                assert(l.subrange(c, c + 9) =~= x.subrange(c, c + 9));
            }
        }
    }
}

/// A caret stands after the `//` of its line.
pub proof fn lemma_marker_caret(l: Seq<u8>)
    requires
        l.len() <= usize::MAX,
    ensures
        classify(l) matches LineKind::Marker(_, c) ==> 2 <= c < l.len(),
{
    lemma_skip_ws_bounds(l, 0);
    lemma_skip_ws_bounds(l, skip_ws(l, 0) + 2);
}

fn ws_len_at(l: &[u8], i: usize) -> (r: usize)
    requires
        i <= l@.len(),
    ensures
        r == ws_len(l@, i as int),
{
    let n = l.len();
    if i < n && ((9 <= l[i] && l[i] <= 13) || l[i] == 32) {
        1
    } else if i < n && n - i > 1 && l[i] == 0xC2 && (l[i + 1] == 0x85 || l[i + 1] == 0xA0) {
        2
    } else if i < n && n - i > 2 && ((l[i] == 0xE1 && l[i + 1] == 0x9A && l[i + 2] == 0x80) || (l[i]
        == 0xE2 && l[i + 1] == 0x80 && ((0x80 <= l[i + 2] && l[i + 2] <= 0x8A) || l[i + 2]
        == 0xA8 || l[i + 2] == 0xA9 || l[i + 2] == 0xAF)) || (l[i] == 0xE2 && l[i + 1] == 0x81
        && l[i + 2] == 0x9F) || (l[i] == 0xE3 && l[i + 1] == 0x80 && l[i + 2] == 0x80)) {
        3
    } else {
        0
    }
}

/// The index just past the whitespace that starts at `i`.
pub fn skip_whitespace(l: &[u8], i: usize) -> (r: usize)
    requires
        i <= l@.len(),
    ensures
        r == skip_ws(l@, i as int),
        i <= r <= l@.len(),
{
    proof {
        lemma_skip_ws_bounds(l@, i as int);
    }
    let mut j: usize = i;
    loop
        invariant
            i <= j <= l@.len(),
            skip_ws(l@, j as int) == skip_ws(l@, i as int),
        decreases l@.len() - j,
    {
        let w = ws_len_at(l, j);
        if w == 0 || j == l.len() {
            return j;
        }
        j = j + w;
    }
}

fn find_comment_body(l: &[u8]) -> (r: Option<usize>)
    ensures
        r.is_some() == comment_body(l@).is_some(),
        r.is_some() ==> r.unwrap() as int == comment_body(l@).unwrap(),
        r.is_some() ==> r.unwrap() <= l@.len(),
{
    let a = skip_whitespace(l, 0);
    if a < l.len() && l.len() - a > 1 && l[a] == 0x2F && l[a + 1] == 0x2F {
        Some(skip_whitespace(l, a + 2))
    } else {
        None
    }
}

fn body_matches(l: &[u8], c: usize, w: &Vec<u8>) -> (r: bool)
    requires
        c <= l@.len(),
        comment_body(l@) == Some(c as int),
    ensures
        r == body_is_word(l@, w@),
{
    if w.len() > l.len() - c {
        return false;
    }
    let mut k: usize = 0;
    while k < w.len()
        invariant
            c + w@.len() <= l.len(),
            comment_body(l@) == Some(c as int),
            0 <= k <= w@.len(),
            forall|m: int| 0 <= m < k ==> l@[c + m] == w@[m],
        decreases w@.len() - k,
    {
        if l[c + k] != w[k] {
            assert(l@.subrange(c as int, c + w@.len())[k as int] != w@[k as int]);
            return false;
        }
        k = k + 1;
    }
    assert(l@.subrange(c as int, c + w@.len()) =~= w@);
    skip_whitespace(l, c + w.len()) == l.len()
}

/// Reads one source line (without its terminator) as code or as a directive.
pub fn classify_line(l: &[u8]) -> (r: LineKind)
    ensures
        r == classify(l@),
        r matches LineKind::Marker(_, c) ==> 2 <= c < l@.len(),
{
    proof {
        lemma_skip_ws_bounds(l@, 0);
        lemma_skip_ws_bounds(l@, skip_ws(l@, 0) + 2);
    }
    match find_comment_body(l) {
        None => LineKind::Plain,
        Some(c) => {
            let no_errors: Vec<u8> = vec![0x40u8, 0x6E, 0x6F, 0x45, 0x72, 0x72, 0x6F, 0x72, 0x73];
            let cut: Vec<u8> = vec![0x2Du8, 0x2D, 0x2D, 0x63, 0x75, 0x74, 0x2D, 0x2D, 0x2D];
            assert(no_errors@ =~= no_errors_word());
            assert(cut@ =~= cut_word());
            if body_matches(l, c, &no_errors) {
                LineKind::NoErrors
            } else if body_matches(l, c, &cut) {
                LineKind::Cut
            } else if c < l.len() && l.len() - c > 1 && l[c] == 0x5E && l[c + 1] == 0x3F {
                LineKind::Marker(QueryKind::Query, c)
            } else if c < l.len() && l.len() - c > 1 && l[c] == 0x5E && l[c + 1] == 0x7C {
                LineKind::Marker(QueryKind::Completions, c)
            } else {
                LineKind::Plain
            }
        }
    }
}

} // verus!
