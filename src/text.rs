//! The line model of a text held as UTF-8 bytes: how it splits into lines,
//! how lines are joined back, and where each line starts in the joined text.
use vstd::prelude::*;
use vstd::utf8::{
    is_char_boundary_iff_not_is_continuation_byte, valid_utf8, valid_utf8_concat, valid_utf8_split,
};

verus! {

/// The line feed byte.
pub const NL: u8 = 10;

/// The carriage return byte.
pub const CR: u8 = 13;

/// Index of the first line feed at or after `i`, or the length of `b` if there is none.
pub open spec fn next_nl(b: Seq<u8>, i: int) -> int
    decreases b.len() - i,
{
    if i >= b.len() {
        b.len() as int
    } else if b[i] == NL {
        i
    } else {
        next_nl(b, i + 1)
    }
}

/// A line that ended with a line feed, without its carriage return if it had one.
pub open spec fn strip_cr(l: Seq<u8>) -> Seq<u8> {
    if l.len() > 0 && l.last() == CR {
        l.drop_last()
    } else {
        l
    }
}

/// The lines of `b` from byte `i` on. A line ends at a line feed, or at the end
/// of the text; a final line feed opens no further line.
pub open spec fn lines_from(b: Seq<u8>, i: int) -> Seq<Seq<u8>>
    decreases b.len() - i,
{
    let e = next_nl(b, i);
    if i < 0 || i >= b.len() || e < i {
        Seq::empty()
    } else if e >= b.len() {
        seq![b.subrange(i, e)]
    } else {
        seq![strip_cr(b.subrange(i, e))] + lines_from(b, e + 1)
    }
}

/// The lines of the whole text.
pub open spec fn lines_of(b: Seq<u8>) -> Seq<Seq<u8>> {
    lines_from(b, 0)
}

/// The lines joined with a line feed between each two of them.
pub open spec fn join_lines(ls: Seq<Seq<u8>>) -> Seq<u8>
    decreases ls.len(),
{
    if ls.len() == 0 {
        Seq::empty()
    } else if ls.len() == 1 {
        ls[0]
    } else {
        join_lines(ls.drop_last()) + seq![NL] + ls.last()
    }
}

/// Byte offset at which line `t` starts in `join_lines(ls)`.
pub open spec fn line_start(ls: Seq<Seq<u8>>, t: int) -> int
    decreases t,
{
    if t <= 0 {
        0
    } else {
        line_start(ls, t - 1) + ls[t - 1].len() + 1
    }
}

pub proof fn lemma_next_nl_bounds(b: Seq<u8>, i: int)
    requires
        0 <= i <= b.len(),
    ensures
        i <= next_nl(b, i) <= b.len(),
        next_nl(b, i) < b.len() ==> b[next_nl(b, i)] == NL,
        forall|k: int| i <= k < next_nl(b, i) ==> b[k] != NL,
    decreases b.len() - i,
{
    if i < b.len() && b[i] != NL {
        lemma_next_nl_bounds(b, i + 1);
    }
}

/// Index of the first line feed at or after `i`, or the length of `b`.
pub fn find_nl(b: &[u8], i: usize) -> (e: usize)
    requires
        i <= b@.len(),
    ensures
        e == next_nl(b@, i as int),
{
    let mut j: usize = i;
    while j < b.len() && b[j] != NL
        invariant
            i <= j <= b@.len(),
            next_nl(b@, j as int) == next_nl(b@, i as int),
        decreases b@.len() - j,
    {
        j = j + 1;
    }
    j
}


/// Line starts of a sequence of lines do not depend on lines after them.
pub proof fn lemma_line_start_prefix(ls: Seq<Seq<u8>>, ks: Seq<Seq<u8>>, t: int)
    requires
        0 <= t <= ls.len(),
        t <= ks.len(),
        forall|k: int| 0 <= k < t ==> ls[k] == ks[k],
    ensures
        line_start(ls, t) == line_start(ks, t),
    decreases t,
{
    if t > 0 {
        lemma_line_start_prefix(ls, ks, t - 1);
    }
}

/// Line starts grow with the line number.
pub proof fn lemma_line_start_mono(ls: Seq<Seq<u8>>, a: int, c: int)
    requires
        0 <= a <= c,
    ensures
        line_start(ls, a) <= line_start(ls, c),
    decreases c - a,
{
    if a < c {
        lemma_line_start_mono(ls, a, c - 1);
    }
}

/// The joined text ends where its last line ends.
pub proof fn lemma_join_len(ls: Seq<Seq<u8>>)
    requires
        ls.len() > 0,
    ensures
        join_lines(ls).len() == line_start(ls, ls.len() - 1) + ls.last().len(),
    decreases ls.len(),
{
    if ls.len() > 1 {
        let p = ls.drop_last();
        lemma_join_len(p);
        lemma_line_start_prefix(ls, p, ls.len() - 2);
    }
}

/// Byte `k` of line `t` sits at `line_start(ls, t) + k` in the joined text.
pub proof fn lemma_join_index(ls: Seq<Seq<u8>>, t: int, k: int)
    requires
        0 <= t < ls.len(),
        0 <= k < ls[t].len(),
    ensures
        line_start(ls, t) + k < join_lines(ls).len(),
        join_lines(ls)[line_start(ls, t) + k] == ls[t][k],
    decreases ls.len(),
{
    lemma_join_len(ls);
    lemma_line_start_mono(ls, t, ls.len() - 1);
    if ls.len() > 1 {
        let p = ls.drop_last();
        let j = join_lines(ls);
        assert(j == join_lines(p) + seq![NL] + ls.last());
        lemma_join_len(p);
        lemma_line_start_prefix(ls, p, ls.len() - 2);
        if t < ls.len() - 1 {
            lemma_join_index(p, t, k);
            lemma_line_start_prefix(ls, p, t);
            let i = line_start(ls, t) + k;
            lemma_line_start_mono(ls, 0, t);
            assert(j[i] == join_lines(p)[i]);
        } else {
            assert(line_start(ls, t) == join_lines(p).len() + 1);
            assert(j[line_start(ls, t) + k] == ls.last()[k]);
        }
    }
}

/// A line ends within the joined text.
pub proof fn lemma_line_end_within(ls: Seq<Seq<u8>>, t: int)
    requires
        0 <= t < ls.len(),
    ensures
        line_start(ls, t) + ls[t].len() <= join_lines(ls).len(),
        t + 1 < ls.len() ==> line_start(ls, t + 1) <= join_lines(ls).len(),
{
    lemma_join_len(ls);
    lemma_line_start_mono(ls, t, ls.len() - 1);
    if t + 1 < ls.len() {
        lemma_line_start_mono(ls, t + 1, ls.len() - 1);
    }
}


/// A single line feed is valid UTF-8.
pub proof fn lemma_nl_valid()
    ensures
        valid_utf8(seq![NL]),
{
    reveal_with_fuel(valid_utf8, 2);
    assert(seq![NL].subrange(1, 1) =~= Seq::<u8>::empty());
}

/// Cutting valid UTF-8 at an ASCII byte leaves valid UTF-8 on both sides,
/// and the part after the ASCII byte is valid too.
pub proof fn lemma_split_at_ascii(b: Seq<u8>, i: int)
    requires
        valid_utf8(b),
        0 <= i < b.len(),
        b[i] < 0x80,
    ensures
        valid_utf8(b.subrange(0, i)),
        valid_utf8(b.subrange(i + 1, b.len() as int)),
{
    is_char_boundary_iff_not_is_continuation_byte(b, i);
    valid_utf8_split(b, i);
    let r = b.subrange(i, b.len() as int);
    assert(r[0] == b[i]);
    assert(r.subrange(1, r.len() as int) =~= b.subrange(i + 1, b.len() as int));
}

/// The lines of valid UTF-8 text are valid UTF-8.
pub proof fn lemma_lines_valid(b: Seq<u8>, i: int)
    requires
        0 <= i <= b.len(),
        valid_utf8(b.subrange(i, b.len() as int)),
    ensures
        forall|k: int| 0 <= k < lines_from(b, i).len() ==> valid_utf8(#[trigger] lines_from(b, i)[k]),
    decreases b.len() - i,
{
    if i < b.len() {
        lemma_next_nl_bounds(b, i);
        let e = next_nl(b, i);
        let r = b.subrange(i, b.len() as int);
        if e < b.len() {
            lemma_split_at_ascii(r, e - i);
            assert(r.subrange(0, e - i) =~= b.subrange(i, e));
            assert(r.subrange(e - i + 1, r.len() as int) =~= b.subrange(e + 1, b.len() as int));
            let l = b.subrange(i, e);
            if l.len() > 0 && l.last() == CR {
                lemma_split_at_ascii(l, l.len() - 1);
                assert(l.subrange(0, l.len() - 1) =~= l.drop_last());
            }
            lemma_lines_valid(b, e + 1);
            let ls = lines_from(b, i);
            assert(ls == seq![strip_cr(l)] + lines_from(b, e + 1));
            assert forall|k: int| 0 <= k < ls.len() implies valid_utf8(#[trigger] ls[k]) by {
                if k > 0 {
                    assert(ls[k] == lines_from(b, e + 1)[k - 1]);
                }
            }
        } else {
            assert(b.subrange(i, e) =~= r);
        }
    }
}

/// Joining valid UTF-8 lines gives valid UTF-8.
pub proof fn lemma_join_valid(ls: Seq<Seq<u8>>)
    requires
        forall|k: int| 0 <= k < ls.len() ==> valid_utf8(#[trigger] ls[k]),
    ensures
        valid_utf8(join_lines(ls)),
    decreases ls.len(),
{
    if ls.len() == 0 {
        reveal_with_fuel(valid_utf8, 1);
    } else if ls.len() > 1 {
        let p = ls.drop_last();
        assert forall|k: int| 0 <= k < p.len() implies valid_utf8(#[trigger] p[k]) by {
            assert(p[k] == ls[k]);
        }
        lemma_join_valid(p);
        lemma_nl_valid();
        valid_utf8_concat(join_lines(p), seq![NL]);
        assert(valid_utf8(ls[ls.len() - 1]));
        valid_utf8_concat(join_lines(p) + seq![NL], ls.last());
    }
}

/// Between two lines the joined text holds a line feed.
pub proof fn lemma_join_sep(ls: Seq<Seq<u8>>, t: int)
    requires
        0 <= t < ls.len() - 1,
    ensures
        0 <= line_start(ls, t) + ls[t].len() < join_lines(ls).len(),
        join_lines(ls)[line_start(ls, t) + ls[t].len()] == NL,
    decreases ls.len(),
{
    let p = ls.drop_last();
    let j = join_lines(ls);
    assert(j == join_lines(p) + seq![NL] + ls.last());
    lemma_join_len(p);
    lemma_line_start_prefix(ls, p, t);
    lemma_line_start_mono(ls, 0, t);
    if t < ls.len() - 2 {
        lemma_join_sep(p, t);
        assert(j[line_start(ls, t) + ls[t].len()] == join_lines(p)[line_start(ls, t) + ls[t].len()]);
    } else {
        assert(p[t] == ls[t]);
    }
}

/// The number of line feeds before byte `o`: the line that `o` is on.
pub open spec fn line_of(b: Seq<u8>, o: int) -> nat
    decreases o,
{
    if o <= 0 {
        0
    } else {
        line_of(b, o - 1) + if b[o - 1] == NL {
            1nat
        } else {
            0nat
        }
    }
}

/// The start of the line that byte `o` is on.
pub open spec fn line_begin(b: Seq<u8>, o: int) -> int
    decreases o,
{
    if o <= 0 {
        0
    } else if b[o - 1] == NL {
        o
    } else {
        line_begin(b, o - 1)
    }
}

/// The line and the column of byte offset `offset` in `b`.
pub fn position_of(b: &[u8], offset: usize) -> (r: (usize, usize))
    requires
        offset <= b@.len(),
    ensures
        r.0 == line_of(b@, offset as int),
        r.1 == offset - line_begin(b@, offset as int),
{
    let mut line: usize = 0;
    let mut begin: usize = 0;
    let mut k: usize = 0;
    while k < offset
        invariant
            k <= offset <= b@.len(),
            line == line_of(b@, k as int),
            line <= k,
            begin == line_begin(b@, k as int),
            begin <= k,
        decreases offset - k,
    {
        if b[k] == NL {
            line = line + 1;
            begin = k + 1;
        }
        k = k + 1;
    }
    (line, offset - begin)
}

/// The line has no line feed.
pub open spec fn no_nl(l: Seq<u8>) -> bool {
    forall|k: int| 0 <= k < l.len() ==> l[k] != NL
}

/// The lines that the joined text splits back into: a carriage return that
/// ends a line before the last is lost, and so is an empty last line.
pub open spec fn relined(ls: Seq<Seq<u8>>) -> Seq<Seq<u8>>
    decreases ls.len(),
{
    if ls.len() == 0 {
        Seq::empty()
    } else if ls.len() == 1 {
        if ls[0].len() == 0 {
            Seq::empty()
        } else {
            seq![ls[0]]
        }
    } else {
        seq![strip_cr(ls[0])] + relined(ls.drop_first())
    }
}

proof fn lemma_next_nl_shift(p: Seq<u8>, b: Seq<u8>, k: int)
    requires
        0 <= k <= b.len(),
    ensures
        next_nl(p + b, p.len() + k) == p.len() + next_nl(b, k),
    decreases b.len() - k,
{
    if k < b.len() {
        assert((p + b)[p.len() + k] == b[k]);
        if b[k] != NL {
            lemma_next_nl_shift(p, b, k + 1);
        }
    }
}

proof fn lemma_lines_from_shift(p: Seq<u8>, b: Seq<u8>, k: int)
    requires
        0 <= k <= b.len(),
    ensures
        lines_from(p + b, p.len() + k) == lines_from(b, k),
    decreases b.len() - k,
{
    if k < b.len() {
        lemma_next_nl_shift(p, b, k);
        lemma_next_nl_bounds(b, k);
        let e = next_nl(b, k);
        assert((p + b).subrange(p.len() + k, p.len() + e) =~= b.subrange(k, e));
        if e < b.len() {
            lemma_lines_from_shift(p, b, e + 1);
        }
    } else {
        assert(lines_from(b, k) == Seq::<Seq<u8>>::empty());
    }
}

proof fn lemma_join_front(ls: Seq<Seq<u8>>)
    requires
        ls.len() >= 2,
    ensures
        join_lines(ls) == ls[0] + seq![NL] + join_lines(ls.drop_first()),
    decreases ls.len(),
{
    let r = ls.drop_first();
    if ls.len() == 2 {
        assert(join_lines(ls.drop_last()) == ls.drop_last()[0]);
        assert(ls.drop_last()[0] == ls[0]);
        assert(join_lines(r) == r[0]);
        assert(r[0] == ls[1]);
    } else {
        lemma_join_front(ls.drop_last());
        assert(ls.drop_last().drop_first() =~= r.drop_last());
        assert(ls.drop_last()[0] == ls[0]);
        assert(r.last() == ls.last());
        assert(join_lines(ls) =~= ls[0] + seq![NL] + join_lines(r));
    }
}

/// Lines without line feeds, once joined, split back into `relined` of them.
pub proof fn lemma_lines_of_join(ls: Seq<Seq<u8>>)
    requires
        forall|t: int| 0 <= t < ls.len() ==> no_nl(#[trigger] ls[t]),
    ensures
        lines_of(join_lines(ls)) == relined(ls),
    decreases ls.len(),
{
    if ls.len() == 1 {
        if ls[0].len() > 0 {
            lemma_next_nl_bounds(ls[0], 0);
            if next_nl(ls[0], 0) < ls[0].len() {
                assert(no_nl(ls[0]));
            }
            assert(ls[0].subrange(0, ls[0].len() as int) =~= ls[0]);
        }
    } else if ls.len() >= 2 {
        let r = ls.drop_first();
        assert forall|t: int| 0 <= t < r.len() implies no_nl(#[trigger] r[t]) by {
            assert(r[t] == ls[t + 1]);
        }
        lemma_lines_of_join(r);
        lemma_join_front(ls);
        let a = ls[0];
        let x = join_lines(ls);
        let p = a + seq![NL];
        assert(x =~= p + join_lines(r));
        assert(no_nl(ls[0]));
        lemma_next_nl_bounds(x, 0);
        if next_nl(x, 0) < a.len() {
            assert(x[next_nl(x, 0)] == a[next_nl(x, 0)]);
        }
        assert(x[a.len() as int] == NL);
        assert(next_nl(x, 0) == a.len());
        assert(x.subrange(0, a.len() as int) =~= a);
        lemma_lines_from_shift(p, join_lines(r), 0);
        assert(lines_from(x, 0) == seq![strip_cr(a)] + lines_from(x, a.len() as int + 1));
    }
}

/// The lines of a text have no line feed in them.
pub proof fn lemma_lines_no_nl(b: Seq<u8>, i: int)
    requires
        0 <= i <= b.len(),
    ensures
        forall|k: int| 0 <= k < lines_from(b, i).len() ==> no_nl(#[trigger] lines_from(b, i)[k]),
    decreases b.len() - i,
{
    if i < b.len() {
        lemma_next_nl_bounds(b, i);
        let e = next_nl(b, i);
        let l = b.subrange(i, e);
        assert(no_nl(l));
        assert(no_nl(strip_cr(l)));
        if e < b.len() {
            lemma_lines_no_nl(b, e + 1);
            let ls = lines_from(b, i);
            assert forall|k: int| 0 <= k < ls.len() implies no_nl(#[trigger] ls[k]) by {
                if k > 0 {
                    assert(ls[k] == lines_from(b, e + 1)[k - 1]);
                }
            }
        }
    }
}

} // verus!
