//! What reading a polytope file does not depend on: where in the file a line
//! stands (only its text counts), comment lines, and lines after reading has
//! stopped.  Two readings of different files are compared by their texts:
//! coordinates come back as byte spans, which point at the same text in
//! both files though not at the same places.
use vstd::prelude::*;

use crate::loader::{
    index_list, initial_model, load_spec, parse_all, read_line_spec, read_lines_spec, LoadError,
    OffModel,
};
use crate::scene::{ExpansionSign, Scene};
use crate::text::{lines_scan, pieces_scan, space_pieces, spans_within, strip_cr, text_lines};

verus! {

/// The text of the span `p` of `c`.
pub open spec fn span_text(c: Seq<u8>, p: (usize, usize)) -> Seq<u8> {
    c.subrange(p.0 as int, p.1 as int)
}

/// The texts of the spans `spans` of `c`.
pub open spec fn span_texts(c: Seq<u8>, spans: Seq<(usize, usize)>) -> Seq<Seq<u8>> {
    spans.map_values(|p: (usize, usize)| span_text(c, p))
}

/// A vertex record with its coordinates as texts.
pub open spec fn vertex_texts(c: Seq<u8>, v: (Seq<(usize, usize)>, nat)) -> (Seq<Seq<u8>>, nat) {
    (span_texts(c, v.0), v.1)
}

/// `p` is a span of `c`.
pub open spec fn span_ok(c: Seq<u8>, p: (usize, usize)) -> bool {
    p.0 <= p.1 <= c.len()
}

/// The reader states `m1` (over the file `c1`) and `m2` (over `c2`) agree:
/// everything is equal, and the coordinates read have the same texts.
pub open spec fn same_reading(c1: Seq<u8>, m1: OffModel, c2: Seq<u8>, m2: OffModel) -> bool {
    &&& OffModel { vertices: Seq::empty(), ..m1 } == OffModel { vertices: Seq::empty(), ..m2 }
    &&& m1.vertices.len() == m2.vertices.len()
    &&& forall|k: int|
        0 <= k < m1.vertices.len() ==> #[trigger] vertex_texts(c1, m1.vertices[k]) == vertex_texts(
            c2,
            m2.vertices[k],
        )
}

/// Two outcomes of reading agree: the same error, or agreeing states.
pub open spec fn same_outcome(
    c1: Seq<u8>,
    r1: Result<OffModel, LoadError>,
    c2: Seq<u8>,
    r2: Result<OffModel, LoadError>,
) -> bool {
    match (r1, r2) {
        (Err(e1), Err(e2)) => e1 == e2,
        (Ok(m1), Ok(m2)) => same_reading(c1, m1, c2, m2),
        _ => false,
    }
}

/// The line `l` of `c` is a comment: it starts with `#`.
pub open spec fn is_comment(c: Seq<u8>, l: (usize, usize)) -> bool {
    l.1 > l.0 && c[l.0 as int] == 35u8
}

/// The first `n` of `lines` without the comment lines.
pub open spec fn kept_lines(c: Seq<u8>, lines: Seq<(usize, usize)>, n: nat) -> Seq<(usize, usize)>
    decreases n,
{
    if n == 0 {
        Seq::empty()
    } else if is_comment(c, lines[n - 1]) {
        kept_lines(c, lines, (n - 1) as nat)
    } else {
        kept_lines(c, lines, (n - 1) as nat).push(lines[n - 1])
    }
}

/// The non-comment lines of the file `c`.
pub open spec fn content_lines(c: Seq<u8>) -> Seq<(usize, usize)> {
    kept_lines(c, text_lines(c), text_lines(c).len())
}

/// Each line of `c` is a span of `c`.
proof fn lemma_lines_scan_within(c: Seq<u8>, start: int, i: int)
    requires
        0 <= start <= i <= c.len(),
        c.len() <= usize::MAX,
    ensures
        spans_within(lines_scan(c, start, i), c.len() as int),
    decreases c.len() - i,
{
    if i < c.len() {
        if c[i] == 10u8 {
            lemma_lines_scan_within(c, i + 1, i + 1);
            let rest = lines_scan(c, i + 1, i + 1);
            let all = seq![strip_cr(c, start, i)] + rest;
            assert forall|k: int| 0 <= k < all.len() implies #[trigger] all[k].0 <= all[k].1
                <= c.len() by {
                if k > 0 {
                    assert(all[k] == rest[k - 1]);
                }
            }
        } else {
            lemma_lines_scan_within(c, start, i + 1);
        }
    }
}

/// Dropping comment lines keeps every line a span of `c`.
proof fn lemma_kept_lines_within(c: Seq<u8>, lines: Seq<(usize, usize)>, n: nat)
    requires
        n <= lines.len(),
        spans_within(lines, c.len() as int),
    ensures
        spans_within(kept_lines(c, lines, n), c.len() as int),
    decreases n,
{
    if n > 0 {
        let j: int = n - 1;
        assert(lines[j].0 <= lines[j].1);
        assert(lines[j].1 <= c.len());
        let p = lines[j];
        lemma_kept_lines_within(c, lines, (n - 1) as nat);
        let prev = kept_lines(c, lines, (n - 1) as nat);
        if !is_comment(c, p) {
            let now = prev.push(p);
            assert forall|k: int| 0 <= k < now.len() implies #[trigger] now[k].0 <= now[k].1
                <= c.len() by {
                if k < prev.len() {
                    assert(now[k] == prev[k]);
                }
            }
        }
    }
}

/// The pieces of two runs of equal text correspond one to one, with equal
/// texts.
proof fn lemma_pieces_correspond(
    c1: Seq<u8>,
    s1: int,
    i1: int,
    e1: int,
    c2: Seq<u8>,
    s2: int,
    i2: int,
    e2: int,
    sep: u8,
)
    requires
        0 <= s1 <= i1 <= e1 <= c1.len() <= usize::MAX,
        0 <= s2 <= i2 <= e2 <= c2.len() <= usize::MAX,
        i1 - s1 == i2 - s2,
        e1 - i1 == e2 - i2,
        c1.subrange(s1, e1) == c2.subrange(s2, e2),
    ensures
        ({
            let p1 = pieces_scan(c1, s1, i1, e1, sep);
            let p2 = pieces_scan(c2, s2, i2, e2, sep);
            &&& p1.len() == p2.len()
            &&& forall|k: int|
                0 <= k < p1.len() ==> span_text(c1, #[trigger] p1[k]) == span_text(c2, p2[k]) && (
                p1[k].0 < p1[k].1) == (p2[k].0 < p2[k].1) && span_ok(c1, p1[k]) && span_ok(c2, p2[k])
        }),
    decreases e1 - i1,
{
    let p1 = pieces_scan(c1, s1, i1, e1, sep);
    let p2 = pieces_scan(c2, s2, i2, e2, sep);
    if i1 >= e1 {
    } else {
        assert(c1[i1] == c1.subrange(s1, e1)[i1 - s1]);
        assert(c2[i2] == c2.subrange(s2, e2)[i2 - s2]);
        if c1[i1] == sep {
            assert(c1.subrange(i1 + 1, e1) =~= c1.subrange(s1, e1).subrange(i1 + 1 - s1, e1 - s1));
            assert(c2.subrange(i2 + 1, e2) =~= c2.subrange(s2, e2).subrange(i2 + 1 - s2, e2 - s2));
            assert(c1.subrange(s1, i1) =~= c1.subrange(s1, e1).subrange(0, i1 - s1));
            assert(c2.subrange(s2, i2) =~= c2.subrange(s2, e2).subrange(0, i2 - s2));
            lemma_pieces_correspond(c1, i1 + 1, i1 + 1, e1, c2, i2 + 1, i2 + 1, e2, sep);
            let r1 = pieces_scan(c1, i1 + 1, i1 + 1, e1, sep);
            let r2 = pieces_scan(c2, i2 + 1, i2 + 1, e2, sep);
            assert forall|k: int| 0 <= k < p1.len() implies span_text(c1, #[trigger] p1[k])
                == span_text(c2, p2[k]) && (p1[k].0 < p1[k].1) == (p2[k].0 < p2[k].1) && span_ok(
                c1,
                p1[k],
            ) && span_ok(c2, p2[k]) by {
                if k > 0 {
                    assert(p1[k] == r1[k - 1]);
                    assert(p2[k] == r2[k - 1]);
                }
            }
        } else {
            lemma_pieces_correspond(c1, s1, i1 + 1, e1, c2, s2, i2 + 1, e2, sep);
        }
    }
}

/// The space-separated pieces of two lines of equal text correspond.
proof fn lemma_space_pieces_correspond(c1: Seq<u8>, l1: (usize, usize), c2: Seq<u8>, l2: (usize, usize))
    requires
        span_ok(c1, l1),
        span_ok(c2, l2),
        span_text(c1, l1) == span_text(c2, l2),
        c1.len() <= usize::MAX,
        c2.len() <= usize::MAX,
    ensures
        ({
            let p1 = space_pieces(c1, l1.0 as int, l1.1 as int);
            let p2 = space_pieces(c2, l2.0 as int, l2.1 as int);
            &&& p1.len() == p2.len()
            &&& forall|k: int|
                0 <= k < p1.len() ==> span_text(c1, #[trigger] p1[k]) == span_text(c2, p2[k]) && (
                p1[k].0 < p1[k].1) == (p2[k].0 < p2[k].1) && span_ok(c1, p1[k]) && span_ok(c2, p2[k])
        }),
{
    assert(span_text(c1, l1).len() == l1.1 - l1.0);
    assert(span_text(c2, l2).len() == l2.1 - l2.0);
    assert(l1.1 - l1.0 == l2.1 - l2.0);
    assert(c1.subrange(l1.0 as int, l1.1 as int) == c2.subrange(l2.0 as int, l2.1 as int));
    lemma_pieces_correspond(
        c1,
        l1.0 as int,
        l1.0 as int,
        l1.1 as int,
        c2,
        l2.0 as int,
        l2.0 as int,
        l2.1 as int,
        32u8,
    );
}

/// Keeping the non-empty pieces of corresponding pieces keeps their texts
/// equal.
proof fn lemma_filter_texts(c1: Seq<u8>, p1: Seq<(usize, usize)>, c2: Seq<u8>, p2: Seq<(usize, usize)>)
    requires
        p1.len() == p2.len(),
        forall|k: int|
            0 <= k < p1.len() ==> span_text(c1, #[trigger] p1[k]) == span_text(c2, p2[k]) && (
            p1[k].0 < p1[k].1) == (p2[k].0 < p2[k].1),
    ensures
        span_texts(c1, p1.filter(|p: (usize, usize)| p.0 < p.1)) == span_texts(
            c2,
            p2.filter(|p: (usize, usize)| p.0 < p.1),
        ),
    decreases p1.len(),
{
    reveal_with_fuel(Seq::filter, 1);
    if p1.len() > 0 {
        assert forall|k: int| 0 <= k < p1.drop_last().len() implies span_text(
            c1,
            #[trigger] p1.drop_last()[k],
        ) == span_text(c2, p2.drop_last()[k]) && (p1.drop_last()[k].0 < p1.drop_last()[k].1) == (
        p2.drop_last()[k].0 < p2.drop_last()[k].1) by {
            assert(p1.drop_last()[k] == p1[k]);
            assert(p2.drop_last()[k] == p2[k]);
        }
        lemma_filter_texts(c1, p1.drop_last(), c2, p2.drop_last());
        let f1 = p1.drop_last().filter(|p: (usize, usize)| p.0 < p.1);
        let f2 = p2.drop_last().filter(|p: (usize, usize)| p.0 < p.1);
        assert(span_texts(c1, f1.push(p1.last())) =~= span_texts(c1, f1).push(
            span_text(c1, p1.last()),
        ));
        assert(span_texts(c2, f2.push(p2.last())) =~= span_texts(c2, f2).push(
            span_text(c2, p2.last()),
        ));
        assert(p1.last() == p1[p1.len() - 1]);
        assert(p2.last() == p2[p2.len() - 1]);
    }
}

/// Parsing corresponding pieces gives the same numbers.
proof fn lemma_parse_all_correspond(
    c1: Seq<u8>,
    p1: Seq<(usize, usize)>,
    c2: Seq<u8>,
    p2: Seq<(usize, usize)>,
    n: nat,
)
    requires
        n <= p1.len(),
        p1.len() == p2.len(),
        forall|k: int| 0 <= k < p1.len() ==> span_text(c1, #[trigger] p1[k]) == span_text(c2, p2[k]),
    ensures
        parse_all(c1, p1, n) == parse_all(c2, p2, n),
    decreases n,
{
    if n > 0 {
        lemma_parse_all_correspond(c1, p1, c2, p2, (n - 1) as nat);
        assert(span_text(c1, p1[n - 1]) == span_text(c2, p2[n - 1]));
    }
}

/// Reading two lines of equal text from agreeing states gives agreeing
/// outcomes.
pub proof fn lemma_read_line_correspond(
    c1: Seq<u8>,
    st1: OffModel,
    l1: (usize, usize),
    c2: Seq<u8>,
    st2: OffModel,
    l2: (usize, usize),
    min_dimension: nat,
)
    requires
        c1.len() <= usize::MAX,
        c2.len() <= usize::MAX,
        same_reading(c1, st1, c2, st2),
        span_ok(c1, l1),
        span_ok(c2, l2),
        span_text(c1, l1) == span_text(c2, l2),
    ensures
        same_outcome(
            c1,
            read_line_spec(c1, st1, l1, min_dimension),
            c2,
            read_line_spec(c2, st2, l2, min_dimension),
        ),
{
    let t = span_text(c1, l1);
    let a1 = l1.0 as int;
    let b1 = l1.1 as int;
    let a2 = l2.0 as int;
    let b2 = l2.1 as int;
    assert(t.len() == b1 - a1 && t.len() == b2 - a2);
    assert(OffModel { vertices: Seq::empty(), ..st1 } == OffModel { vertices: Seq::empty(), ..st2 });
    assert(st1.state == st2.state && st1.rank == st2.rank && st1.seen == st2.seen && st1.done
        == st2.done && st1.elements == st2.elements && st1.dimension == st2.dimension
        && st1.expansion == st2.expansion && st1.expansion_rank == st2.expansion_rank && st1.edges
        == st2.edges && st1.colors == st2.colors);
    if b1 > a1 {
        assert(c1[a1] == t[0]);
        assert(c2[a2] == t[0]);
    }
    if b1 - a1 >= 3 {
        assert(c1[b1 - 3] == t[t.len() - 3] && c2[b2 - 3] == t[t.len() - 3]);
        assert(c1[b1 - 2] == t[t.len() - 2] && c2[b2 - 2] == t[t.len() - 2]);
        assert(c1[b1 - 1] == t[t.len() - 1] && c2[b2 - 1] == t[t.len() - 1]);
        assert(c1.subrange(a1, b1 - 3) =~= t.subrange(0, t.len() - 3));
        assert(c2.subrange(a2, b2 - 3) =~= t.subrange(0, t.len() - 3));
    }
    lemma_space_pieces_correspond(c1, l1, c2, l2);
    let p1 = space_pieces(c1, a1, b1);
    let p2 = space_pieces(c2, a2, b2);
    lemma_parse_all_correspond(c1, p1, c2, p2, p1.len());
    assert(index_list(c1, a1, b1) == index_list(c2, a2, b2));
    lemma_filter_texts(c1, p1, c2, p2);
    reveal_with_fuel(Seq::filter, 1);
    let f1 = p1.filter(|p: (usize, usize)| p.0 < p.1);
    let f2 = p2.filter(|p: (usize, usize)| p.0 < p.1);
    assert(span_texts(c1, f1).len() == f1.len());
    assert(span_texts(c2, f2).len() == f2.len());
    let r1 = read_line_spec(c1, st1, l1, min_dimension);
    let r2 = read_line_spec(c2, st2, l2, min_dimension);
    match (r1, r2) {
        (Ok(m1), Ok(m2)) => {
            if m1.vertices.len() > st1.vertices.len() {
                let k = st1.vertices.len() as int;
                assert(vertex_texts(c1, m1.vertices[k]) == vertex_texts(c2, m2.vertices[k]));
            }
            assert forall|k: int| 0 <= k < m1.vertices.len() implies #[trigger] vertex_texts(
                c1,
                m1.vertices[k],
            ) == vertex_texts(c2, m2.vertices[k]) by {
                if k < st1.vertices.len() {
                    assert(m1.vertices[k] == st1.vertices[k]);
                    assert(m2.vertices[k] == st2.vertices[k]);
                    assert(vertex_texts(c1, st1.vertices[k]) == vertex_texts(c2, st2.vertices[k]));
                }
            }
        },
        _ => {},
    }
}

/// The `k`-th lines of `c1` and `c2` are spans of their files with equal
/// texts.
pub open spec fn lines_agree_at(
    c1: Seq<u8>,
    lines1: Seq<(usize, usize)>,
    c2: Seq<u8>,
    lines2: Seq<(usize, usize)>,
    k: int,
) -> bool {
    &&& span_ok(c1, lines1[k])
    &&& span_ok(c2, lines2[k])
    &&& span_text(c1, lines1[k]) == span_text(c2, lines2[k])
}

/// Reading lines of equal texts from agreeing states gives agreeing
/// outcomes.
pub proof fn lemma_read_lines_correspond(
    c1: Seq<u8>,
    lines1: Seq<(usize, usize)>,
    c2: Seq<u8>,
    lines2: Seq<(usize, usize)>,
    n: nat,
    init1: OffModel,
    init2: OffModel,
    min_dimension: nat,
)
    requires
        c1.len() <= usize::MAX,
        c2.len() <= usize::MAX,
        n <= lines1.len(),
        n <= lines2.len(),
        same_reading(c1, init1, c2, init2),
        forall|k: int| 0 <= k < n ==> #[trigger] lines_agree_at(c1, lines1, c2, lines2, k),
    ensures
        same_outcome(
            c1,
            read_lines_spec(c1, lines1, n, init1, min_dimension),
            c2,
            read_lines_spec(c2, lines2, n, init2, min_dimension),
        ),
    decreases n,
{
    if n > 0 {
        assert forall|k: int| 0 <= k < n - 1 implies #[trigger] lines_agree_at(
            c1,
            lines1,
            c2,
            lines2,
            k,
        ) by {
            assert(lines_agree_at(c1, lines1, c2, lines2, k));
        }
        assert(lines_agree_at(c1, lines1, c2, lines2, n - 1));
        lemma_read_lines_correspond(c1, lines1, c2, lines2, (n - 1) as nat, init1, init2, min_dimension);
        match (
            read_lines_spec(c1, lines1, (n - 1) as nat, init1, min_dimension),
            read_lines_spec(c2, lines2, (n - 1) as nat, init2, min_dimension),
        ) {
            (Ok(st1), Ok(st2)) => {
                assert(st1.done == st2.done) by {
                    assert(OffModel { vertices: Seq::empty(), ..st1 } == OffModel {
                        vertices: Seq::empty(),
                        ..st2
                    });
                }
                if !st1.done {
                    lemma_read_line_correspond(
                        c1,
                        st1,
                        lines1[n - 1],
                        c2,
                        st2,
                        lines2[n - 1],
                        min_dimension,
                    );
                }
            },
            _ => {},
        }
    }
}

/// Only the first `n` lines matter to reading `n` lines.
proof fn lemma_read_lines_prefix(
    c: Seq<u8>,
    lines1: Seq<(usize, usize)>,
    lines2: Seq<(usize, usize)>,
    n: nat,
    init: OffModel,
    min_dimension: nat,
)
    requires
        n <= lines1.len(),
        n <= lines2.len(),
        forall|k: int| 0 <= k < n ==> lines1[k] == lines2[k],
    ensures
        read_lines_spec(c, lines1, n, init, min_dimension) == read_lines_spec(
            c,
            lines2,
            n,
            init,
            min_dimension,
        ),
    decreases n,
{
    if n > 0 {
        lemma_read_lines_prefix(c, lines1, lines2, (n - 1) as nat, init, min_dimension);
        assert(lines1[n - 1] == lines2[n - 1]);
    }
}

/// Reading the first `n` lines is reading them without their comments.
proof fn lemma_comments_skipped(
    c: Seq<u8>,
    lines: Seq<(usize, usize)>,
    n: nat,
    init: OffModel,
    min_dimension: nat,
)
    requires
        n <= lines.len(),
    ensures
        read_lines_spec(c, lines, n, init, min_dimension) == read_lines_spec(
            c,
            kept_lines(c, lines, n),
            kept_lines(c, lines, n).len(),
            init,
            min_dimension,
        ),
    decreases n,
{
    if n > 0 {
        lemma_comments_skipped(c, lines, (n - 1) as nat, init, min_dimension);
        let before = kept_lines(c, lines, (n - 1) as nat);
        if !is_comment(c, lines[n - 1]) {
            let after = before.push(lines[n - 1]);
            lemma_read_lines_prefix(c, after, before, before.len(), init, min_dimension);
        }
    }
}

/// Comment lines make no difference: two files whose lines other than
/// comments have the same texts, one for one, read alike (the same error,
/// or the same scene and polytope, with coordinates of the same texts).  In
/// particular, adding comment lines anywhere to a file changes nothing.
pub proof fn lemma_comment_lines_ignored(c1: Seq<u8>, c2: Seq<u8>, scene: Scene)
    requires
        c1.len() <= usize::MAX,
        c2.len() <= usize::MAX,
        content_lines(c1).len() == content_lines(c2).len(),
        forall|k: int|
            0 <= k < content_lines(c1).len() ==> span_text(c1, #[trigger] content_lines(c1)[k])
                == span_text(c2, content_lines(c2)[k]),
    ensures
        same_outcome(c1, load_spec(c1, scene), c2, load_spec(c2, scene)),
{
    let lines1 = text_lines(c1);
    let lines2 = text_lines(c2);
    let k1 = content_lines(c1);
    let k2 = content_lines(c2);
    let init = initial_model(scene);
    let min = scene.min_dimension as nat;
    lemma_lines_scan_within(c1, 0, 0);
    lemma_lines_scan_within(c2, 0, 0);
    lemma_kept_lines_within(c1, lines1, lines1.len());
    lemma_kept_lines_within(c2, lines2, lines2.len());
    lemma_comments_skipped(c1, lines1, lines1.len(), init, min);
    lemma_comments_skipped(c2, lines2, lines2.len(), init, min);
    assert forall|k: int| 0 <= k < k1.len() implies #[trigger] lines_agree_at(c1, k1, c2, k2, k) by {
        assert(k1[k].0 <= k1[k].1 <= c1.len());
        assert(k2[k].0 <= k2[k].1 <= c2.len());
        assert(span_text(c1, k1[k]) == span_text(c2, k2[k]));
    }
    assert(same_reading(c1, init, c2, init));
    lemma_read_lines_correspond(c1, k1, c2, k2, k1.len(), init, init, min);
}

/// With facet expansion off, a blank line after the faces ends reading.
pub proof fn lemma_faces_end_reading_without_expansion(
    c: Seq<u8>,
    st: OffModel,
    line: (usize, usize),
    min_dimension: nat,
)
    requires
        st.state >= 3,
        st.expansion == ExpansionSign::Zero,
        line.0 == line.1,
    ensures
        read_line_spec(c, st, line, min_dimension) == Ok::<OffModel, LoadError>(
            OffModel { done: true, ..st },
        ),
{
}

/// Nothing after the point where reading stops is read: two files whose
/// first `k` lines have the same texts read alike when reading the first
/// `k` lines of one of them has stopped (as it does, with expansion off, at
/// the blank line after the faces).
pub proof fn lemma_nothing_read_after_stop(c1: Seq<u8>, c2: Seq<u8>, scene: Scene, k: nat)
    requires
        c1.len() <= usize::MAX,
        c2.len() <= usize::MAX,
        k <= text_lines(c1).len(),
        k <= text_lines(c2).len(),
        forall|j: int|
            0 <= j < k ==> span_text(c1, #[trigger] text_lines(c1)[j]) == span_text(
                c2,
                text_lines(c2)[j],
            ),
        read_lines_spec(
            c1,
            text_lines(c1),
            k,
            initial_model(scene),
            scene.min_dimension as nat,
        ) matches Ok(st) && st.done,
    ensures
        same_outcome(c1, load_spec(c1, scene), c2, load_spec(c2, scene)),
{
    let lines1 = text_lines(c1);
    let lines2 = text_lines(c2);
    let init = initial_model(scene);
    let min = scene.min_dimension as nat;
    lemma_lines_scan_within(c1, 0, 0);
    lemma_lines_scan_within(c2, 0, 0);
    assert forall|j: int| 0 <= j < k implies #[trigger] lines_agree_at(c1, lines1, c2, lines2, j) by {
        assert(lines1[j].0 <= lines1[j].1 <= c1.len());
        assert(lines2[j].0 <= lines2[j].1 <= c2.len());
        assert(span_text(c1, lines1[j]) == span_text(c2, lines2[j]));
    }
    assert(same_reading(c1, init, c2, init));
    lemma_read_lines_correspond(c1, lines1, c2, lines2, k, init, init, min);
    let st2 = read_lines_spec(c2, lines2, k, init, min)->Ok_0;
    assert(st2.done) by {
        let st1 = read_lines_spec(c1, lines1, k, init, min)->Ok_0;
        assert(OffModel { vertices: Seq::empty(), ..st1 } == OffModel {
            vertices: Seq::empty(),
            ..st2
        });
    }
    crate::loader::lemma_read_lines_settled(c1, lines1, k, lines1.len(), init, min);
    crate::loader::lemma_read_lines_settled(c2, lines2, k, lines2.len(), init, min);
}

/// Scanning `a + b` for lines, where `a` ends a line, finds the lines of
/// `a` first.
proof fn lemma_lines_scan_prefix(a: Seq<u8>, b: Seq<u8>, s: int, i: int)
    requires
        0 <= s <= i <= a.len(),
        a.len() > 0 ==> a[a.len() - 1] == 10u8,
        i == a.len() ==> s == i,
    ensures
        lines_scan(a + b, s, i) == lines_scan(a, s, i) + lines_scan(a + b, a.len() as int, a.len() as int),
    decreases a.len() - i,
{
    let c = a + b;
    if i < a.len() {
        assert(c[i] == a[i]);
        if a[i] == 10u8 {
            lemma_lines_scan_prefix(a, b, i + 1, i + 1);
            if i > s {
                assert(c[i - 1] == a[i - 1]);
            }
            assert(strip_cr(c, s, i) == strip_cr(a, s, i));
            let rest = lines_scan(c, a.len() as int, a.len() as int);
            assert(seq![strip_cr(a, s, i)] + (lines_scan(a, i + 1, i + 1) + rest) =~= (seq![
                strip_cr(a, s, i),
            ] + lines_scan(a, i + 1, i + 1)) + rest);
        } else {
            lemma_lines_scan_prefix(a, b, s, i + 1);
        }
    } else {
        assert(lines_scan(a, s, i) =~= Seq::<(usize, usize)>::empty());
        assert(lines_scan(a, s, i) + lines_scan(c, i, i) =~= lines_scan(c, i, i));
    }
}

/// Whatever follows the point where reading stops is not read.  When
/// reading a text `a` that ends a line (a polytope file up to the blank
/// line after its faces, say, with facet expansion off) has failed or
/// stopped, then `a` with any text `b` after it reads as `a` does: the same
/// error, or the same scene and polytope, with coordinates of the same
/// texts.
pub proof fn lemma_text_after_stop_ignored(a: Seq<u8>, b: Seq<u8>, scene: Scene)
    requires
        (a + b).len() <= usize::MAX,
        a.len() > 0 ==> a[a.len() - 1] == 10u8,
        match load_spec(a, scene) {
            Err(_) => true,
            Ok(m) => m.done,
        },
    ensures
        same_outcome(a, load_spec(a, scene), a + b, load_spec(a + b, scene)),
{
    let c = a + b;
    let la = text_lines(a);
    let lc = text_lines(c);
    let k = la.len();
    let init = initial_model(scene);
    let min = scene.min_dimension as nat;
    lemma_lines_scan_prefix(a, b, 0, 0);
    lemma_lines_scan_within(a, 0, 0);
    assert forall|j: int| 0 <= j < k implies #[trigger] lines_agree_at(a, la, c, lc, j) by {
        assert(lc[j] == la[j]);
        assert(la[j].0 <= la[j].1);
        assert(la[j].1 <= a.len());
        assert(c.subrange(la[j].0 as int, la[j].1 as int) =~= a.subrange(
            la[j].0 as int,
            la[j].1 as int,
        ));
    }
    assert(same_reading(a, init, c, init));
    lemma_read_lines_correspond(a, la, c, lc, k, init, init, min);
    match read_lines_spec(c, lc, k, init, min) {
        Err(_) => {},
        Ok(st2) => {
            let st1 = read_lines_spec(a, la, k, init, min)->Ok_0;
            assert(st2.done) by {
                assert(OffModel { vertices: Seq::empty(), ..st1 } == OffModel {
                    vertices: Seq::empty(),
                    ..st2
                });
            }
        },
    }
    crate::loader::lemma_read_lines_settled(c, lc, k, lc.len(), init, min);
}

} // verus!
