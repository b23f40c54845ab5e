//! Walking the element hierarchy of a polytope down to its vertices and edges.
//!
//! A polytope is stored level by level: level 0 holds the faces (each a cycle
//! of vertex indices), level 1 the cells (each a list of face indices), and so
//! on.  An element of rank `r` lives at level `r - 2`.
use vstd::prelude::*;

verus! {

/// The element table as plain sequences: `table[level][element][k]`.
pub open spec fn table_of(data: &Vec<Vec<Vec<usize>>>) -> Seq<Seq<Seq<usize>>> {
    data@.map_values(|level: Vec<Vec<usize>>| level@.map_values(|e: Vec<usize>| e@))
}

/// The edges around a face, as a flat list of endpoint pairs: the edge from
/// each vertex to the next one, the last vertex wrapping round to the first.
pub open spec fn cycle_edges(face: Seq<usize>) -> Seq<usize> {
    Seq::new(
        2 * face.len(),
        |j: int|
            if j % 2 == 0 {
                face[j / 2]
            } else {
                face[(j / 2 + 1) % (face.len() as int)]
            },
    )
}

/// The pair `(a, b)` occurs, in either direction, among the pairs of `edges`.
pub open spec fn has_edge(edges: Seq<usize>, a: usize, b: usize) -> bool {
    exists|j: int| #[trigger]
        edge_at(edges, j, a, b)
}

/// Pair `j` of `edges` joins `a` and `b` (in either direction).
pub open spec fn edge_at(edges: Seq<usize>, j: int, a: usize, b: usize) -> bool {
    &&& 0 <= j
    &&& 2 * j + 1 < edges.len()
    &&& ((edges[2 * j] == a && edges[2 * j + 1] == b) || (edges[2 * j] == b && edges[2 * j + 1]
        == a))
}

/// Appends the first `n` items of `extra` to `acc`, skipping each item that is
/// already present at the time it is considered.
pub open spec fn merge_vertices_upto(acc: Seq<usize>, extra: Seq<usize>, n: nat) -> Seq<usize>
    decreases n,
{
    if n == 0 {
        acc
    } else {
        let prev = merge_vertices_upto(acc, extra, (n - 1) as nat);
        let x = extra[n - 1];
        if prev.contains(x) {
            prev
        } else {
            prev.push(x)
        }
    }
}

pub open spec fn merge_vertices(acc: Seq<usize>, extra: Seq<usize>) -> Seq<usize> {
    merge_vertices_upto(acc, extra, extra.len())
}

/// Appends the first `n` pairs of `extra` to `acc`, skipping each pair that
/// already occurs (in either direction) at the time it is considered.
pub open spec fn merge_edges_upto(acc: Seq<usize>, extra: Seq<usize>, n: nat) -> Seq<usize>
    decreases n,
{
    if n == 0 {
        acc
    } else {
        let prev = merge_edges_upto(acc, extra, (n - 1) as nat);
        let a = extra[2 * n - 2];
        let b = extra[2 * n - 1];
        if has_edge(prev, a, b) {
            prev
        } else {
            prev.push(a).push(b)
        }
    }
}

pub open spec fn merge_edges(acc: Seq<usize>, extra: Seq<usize>) -> Seq<usize> {
    merge_edges_upto(acc, extra, extra.len() / 2)
}

/// Every index reachable from element `index` of rank `rank` is in range.
pub open spec fn valid_element(data: Seq<Seq<Seq<usize>>>, rank: nat, index: int) -> bool
    decreases rank, 1nat, 0nat,
{
    &&& rank >= 2
    &&& rank - 2 < data.len()
    &&& 0 <= index < data[rank - 2].len()
    &&& (rank > 2 ==> valid_subs(
        data,
        rank,
        data[rank - 2][index],
        data[rank - 2][index].len(),
    ))
}

/// The first `n` sub-elements of `element` (of rank `rank`) are valid elements
/// of rank `rank - 1`.
pub open spec fn valid_subs(data: Seq<Seq<Seq<usize>>>, rank: nat, element: Seq<usize>, n: nat) -> bool
    decreases rank, 0nat, n,
{
    if n == 0 || rank <= 2 {
        true
    } else {
        valid_subs(data, rank, element, (n - 1) as nat) && valid_element(
            data,
            (rank - 1) as nat,
            element[n - 1] as int,
        )
    }
}

proof fn lemma_valid_subs_at(data: Seq<Seq<Seq<usize>>>, rank: nat, element: Seq<usize>, n: nat, k: int)
    requires
        rank > 2,
        valid_subs(data, rank, element, n),
        0 <= k < n,
    ensures
        valid_element(data, (rank - 1) as nat, element[k] as int),
    decreases n,
{
    if k < n - 1 {
        lemma_valid_subs_at(data, rank, element, (n - 1) as nat, k);
    }
}

/// What collecting element `index` of rank `rank` leaves in the vertex list
/// and the edge list, starting from `v` and `e`.  A face appends its vertices
/// and its cycle of edges as they stand; a higher element collects each of its
/// sub-elements on its own and merges the results in, sub-element by
/// sub-element, dropping vertices and (undirected) edges already present.
pub open spec fn element_result(
    data: Seq<Seq<Seq<usize>>>,
    rank: nat,
    index: int,
    v: Seq<usize>,
    e: Seq<usize>,
) -> (Seq<usize>, Seq<usize>)
    decreases rank, 1nat, 0nat,
{
    if rank <= 2 {
        let face = data[0][index];
        (v + face, e + cycle_edges(face))
    } else {
        let element = data[rank - 2][index];
        merge_subs(data, rank, element, element.len(), v, e)
    }
}

/// The first `n` sub-elements of `element` (of rank `rank`) merged into `v`, `e`.
pub open spec fn merge_subs(
    data: Seq<Seq<Seq<usize>>>,
    rank: nat,
    element: Seq<usize>,
    n: nat,
    v: Seq<usize>,
    e: Seq<usize>,
) -> (Seq<usize>, Seq<usize>)
    decreases rank, 0nat, n,
{
    if n == 0 || rank <= 2 {
        (v, e)
    } else {
        let prev = merge_subs(data, rank, element, (n - 1) as nat, v, e);
        let sub = element_result(
            data,
            (rank - 1) as nat,
            element[n - 1] as int,
            Seq::empty(),
            Seq::empty(),
        );
        (merge_vertices(prev.0, sub.0), merge_edges(prev.1, sub.1))
    }
}

/// Whether `v` holds `x`.
fn vec_contains(v: &Vec<usize>, x: usize) -> (found: bool)
    ensures
        found == v@.contains(x),
{
    let mut i: usize = 0;
    while i < v.len()
        invariant
            i <= v.len(),
            forall|j: int| 0 <= j < i ==> v@[j] != x,
        decreases v.len() - i,
    {
        if v[i] == x {
            return true;
        }
        i = i + 1;
    }
    false
}

/// Whether the pair list `edges` joins `a` and `b`, in either direction.
pub(crate) fn contains_edge(edges: &Vec<usize>, a: usize, b: usize) -> (found: bool)
    requires
        edges.len() % 2 == 0,
    ensures
        found == has_edge(edges@, a, b),
{
    let mut j: usize = 0;
    while j < edges.len()
        invariant
            edges.len() % 2 == 0,
            j % 2 == 0,
            j <= edges.len(),
            forall|k: int| 0 <= k && 2 * k < j ==> !edge_at(edges@, k, a, b),
        decreases edges.len() - j,
    {
        let start = edges[j];
        let end = edges[j + 1];
        if (a == start && b == end) || (a == end && b == start) {
            assert(edge_at(edges@, j as int / 2, a, b));
            return true;
        }
        assert(!edge_at(edges@, j as int / 2, a, b));
        j = j + 2;
    }
    assert forall|k: int| !edge_at(edges@, k, a, b) by {
        if 0 <= k && 2 * k + 1 < edges.len() {
            assert(2 * k < j);
        }
    }
    false
}

/// Merging pairs adds whole pairs: the length keeps its parity.
pub proof fn lemma_merge_edges_parity(acc: Seq<usize>, extra: Seq<usize>, n: nat)
    ensures
        merge_edges_upto(acc, extra, n).len() % 2 == acc.len() % 2,
        merge_edges_upto(acc, extra, n).len() >= acc.len(),
    decreases n,
{
    if n > 0 {
        lemma_merge_edges_parity(acc, extra, (n - 1) as nat);
    }
}

/// Collecting an element adds whole edges: the edge list keeps its parity.
pub proof fn lemma_element_edges_parity(
    data: Seq<Seq<Seq<usize>>>,
    rank: nat,
    index: int,
    v: Seq<usize>,
    e: Seq<usize>,
)
    ensures
        element_result(data, rank, index, v, e).1.len() % 2 == e.len() % 2,
    decreases rank, 1nat, 0nat,
{
    if rank > 2 {
        let element = data[rank - 2][index];
        lemma_subs_edges_parity(data, rank, element, element.len(), v, e);
    }
}

proof fn lemma_subs_edges_parity(
    data: Seq<Seq<Seq<usize>>>,
    rank: nat,
    element: Seq<usize>,
    n: nat,
    v: Seq<usize>,
    e: Seq<usize>,
)
    ensures
        merge_subs(data, rank, element, n, v, e).1.len() % 2 == e.len() % 2,
    decreases rank, 0nat, n,
{
    if n > 0 && rank > 2 {
        let prev = merge_subs(data, rank, element, (n - 1) as nat, v, e);
        lemma_subs_edges_parity(data, rank, element, (n - 1) as nat, v, e);
        let sub = element_result(
            data,
            (rank - 1) as nat,
            element[n - 1] as int,
            Seq::empty(),
            Seq::empty(),
        );
        lemma_merge_edges_parity(prev.1, sub.1, sub.1.len() / 2);
    }
}

/// Collects into `element_vertices` the vertices of element `index` of rank
/// `rank`, and into `element_edges` its edges as pairs of vertex indices.
/// For a face, its vertices and the edges around it are appended as they
/// stand; for a higher element, the vertices and edges of each sub-element
/// are merged in, leaving out those already collected.
pub fn get_vertices_from_element(
    polytope_data: &Vec<Vec<Vec<usize>>>,
    element_vertices: &mut Vec<usize>,
    element_edges: &mut Vec<usize>,
    rank: usize,
    index: usize,
)
    requires
        valid_element(table_of(polytope_data), rank as nat, index as int),
        rank > 2 ==> old(element_edges)@.len() % 2 == 0,
    ensures
        (final(element_vertices)@, final(element_edges)@) == element_result(
            table_of(polytope_data),
            rank as nat,
            index as int,
            old(element_vertices)@,
            old(element_edges)@,
        ),
    decreases rank,
{
    let ghost data = table_of(polytope_data);
    let element = &polytope_data[rank - 2][index];
    assert(element@ == data[rank - 2][index as int]);
    if rank == 2 {
        let n = element.len();
        let mut i: usize = 0;
        while i < n
            invariant
                n == element@.len(),
                rank == 2,
                data == table_of(polytope_data),
                valid_element(data, rank as nat, index as int),
                element@ == data[0][index as int],
                i <= n,
                element_vertices@ == old(element_vertices)@ + element@.take(i as int),
                element_edges@ == old(element_edges)@ + cycle_edges(element@).take(2 * i),
            decreases n - i,
        {
            let vertex = element[i];
            element_vertices.push(vertex);
            element_edges.push(vertex);
            let next = element[(i + 1) % n];
            element_edges.push(next);
            proof {
                assert(element@.take(i + 1) =~= element@.take(i as int).push(vertex));
                assert(cycle_edges(element@).take(2 * (i + 1)) =~= cycle_edges(element@).take(
                    2 * i,
                ).push(vertex).push(next));
            }
            i = i + 1;
        }
        proof {
            assert(element@.take(n as int) =~= element@);
            assert(cycle_edges(element@).take(2 * n) =~= cycle_edges(element@));
        }
    } else {
        let n = element.len();
        let mut k: usize = 0;
        while k < n
            invariant
                2 < rank,
                n == element@.len(),
                element@ == data[rank - 2][index as int],
                data == table_of(polytope_data),
                valid_element(data, rank as nat, index as int),
                valid_subs(data, rank as nat, element@, n as nat),
                k <= n,
                (element_vertices@, element_edges@) == merge_subs(
                    data,
                    rank as nat,
                    element@,
                    k as nat,
                    old(element_vertices)@,
                    old(element_edges)@,
                ),
                element_edges@.len() % 2 == 0,
            decreases n - k,
        {
            let sub_element = element[k];
            let mut sub_vertices: Vec<usize> = Vec::new();
            let mut sub_edges: Vec<usize> = Vec::new();
            proof {
                lemma_valid_subs_at(data, rank as nat, element@, n as nat, k as int);
            }
            get_vertices_from_element(
                polytope_data,
                &mut sub_vertices,
                &mut sub_edges,
                rank - 1,
                sub_element,
            );
            proof {
                lemma_element_edges_parity(
                    data,
                    (rank - 1) as nat,
                    sub_element as int,
                    Seq::empty(),
                    Seq::empty(),
                );
            }
            let ghost v0 = element_vertices@;
            let ghost e0 = element_edges@;
            // merge the vertices
            let mut j: usize = 0;
            while j < sub_vertices.len()
                invariant
                    j <= sub_vertices.len(),
                    element_vertices@ == merge_vertices_upto(v0, sub_vertices@, j as nat),
                decreases sub_vertices.len() - j,
            {
                let vertex = sub_vertices[j];
                if !vec_contains(element_vertices, vertex) {
                    element_vertices.push(vertex);
                }
                j = j + 1;
            }
            // merge the edges
            let mut m: usize = 0;
            while m < sub_edges.len()
                invariant
                    sub_edges.len() % 2 == 0,
                    m % 2 == 0,
                    m <= sub_edges.len(),
                    element_edges@.len() % 2 == 0,
                    element_edges@ == merge_edges_upto(e0, sub_edges@, (m / 2) as nat),
                decreases sub_edges.len() - m,
            {
                let vertex_index_a = sub_edges[m];
                let vertex_index_b = sub_edges[m + 1];
                let found_duplicate = contains_edge(element_edges, vertex_index_a, vertex_index_b);
                if !found_duplicate {
                    element_edges.push(vertex_index_a);
                    element_edges.push(vertex_index_b);
                }
                assert((m + 2) / 2 == m / 2 + 1);
                m = m + 2;
            }
            k = k + 1;
        }
    }
}

/// An element of rank `rank` has vertex `x` somewhere below it.
pub open spec fn element_has_vertex(data: Seq<Seq<Seq<usize>>>, rank: nat, index: int, x: usize) -> bool
    decreases rank, 1nat, 0nat,
{
    if rank <= 2 {
        data[0][index].contains(x)
    } else {
        subs_have_vertex(data, rank, data[rank - 2][index], data[rank - 2][index].len(), x)
    }
}

/// One of the first `n` sub-elements of `element` has vertex `x` below it.
pub open spec fn subs_have_vertex(
    data: Seq<Seq<Seq<usize>>>,
    rank: nat,
    element: Seq<usize>,
    n: nat,
    x: usize,
) -> bool
    decreases rank, 0nat, n,
{
    if n == 0 || rank <= 2 {
        false
    } else {
        subs_have_vertex(data, rank, element, (n - 1) as nat, x) || element_has_vertex(
            data,
            (rank - 1) as nat,
            element[n - 1] as int,
            x,
        )
    }
}

/// Some face below an element of rank `rank` has an edge joining `a` and `b`.
pub open spec fn element_has_edge(
    data: Seq<Seq<Seq<usize>>>,
    rank: nat,
    index: int,
    a: usize,
    b: usize,
) -> bool
    decreases rank, 1nat, 0nat,
{
    if rank <= 2 {
        has_edge(cycle_edges(data[0][index]), a, b)
    } else {
        subs_have_edge(data, rank, data[rank - 2][index], data[rank - 2][index].len(), a, b)
    }
}

/// Some face below one of the first `n` sub-elements of `element` has an
/// edge joining `a` and `b`.
pub open spec fn subs_have_edge(
    data: Seq<Seq<Seq<usize>>>,
    rank: nat,
    element: Seq<usize>,
    n: nat,
    a: usize,
    b: usize,
) -> bool
    decreases rank, 0nat, n,
{
    if n == 0 || rank <= 2 {
        false
    } else {
        subs_have_edge(data, rank, element, (n - 1) as nat, a, b) || element_has_edge(
            data,
            (rank - 1) as nat,
            element[n - 1] as int,
            a,
            b,
        )
    }
}

/// No two pairs of `edges` join the same two vertices.
pub open spec fn edges_distinct(edges: Seq<usize>) -> bool {
    forall|j: int, k: int|
        0 <= j < k && 2 * k + 1 < edges.len() ==> !#[trigger] edge_at(
            edges,
            k,
            edges[2 * j],
            edges[2 * j + 1],
        )
}

/// Every vertex that an edge of `edges` touches is in `vertices`.
pub open spec fn endpoints_within(edges: Seq<usize>, vertices: Seq<usize>) -> bool {
    forall|x: usize| #[trigger] edges.contains(x) ==> vertices.contains(x)
}

proof fn lemma_push_contains(s: Seq<usize>, y: usize, x: usize)
    ensures
        s.push(y).contains(x) <==> (s.contains(x) || x == y),
{
    if s.contains(x) {
        let i = choose|i: int| 0 <= i < s.len() && s[i] == x;
        assert(s.push(y)[i] == x);
    }
    if x == y {
        assert(s.push(y)[s.len() as int] == x);
    }
    if s.push(y).contains(x) {
        let i = choose|i: int| 0 <= i < s.push(y).len() && s.push(y)[i] == x;
        if i < s.len() {
            assert(s[i] == x);
        }
    }
}

proof fn lemma_add_contains(s: Seq<usize>, t: Seq<usize>, x: usize)
    ensures
        (s + t).contains(x) <==> (s.contains(x) || t.contains(x)),
{
    if s.contains(x) {
        let i = choose|i: int| 0 <= i < s.len() && s[i] == x;
        assert((s + t)[i] == x);
    }
    if t.contains(x) {
        let i = choose|i: int| 0 <= i < t.len() && t[i] == x;
        assert((s + t)[s.len() + i] == x);
    }
    if (s + t).contains(x) {
        let i = choose|i: int| 0 <= i < (s + t).len() && (s + t)[i] == x;
        if i < s.len() {
            assert(s[i] == x);
        } else {
            assert(t[i - s.len()] == x);
        }
    }
}

proof fn lemma_merge_vertices_contains(acc: Seq<usize>, extra: Seq<usize>, n: nat, x: usize)
    requires
        n <= extra.len(),
    ensures
        merge_vertices_upto(acc, extra, n).contains(x) <==> (acc.contains(x) || extra.take(
            n as int,
        ).contains(x)),
    decreases n,
{
    if n > 0 {
        lemma_merge_vertices_contains(acc, extra, (n - 1) as nat, x);
        let prev = merge_vertices_upto(acc, extra, (n - 1) as nat);
        assert(extra.take(n as int) =~= extra.take(n - 1).push(extra[n - 1]));
        lemma_push_contains(extra.take(n - 1), extra[n - 1], x);
        lemma_push_contains(prev, extra[n - 1], x);
    } else {
        assert(extra.take(0) =~= Seq::<usize>::empty());
    }
}

proof fn lemma_merge_vertices_distinct(acc: Seq<usize>, extra: Seq<usize>, n: nat)
    requires
        acc.no_duplicates(),
    ensures
        merge_vertices_upto(acc, extra, n).no_duplicates(),
    decreases n,
{
    if n > 0 {
        lemma_merge_vertices_distinct(acc, extra, (n - 1) as nat);
        let prev = merge_vertices_upto(acc, extra, (n - 1) as nat);
        let y = extra[n - 1];
        if !prev.contains(y) {
            let s = prev.push(y);
            assert forall|i: int, j: int| 0 <= i < s.len() && 0 <= j < s.len() && i != j implies s[i]
                != s[j] by {
                if i < prev.len() && j < prev.len() {
                } else if i < prev.len() {
                    assert(prev[i] != y);
                } else if j < prev.len() {
                    assert(prev[j] != y);
                }
            }
        }
    }
}

pub(crate) proof fn lemma_merge_edges_contents(acc: Seq<usize>, extra: Seq<usize>, n: nat, x: usize)
    requires
        2 * n <= extra.len(),
        merge_edges_upto(acc, extra, n).contains(x),
    ensures
        acc.contains(x) || extra.contains(x),
    decreases n,
{
    if n > 0 {
        let prev = merge_edges_upto(acc, extra, (n - 1) as nat);
        let a = extra[2 * n - 2];
        let b = extra[2 * n - 1];
        if !has_edge(prev, a, b) {
            lemma_push_contains(prev.push(a), b, x);
            lemma_push_contains(prev, a, x);
        }
        if prev.contains(x) {
            lemma_merge_edges_contents(acc, extra, (n - 1) as nat, x);
        } else if x == a {
            assert(extra[2 * n - 2] == x);
        } else {
            assert(extra[2 * n - 1] == x);
        }
    }
}

pub(crate) proof fn lemma_cycle_edges_contents(face: Seq<usize>, x: usize)
    requires
        cycle_edges(face).contains(x),
    ensures
        face.contains(x),
{
    let c = cycle_edges(face);
    let j = choose|j: int| 0 <= j < c.len() && c[j] == x;
    let n = face.len() as int;
    assert(n > 0);
    if j % 2 == 0 {
        assert(face[j / 2] == x);
    } else {
        let m = (j / 2 + 1) % n;
        vstd::arithmetic::div_mod::lemma_mod_bound(j / 2 + 1, n);
        assert(face[m] == x);
    }
}

/// A pair pushed onto an even-length pair list: the list now joins `x` and
/// `y` exactly when it did before or the new pair does.
proof fn lemma_has_edge_push_pair(s: Seq<usize>, a: usize, b: usize, x: usize, y: usize)
    requires
        s.len() % 2 == 0,
    ensures
        has_edge(s.push(a).push(b), x, y) <==> (has_edge(s, x, y) || (a == x && b == y) || (a == y
            && b == x)),
{
    let t = s.push(a).push(b);
    let k = s.len() / 2;
    if has_edge(s, x, y) {
        let j = choose|j: int| #[trigger] edge_at(s, j, x, y);
        assert(edge_at(t, j, x, y));
    }
    if (a == x && b == y) || (a == y && b == x) {
        assert(edge_at(t, k as int, x, y));
    }
    if has_edge(t, x, y) {
        let j = choose|j: int| #[trigger] edge_at(t, j, x, y);
        if j < k {
            assert(edge_at(s, j, x, y));
        }
    }
}

/// On an even-length first part, the pairs of a concatenation are the pairs
/// of its two parts.
proof fn lemma_has_edge_add(s: Seq<usize>, t: Seq<usize>, x: usize, y: usize)
    requires
        s.len() % 2 == 0,
    ensures
        has_edge(s + t, x, y) <==> (has_edge(s, x, y) || has_edge(t, x, y)),
{
    let u = s + t;
    let k = s.len() / 2;
    if has_edge(s, x, y) {
        let j = choose|j: int| #[trigger] edge_at(s, j, x, y);
        assert(edge_at(u, j, x, y));
    }
    if has_edge(t, x, y) {
        let j = choose|j: int| #[trigger] edge_at(t, j, x, y);
        assert(u[2 * (j + k)] == t[2 * j]);
        assert(u[2 * (j + k) + 1] == t[2 * j + 1]);
        assert(edge_at(u, j + k, x, y));
    }
    if has_edge(u, x, y) {
        let j = choose|j: int| #[trigger] edge_at(u, j, x, y);
        if j < k {
            assert(edge_at(s, j, x, y));
        } else {
            assert(t[2 * (j - k)] == u[2 * j]);
            assert(t[2 * (j - k) + 1] == u[2 * j + 1]);
            assert(edge_at(t, j - k, x, y));
        }
    }
}

proof fn lemma_merge_edges_has_edge(acc: Seq<usize>, extra: Seq<usize>, n: nat, x: usize, y: usize)
    requires
        acc.len() % 2 == 0,
        2 * n <= extra.len(),
    ensures
        has_edge(merge_edges_upto(acc, extra, n), x, y) <==> (has_edge(acc, x, y) || has_edge(
            extra.take((2 * n) as int),
            x,
            y,
        )),
    decreases n,
{
    if n == 0 {
        assert(!has_edge(extra.take(0), x, y));
    } else {
        lemma_merge_edges_has_edge(acc, extra, (n - 1) as nat, x, y);
        lemma_merge_edges_parity(acc, extra, (n - 1) as nat);
        let prev = merge_edges_upto(acc, extra, (n - 1) as nat);
        let a = extra[2 * n - 2];
        let b = extra[2 * n - 1];
        let p = extra.take(2 * n - 2);
        assert(extra.take((2 * n) as int) =~= p.push(a).push(b));
        lemma_has_edge_push_pair(p, a, b, x, y);
        lemma_has_edge_push_pair(prev, a, b, x, y);
        if has_edge(prev, a, b) && ((a == x && b == y) || (a == y && b == x)) {
            let j = choose|j: int| #[trigger] edge_at(prev, j, a, b);
            assert(edge_at(prev, j, x, y));
        }
    }
}

pub(crate) proof fn lemma_merge_edges_distinct(acc: Seq<usize>, extra: Seq<usize>, n: nat)
    requires
        acc.len() % 2 == 0,
        edges_distinct(acc),
    ensures
        edges_distinct(merge_edges_upto(acc, extra, n)),
    decreases n,
{
    if n > 0 {
        lemma_merge_edges_distinct(acc, extra, (n - 1) as nat);
        lemma_merge_edges_parity(acc, extra, (n - 1) as nat);
        let prev = merge_edges_upto(acc, extra, (n - 1) as nat);
        let a = extra[2 * n - 2];
        let b = extra[2 * n - 1];
        if !has_edge(prev, a, b) {
            let t = prev.push(a).push(b);
            let kk = prev.len() / 2;
            assert forall|j: int, k: int| 0 <= j < k && 2 * k + 1 < t.len() implies !#[trigger] edge_at(
                t,
                k,
                t[2 * j],
                t[2 * j + 1],
            ) by {
                if k < kk {
                    assert(!edge_at(prev, k, prev[2 * j], prev[2 * j + 1]));
                } else {
                    assert(!edge_at(prev, j, a, b));
                }
            }
        }
    }
}

/// Collecting an element never strands an edge: when every endpoint of the
/// edges collected so far is among the vertices collected so far, the same
/// holds after the element's vertices and edges are added.
pub proof fn lemma_element_endpoints_collected(
    data: Seq<Seq<Seq<usize>>>,
    rank: nat,
    index: int,
    v: Seq<usize>,
    e: Seq<usize>,
)
    requires
        endpoints_within(e, v),
    ensures
        endpoints_within(
            element_result(data, rank, index, v, e).1,
            element_result(data, rank, index, v, e).0,
        ),
    decreases rank, 1nat, 0nat,
{
    if rank <= 2 {
        let face = data[0][index];
        assert forall|x: usize| #[trigger] (e + cycle_edges(face)).contains(x) implies (v
            + face).contains(x) by {
            lemma_add_contains(e, cycle_edges(face), x);
            lemma_add_contains(v, face, x);
            if cycle_edges(face).contains(x) {
                lemma_cycle_edges_contents(face, x);
            }
        }
    } else {
        let element = data[rank - 2][index];
        lemma_subs_endpoints_collected(data, rank, element, element.len(), v, e);
    }
}

proof fn lemma_subs_endpoints_collected(
    data: Seq<Seq<Seq<usize>>>,
    rank: nat,
    element: Seq<usize>,
    n: nat,
    v: Seq<usize>,
    e: Seq<usize>,
)
    requires
        endpoints_within(e, v),
    ensures
        endpoints_within(
            merge_subs(data, rank, element, n, v, e).1,
            merge_subs(data, rank, element, n, v, e).0,
        ),
    decreases rank, 0nat, n,
{
    if n > 0 && rank > 2 {
        lemma_subs_endpoints_collected(data, rank, element, (n - 1) as nat, v, e);
        let prev = merge_subs(data, rank, element, (n - 1) as nat, v, e);
        let empty = Seq::<usize>::empty();
        let sub = element_result(data, (rank - 1) as nat, element[n - 1] as int, empty, empty);
        lemma_element_endpoints_collected(data, (rank - 1) as nat, element[n - 1] as int, empty, empty);
        lemma_element_edges_parity(data, (rank - 1) as nat, element[n - 1] as int, empty, empty);
        let nv = merge_vertices(prev.0, sub.0);
        let ne = merge_edges(prev.1, sub.1);
        assert forall|x: usize| #[trigger] ne.contains(x) implies nv.contains(x) by {
            lemma_merge_edges_contents(prev.1, sub.1, sub.1.len() / 2, x);
            lemma_merge_vertices_contains(prev.0, sub.0, sub.0.len(), x);
            assert(sub.0.take(sub.0.len() as int) =~= sub.0);
        }
    }
}

/// Above the faces, collecting an element keeps the vertex list free of
/// repeats: each vertex is added once however many sub-elements share it.
pub proof fn lemma_element_vertices_distinct(
    data: Seq<Seq<Seq<usize>>>,
    rank: nat,
    index: int,
    v: Seq<usize>,
    e: Seq<usize>,
)
    requires
        rank > 2,
        v.no_duplicates(),
    ensures
        element_result(data, rank, index, v, e).0.no_duplicates(),
{
    let element = data[rank - 2][index];
    lemma_subs_vertices_distinct(data, rank, element, element.len(), v, e);
}

proof fn lemma_subs_vertices_distinct(
    data: Seq<Seq<Seq<usize>>>,
    rank: nat,
    element: Seq<usize>,
    n: nat,
    v: Seq<usize>,
    e: Seq<usize>,
)
    requires
        v.no_duplicates(),
    ensures
        merge_subs(data, rank, element, n, v, e).0.no_duplicates(),
    decreases n,
{
    if n > 0 && rank > 2 {
        lemma_subs_vertices_distinct(data, rank, element, (n - 1) as nat, v, e);
        let prev = merge_subs(data, rank, element, (n - 1) as nat, v, e);
        let empty = Seq::<usize>::empty();
        let sub = element_result(data, (rank - 1) as nat, element[n - 1] as int, empty, empty);
        lemma_merge_vertices_distinct(prev.0, sub.0, sub.0.len());
    }
}

/// Above the faces, collecting an element keeps the edge list free of
/// repeats: no two pairs join the same two vertices, in either direction.
pub proof fn lemma_element_edges_distinct(
    data: Seq<Seq<Seq<usize>>>,
    rank: nat,
    index: int,
    v: Seq<usize>,
    e: Seq<usize>,
)
    requires
        rank > 2,
        e.len() % 2 == 0,
        edges_distinct(e),
    ensures
        edges_distinct(element_result(data, rank, index, v, e).1),
{
    let element = data[rank - 2][index];
    lemma_subs_edges_distinct(data, rank, element, element.len(), v, e);
}

proof fn lemma_subs_edges_distinct(
    data: Seq<Seq<Seq<usize>>>,
    rank: nat,
    element: Seq<usize>,
    n: nat,
    v: Seq<usize>,
    e: Seq<usize>,
)
    requires
        e.len() % 2 == 0,
        edges_distinct(e),
    ensures
        edges_distinct(merge_subs(data, rank, element, n, v, e).1),
    decreases n,
{
    if n > 0 && rank > 2 {
        lemma_subs_edges_distinct(data, rank, element, (n - 1) as nat, v, e);
        lemma_subs_edges_parity(data, rank, element, (n - 1) as nat, v, e);
        let prev = merge_subs(data, rank, element, (n - 1) as nat, v, e);
        let empty = Seq::<usize>::empty();
        let sub = element_result(data, (rank - 1) as nat, element[n - 1] as int, empty, empty);
        lemma_merge_edges_distinct(prev.1, sub.1, sub.1.len() / 2);
    }
}

/// The collected vertices are exactly those collected before together with
/// the vertices of the faces below the element.
pub proof fn lemma_element_vertex_membership(
    data: Seq<Seq<Seq<usize>>>,
    rank: nat,
    index: int,
    v: Seq<usize>,
    e: Seq<usize>,
    x: usize,
)
    ensures
        element_result(data, rank, index, v, e).0.contains(x) <==> (v.contains(x)
            || element_has_vertex(data, rank, index, x)),
    decreases rank, 1nat, 0nat,
{
    if rank <= 2 {
        lemma_add_contains(v, data[0][index], x);
    } else {
        let element = data[rank - 2][index];
        lemma_subs_vertex_membership(data, rank, element, element.len(), v, e, x);
    }
}

proof fn lemma_subs_vertex_membership(
    data: Seq<Seq<Seq<usize>>>,
    rank: nat,
    element: Seq<usize>,
    n: nat,
    v: Seq<usize>,
    e: Seq<usize>,
    x: usize,
)
    ensures
        merge_subs(data, rank, element, n, v, e).0.contains(x) <==> (v.contains(x)
            || subs_have_vertex(data, rank, element, n, x)),
    decreases rank, 0nat, n,
{
    if n > 0 && rank > 2 {
        lemma_subs_vertex_membership(data, rank, element, (n - 1) as nat, v, e, x);
        let prev = merge_subs(data, rank, element, (n - 1) as nat, v, e);
        let empty = Seq::<usize>::empty();
        let sub = element_result(data, (rank - 1) as nat, element[n - 1] as int, empty, empty);
        lemma_element_vertex_membership(
            data,
            (rank - 1) as nat,
            element[n - 1] as int,
            empty,
            empty,
            x,
        );
        lemma_merge_vertices_contains(prev.0, sub.0, sub.0.len(), x);
        assert(sub.0.take(sub.0.len() as int) =~= sub.0);
    }
}

/// The collected edges join exactly the vertex pairs joined before together
/// with those joined by an edge of a face below the element.
pub proof fn lemma_element_edge_membership(
    data: Seq<Seq<Seq<usize>>>,
    rank: nat,
    index: int,
    v: Seq<usize>,
    e: Seq<usize>,
    a: usize,
    b: usize,
)
    requires
        e.len() % 2 == 0,
    ensures
        has_edge(element_result(data, rank, index, v, e).1, a, b) <==> (has_edge(e, a, b)
            || element_has_edge(data, rank, index, a, b)),
    decreases rank, 1nat, 0nat,
{
    if rank <= 2 {
        lemma_has_edge_add(e, cycle_edges(data[0][index]), a, b);
    } else {
        let element = data[rank - 2][index];
        lemma_subs_edge_membership(data, rank, element, element.len(), v, e, a, b);
    }
}

proof fn lemma_subs_edge_membership(
    data: Seq<Seq<Seq<usize>>>,
    rank: nat,
    element: Seq<usize>,
    n: nat,
    v: Seq<usize>,
    e: Seq<usize>,
    a: usize,
    b: usize,
)
    requires
        e.len() % 2 == 0,
    ensures
        has_edge(merge_subs(data, rank, element, n, v, e).1, a, b) <==> (has_edge(e, a, b)
            || subs_have_edge(data, rank, element, n, a, b)),
    decreases rank, 0nat, n,
{
    if n > 0 && rank > 2 {
        lemma_subs_edge_membership(data, rank, element, (n - 1) as nat, v, e, a, b);
        lemma_subs_edges_parity(data, rank, element, (n - 1) as nat, v, e);
        let prev = merge_subs(data, rank, element, (n - 1) as nat, v, e);
        let empty = Seq::<usize>::empty();
        let sub = element_result(data, (rank - 1) as nat, element[n - 1] as int, empty, empty);
        lemma_element_edge_membership(
            data,
            (rank - 1) as nat,
            element[n - 1] as int,
            empty,
            empty,
            a,
            b,
        );
        lemma_element_edges_parity(data, (rank - 1) as nat, element[n - 1] as int, empty, empty);
        lemma_merge_edges_has_edge(prev.1, sub.1, sub.1.len() / 2, a, b);
        assert(sub.1.take((2 * (sub.1.len() / 2)) as int) =~= sub.1);
        assert(!has_edge(empty, a, b));
    }
}

} // verus!
