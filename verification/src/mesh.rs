//! Index checks on elements, edges and ports, the winding of the triangles of
//! the front and back face sets, and the vertex layout of the port overlay.

use vstd::prelude::*;

verus! {

/// An element or an edge that names a node the mesh does not have, a port
/// that names an edge it does not have, or an element that is no triangle.
/// Rows and columns count from zero.
#[derive(Clone, Copy, Debug, PartialEq, Eq, Structural)]
pub enum IndexError {
    NotTriangle { row: usize },
    Element { row: usize, column: usize },
    Edge { row: usize, column: usize },
    Port { row: usize, column: usize },
}

/// The three nodes of an element, in the order of the element list.
#[derive(Clone, Copy, Debug, PartialEq, Eq, Structural)]
pub struct Triangle {
    pub a: usize,
    pub b: usize,
    pub c: usize,
}

impl Triangle {
    /// The node at position `k` (0, 1 or 2).
    pub open spec fn node(self, k: int) -> usize {
        if k == 0 {
            self.a
        } else if k == 1 {
            self.b
        } else {
            self.c
        }
    }
}

/// One vertex of a port overlay: the node it sits on, and whether it belongs
/// to the reference port, the first of the port list, which is drawn in a
/// colour of its own.
#[derive(Clone, Copy, Debug, PartialEq, Eq, Structural)]
pub struct PortVertex {
    pub node: usize,
    pub reference: bool,
}

/// Sign of the z component of a triangle's unit normal, as the caller
/// computed it. `Undefined` stands for a normal that has no sign: the normal
/// of a triangle without area.
#[derive(Clone, Copy, Debug, PartialEq, Eq, Structural)]
pub enum NormalSign {
    Negative,
    Zero,
    Positive,
    Undefined,
}

/// One vertex of a face set: the node it sits on, the element whose value and
/// normal it carries, and whether that normal is to be negated.
#[derive(Clone, Copy, Debug, PartialEq, Eq, Structural)]
pub struct Vertex {
    pub node: usize,
    pub element: usize,
    pub flipped: bool,
}

/// A triangle keeps the winding it has in the element list when its normal
/// does not point up and the front set is built, or when it points up and
/// the back set is built.
pub open spec fn keeps_winding(sign: NormalSign, face_up: bool) -> bool {
    match sign {
        NormalSign::Negative | NormalSign::Zero => face_up,
        NormalSign::Positive => !face_up,
        NormalSign::Undefined => false,
    }
}

/// The sign of a normal after negation.
pub open spec fn negated(sign: NormalSign) -> NormalSign {
    match sign {
        NormalSign::Negative => NormalSign::Positive,
        NormalSign::Positive => NormalSign::Negative,
        NormalSign::Zero => NormalSign::Zero,
        NormalSign::Undefined => NormalSign::Undefined,
    }
}

/// The sign of the normal that a triangle presents in a face set.
pub open spec fn presented(sign: NormalSign, face_up: bool) -> NormalSign {
    if keeps_winding(sign, face_up) {
        sign
    } else {
        negated(sign)
    }
}

/// The vertex at position `k` (0, 1 or 2) of a triangle in a face set.
pub open spec fn vertex_at(
    triangle: Triangle,
    element: int,
    sign: NormalSign,
    face_up: bool,
    k: int,
) -> Vertex {
    let keep = keeps_winding(sign, face_up);
    Vertex {
        node: if keep { triangle.node(k) } else { triangle.node(2 - k) },
        element: element as usize,
        flipped: !keep,
    }
}

/// The vertex list of a face set: three vertices for each element, in the
/// order of the element list.
pub open spec fn face_set(
    triangles: Seq<Triangle>,
    signs: Seq<NormalSign>,
    face_up: bool,
) -> Seq<Vertex> {
    Seq::new(
        3 * triangles.len(),
        |i: int| vertex_at(triangles[i / 3], i / 3, signs[i / 3], face_up, i % 3),
    )
}

/// Decides whether a triangle is emitted in the winding of the element list.
pub fn winding_kept(sign: NormalSign, face_up: bool) -> (keep: bool)
    ensures
        keep == keeps_winding(sign, face_up),
{
    match sign {
        NormalSign::Negative => face_up,
        NormalSign::Zero => face_up,
        NormalSign::Positive => !face_up,
        NormalSign::Undefined => false,
    }
}

/// Builds the vertex list of the front set (`face_up`) or of the back set.
/// `signs` holds the sign of each element's normal; where the two lists
/// differ in length nothing is built.
pub fn generate_mesh(triangles: &Vec<Triangle>, signs: &Vec<NormalSign>, face_up: bool) -> (out:
    Option<Vec<Vertex>>)
    ensures
        out is Some <==> triangles@.len() == signs@.len(),
        out is Some ==> out->0@ == face_set(triangles@, signs@, face_up),
{
    if triangles.len() != signs.len() {
        return None;
    }
    let mut vertices: Vec<Vertex> = Vec::new();
    let mut e: usize = 0;
    while e < triangles.len()
        invariant
            e <= triangles@.len(),
            triangles@.len() == signs@.len(),
            vertices@.len() == 3 * e,
            forall|i: int|
                0 <= i < 3 * e ==> #[trigger] vertices@[i] == vertex_at(
                    triangles@[i / 3],
                    i / 3,
                    signs@[i / 3],
                    face_up,
                    i % 3,
                ),
        decreases triangles@.len() - e,
    {
        let triangle = triangles[e];
        let keep = winding_kept(signs[e], face_up);
        let (first, last) = if keep {
            (triangle.a, triangle.c)
        } else {
            (triangle.c, triangle.a)
        };
        vertices.push(Vertex { node: first, element: e, flipped: !keep });
        vertices.push(Vertex { node: triangle.b, element: e, flipped: !keep });
        vertices.push(Vertex { node: last, element: e, flipped: !keep });
        e = e + 1;
    }
    assert(vertices@ =~= face_set(triangles@, signs@, face_up));
    Some(vertices)
}

/// In the front set no triangle presents a normal that points up, and in the
/// back set none presents one that points down.
pub proof fn presented_side(sign: NormalSign, face_up: bool)
    ensures
        face_up ==> presented(sign, face_up) != NormalSign::Positive,
        !face_up ==> presented(sign, face_up) != NormalSign::Negative,
{
}

/// A triangle whose normal has a sign keeps its winding in
/// exactly one of the two face sets.
pub proof fn sets_complement(sign: NormalSign)
    requires
        sign != NormalSign::Undefined,
    ensures
        keeps_winding(sign, true) != keeps_winding(sign, false),
{
}

/// What a table of indices holds, row by row.
pub open spec fn rows_of(table: Seq<Vec<i32>>) -> Seq<Seq<i32>> {
    Seq::new(table.len(), |i: int| table[i]@)
}

/// An index is accepted when it lies below `bound` and is not negative, or,
/// where a table marks unused slots, when it is the mark `-1`.
pub open spec fn accepts(value: i32, bound: int, sentinel: bool) -> bool {
    (sentinel && value == -1) || 0 <= value < bound
}

/// Every index of a table is accepted.
pub open spec fn all_accepted(rows: Seq<Seq<i32>>, bound: int, sentinel: bool) -> bool {
    forall|r: int, c: int|
        0 <= r < rows.len() && 0 <= c < rows[r].len() ==> accepts(
            #[trigger] rows[r][c],
            bound,
            sentinel,
        )
}

/// The cell at row `r` and column `c` is the first, in reading order, that
/// is not accepted.
pub open spec fn first_fault(rows: Seq<Seq<i32>>, bound: int, sentinel: bool, r: int, c: int) -> bool {
    &&& 0 <= r < rows.len()
    &&& 0 <= c < rows[r].len()
    &&& !accepts(rows[r][c], bound, sentinel)
    &&& forall|q: int, d: int|
        0 <= q < rows.len() && 0 <= d < rows[q].len() && (q < r || (q == r && d < c)) ==> accepts(
            #[trigger] rows[q][d],
            bound,
            sentinel,
        )
}

/// Looks for the first index of a table that is not accepted.
pub fn find_fault(rows: &Vec<Vec<i32>>, bound: usize, sentinel: bool) -> (fault: Option<
    (usize, usize),
>)
    ensures
        match fault {
            None => all_accepted(rows_of(rows@), bound as int, sentinel),
            Some((r, c)) => first_fault(rows_of(rows@), bound as int, sentinel, r as int, c as int),
        },
{
    let ghost table = rows_of(rows@);
    let mut r: usize = 0;
    while r < rows.len()
        invariant
            r <= rows@.len(),
            table == rows_of(rows@),
            forall|q: int, d: int|
                0 <= q < r && 0 <= d < table[q].len() ==> accepts(
                    #[trigger] table[q][d],
                    bound as int,
                    sentinel,
                ),
        decreases rows@.len() - r,
    {
        let row = &rows[r];
        let mut c: usize = 0;
        while c < row.len()
            invariant
                r < rows@.len(),
                c <= row@.len(),
                table == rows_of(rows@),
                row@ == table[r as int],
                forall|q: int, d: int|
                    0 <= q < r && 0 <= d < table[q].len() ==> accepts(
                        #[trigger] table[q][d],
                        bound as int,
                        sentinel,
                    ),
                forall|d: int|
                    0 <= d < c ==> accepts(#[trigger] row@[d], bound as int, sentinel),
            decreases row@.len() - c,
        {
            let value: i32 = row[c];
            let accepted = (sentinel && value == -1) || (value >= 0 && (value as usize) < bound);
            if !accepted {
                return Some((r, c));
            }
            c = c + 1;
        }
        r = r + 1;
    }
    None
}

/// A row of exactly three node indices, each of a node that the mesh has.
pub open spec fn is_triangle(row: Seq<i32>, node_count: int) -> bool {
    &&& row.len() == 3
    &&& forall|c: int| 0 <= c < 3 ==> 0 <= #[trigger] row[c] < node_count
}

/// The triangle that a row of three node indices writes.
pub open spec fn triangle_of(row: Seq<i32>) -> Triangle {
    Triangle { a: row[0] as usize, b: row[1] as usize, c: row[2] as usize }
}

/// What is wrong with row `r` of the element list, where something is: its
/// length, or else its first index without a node.
pub open spec fn element_error(row: Seq<i32>, r: usize, node_count: int) -> IndexError {
    if row.len() != 3 {
        IndexError::NotTriangle { row: r }
    } else if !(0 <= row[0] < node_count) {
        IndexError::Element { row: r, column: 0 }
    } else if !(0 <= row[1] < node_count) {
        IndexError::Element { row: r, column: 1 }
    } else {
        IndexError::Element { row: r, column: 2 }
    }
}

/// Row `r` is the first of the element list that is no triangle of the mesh.
pub open spec fn first_bad_element(rows: Seq<Seq<i32>>, node_count: int, r: int) -> bool {
    &&& 0 <= r < rows.len()
    &&& !is_triangle(rows[r], node_count)
    &&& forall|q: int| 0 <= q < r ==> is_triangle(#[trigger] rows[q], node_count)
}

/// Checks one row of the element list.
fn triangle_in_row(node_count: usize, row: &Vec<i32>, r: usize) -> (out: Result<
    Triangle,
    IndexError,
>)
    ensures
        out is Ok <==> is_triangle(row@, node_count as int),
        out is Ok ==> out->Ok_0 == triangle_of(row@),
        out is Err ==> out->Err_0 == element_error(row@, r, node_count as int),
{
    if row.len() != 3 {
        return Err(IndexError::NotTriangle { row: r });
    }
    let a: i32 = row[0];
    let b: i32 = row[1];
    let c: i32 = row[2];
    if a < 0 || a as usize >= node_count {
        Err(IndexError::Element { row: r, column: 0 })
    } else if b < 0 || b as usize >= node_count {
        Err(IndexError::Element { row: r, column: 1 })
    } else if c < 0 || c as usize >= node_count {
        Err(IndexError::Element { row: r, column: 2 })
    } else {
        Ok(Triangle { a: a as usize, b: b as usize, c: c as usize })
    }
}

/// Turns the element list into triangles over a mesh of `node_count` nodes.
/// It fails on the first row that does not hold exactly three indices of
/// nodes of the mesh.
pub fn triangles(node_count: usize, elements: &Vec<Vec<i32>>) -> (out: Result<
    Vec<Triangle>,
    IndexError,
>)
    ensures
        out is Ok <==> forall|r: int|
            0 <= r < elements@.len() ==> is_triangle(
                #[trigger] rows_of(elements@)[r],
                node_count as int,
            ),
        out is Ok ==> {
            &&& out->Ok_0@.len() == elements@.len()
            &&& within(out->Ok_0@, node_count as int)
            &&& forall|r: int|
                0 <= r < elements@.len() ==> #[trigger] out->Ok_0@[r] == triangle_of(
                    rows_of(elements@)[r],
                )
        },
        out is Err ==> exists|r: int|
            {
                &&& #[trigger] first_bad_element(rows_of(elements@), node_count as int, r)
                &&& out->Err_0 == element_error(
                    rows_of(elements@)[r],
                    r as usize,
                    node_count as int,
                )
            },
{
    let ghost rows = rows_of(elements@);
    let mut found: Vec<Triangle> = Vec::new();
    let mut r: usize = 0;
    while r < elements.len()
        invariant
            r <= elements@.len(),
            rows == rows_of(elements@),
            found@.len() == r,
            forall|q: int| 0 <= q < r ==> is_triangle(#[trigger] rows[q], node_count as int),
            forall|q: int| 0 <= q < r ==> #[trigger] found@[q] == triangle_of(rows[q]),
        decreases elements@.len() - r,
    {
        assert(rows[r as int] == elements@[r as int]@);
        match triangle_in_row(node_count, &elements[r], r) {
            Ok(triangle) => {
                found.push(triangle);
            },
            Err(fault) => {
                assert(first_bad_element(rows, node_count as int, r as int));
                return Err(fault);
            },
        }
        r = r + 1;
    }
    Ok(found)
}

/// Every triangle names nodes of a mesh of `node_count` nodes.
pub open spec fn within(triangles: Seq<Triangle>, node_count: int) -> bool {
    forall|e: int|
        0 <= e < triangles.len() ==> (#[trigger] triangles[e]).a < node_count && triangles[e].b
            < node_count && triangles[e].c < node_count
}

/// Element `e`, once for each of its corners that sits on node `n`.
pub open spec fn mentions(triangle: Triangle, n: usize, e: usize) -> Seq<usize> {
    (if triangle.a == n {
        seq![e]
    } else {
        Seq::<usize>::empty()
    }) + (if triangle.b == n {
        seq![e]
    } else {
        Seq::<usize>::empty()
    }) + (if triangle.c == n {
        seq![e]
    } else {
        Seq::<usize>::empty()
    })
}

/// The elements that node `n` belongs to, in the order of the element list;
/// an element that names the node more than once is listed as often.
pub open spec fn incident(triangles: Seq<Triangle>, n: usize) -> Seq<usize>
    decreases triangles.len(),
{
    if triangles.len() == 0 {
        Seq::<usize>::empty()
    } else {
        incident(triangles.drop_last(), n) + mentions(
            triangles.last(),
            n,
            (triangles.len() - 1) as usize,
        )
    }
}

/// Appends element `e` to the list of node `n`.
fn note(lists: &mut Vec<Vec<usize>>, n: usize, e: usize)
    requires
        n < old(lists)@.len(),
    ensures
        final(lists)@.len() == old(lists)@.len(),
        final(lists)@[n as int]@ == old(lists)@[n as int]@.push(e),
        forall|j: int|
            0 <= j < old(lists)@.len() && j != n ==> #[trigger] final(lists)@[j] == old(lists)@[j],
{
    lists[n].push(e);
}

/// Lists, for each node of a mesh of `node_count` nodes, the elements that it
/// belongs to. These are the elements whose areas and values make up the
/// node's field value. Nothing is listed where a triangle names a node that
/// the mesh does not have.
pub fn incidence(node_count: usize, triangles: &Vec<Triangle>) -> (out: Option<Vec<Vec<usize>>>)
    ensures
        out is Some <==> within(triangles@, node_count as int),
        out is Some ==> {
            &&& out->0@.len() == node_count
            &&& forall|n: int|
                0 <= n < node_count ==> (#[trigger] out->0@[n])@ == incident(
                    triangles@,
                    n as usize,
                )
        },
{
    let mut lists: Vec<Vec<usize>> = Vec::new();
    let mut n: usize = 0;
    while n < node_count
        invariant
            n <= node_count,
            lists@.len() == n,
            forall|j: int| 0 <= j < n ==> (#[trigger] lists@[j])@ == Seq::<usize>::empty(),
        decreases node_count - n,
    {
        lists.push(Vec::new());
        n = n + 1;
    }
    let mut e: usize = 0;
    assert(triangles@.take(0) =~= Seq::<Triangle>::empty());
    while e < triangles.len()
        invariant
            e <= triangles@.len(),
            lists@.len() == node_count,
            within(triangles@.take(e as int), node_count as int),
            forall|j: int|
                0 <= j < node_count ==> (#[trigger] lists@[j])@ == incident(
                    triangles@.take(e as int),
                    j as usize,
                ),
        decreases triangles@.len() - e,
    {
        let triangle = triangles[e];
        if triangle.a >= node_count || triangle.b >= node_count || triangle.c >= node_count {
            return None;
        }
        let ghost before = lists@;
        let ghost upto = triangles@.take(e + 1);
        assert(upto.drop_last() =~= triangles@.take(e as int));
        assert(upto.last() == triangle);
        note(&mut lists, triangle.a, e);
        let ghost first = lists@;
        note(&mut lists, triangle.b, e);
        let ghost second = lists@;
        note(&mut lists, triangle.c, e);
        assert forall|j: int| 0 <= j < node_count implies (#[trigger] lists@[j])@ == incident(
            upto,
            j as usize,
        ) by {
            let a = if triangle.a == j { seq![e] } else { Seq::<usize>::empty() };
            let b = if triangle.b == j { seq![e] } else { Seq::<usize>::empty() };
            let c = if triangle.c == j { seq![e] } else { Seq::<usize>::empty() };
            assert(first[j]@ =~= before[j]@ + a);
            assert(second[j]@ =~= first[j]@ + b);
            assert(lists@[j]@ =~= second[j]@ + c);
            assert(lists@[j]@ =~= before[j]@ + (a + b + c));
            assert(before[j]@ == incident(upto.drop_last(), j as usize));
        }
        assert(within(upto, node_count as int)) by {
            assert forall|q: int| 0 <= q < upto.len() implies (#[trigger] upto[q]).a < node_count
                && upto[q].b < node_count && upto[q].c < node_count by {
                if q < e {
                    assert(upto[q] == triangles@.take(e as int)[q]);
                }
            }
        }
        e = e + 1;
    }
    assert(triangles@.take(e as int) =~= triangles@);
    Some(lists)
}

/// An element is listed for a node exactly when one of its corners sits on
/// that node.
pub proof fn incident_iff_named(triangles: Seq<Triangle>, n: usize, e: usize)
    requires
        triangles.len() <= usize::MAX,
    ensures
        incident(triangles, n).contains(e) <==> e < triangles.len() && (triangles[e as int].a == n
            || triangles[e as int].b == n || triangles[e as int].c == n),
    decreases triangles.len(),
{
    if triangles.len() > 0 {
        let before = incident(triangles.drop_last(), n);
        let last = (triangles.len() - 1) as usize;
        let here = mentions(triangles.last(), n, last);
        incident_iff_named(triangles.drop_last(), n, e);
        if before.contains(e) {
            let i = choose|i: int| 0 <= i < before.len() && before[i] == e;
            assert((before + here)[i] == e);
        }
        if here.contains(e) {
            let i = choose|i: int| 0 <= i < here.len() && here[i] == e;
            assert((before + here)[before.len() + i] == e);
        }
        if (before + here).contains(e) {
            let i = choose|i: int| 0 <= i < (before + here).len() && (before + here)[i] == e;
            if i < before.len() {
                assert(before[i] == e);
            } else {
                assert(here[i - before.len()] == e);
            }
        }
        if e == last && (triangles.last().a == n || triangles.last().b == n || triangles.last().c
            == n) {
            assert(here[0] == e);
        }
    }
}

/// The vertices of one edge: one for each node that it names.
pub open spec fn edge_vertices(edge: Seq<i32>, reference: bool) -> Seq<PortVertex> {
    Seq::new(edge.len(), |k: int| PortVertex { node: edge[k] as usize, reference })
}

/// The vertices of one port: those of each of its edges, in the order of the
/// port's slots. A slot that holds `-1` names no edge and gives no vertex.
pub open spec fn port_vertices(edges: Seq<Seq<i32>>, port: Seq<i32>, reference: bool) -> Seq<
    PortVertex,
>
    decreases port.len(),
{
    if port.len() == 0 {
        Seq::<PortVertex>::empty()
    } else {
        let before = port_vertices(edges, port.drop_last(), reference);
        if port.last() == -1 {
            before
        } else {
            before + edge_vertices(edges[port.last() as int], reference)
        }
    }
}

/// The vertices of the overlay: those of each port, in the order of the port
/// list. The first port is the reference port.
pub open spec fn overlay(edges: Seq<Seq<i32>>, ports: Seq<Seq<i32>>) -> Seq<PortVertex>
    decreases ports.len(),
{
    if ports.len() == 0 {
        Seq::<PortVertex>::empty()
    } else {
        overlay(edges, ports.drop_last()) + port_vertices(edges, ports.last(), ports.len() == 1)
    }
}

/// Appends the vertices of one edge.
fn push_edge(out: &mut Vec<PortVertex>, edge: &Vec<i32>, reference: bool)
    requires
        forall|k: int| 0 <= k < edge@.len() ==> 0 <= #[trigger] edge@[k],
    ensures
        final(out)@ == old(out)@ + edge_vertices(edge@, reference),
{
    let ghost before = out@;
    let mut k: usize = 0;
    assert(out@ =~= before + edge_vertices(edge@, reference).take(0));
    while k < edge.len()
        invariant
            k <= edge@.len(),
            forall|j: int| 0 <= j < edge@.len() ==> 0 <= #[trigger] edge@[j],
            out@ == before + edge_vertices(edge@, reference).take(k as int),
        decreases edge@.len() - k,
    {
        let value: i32 = edge[k];
        out.push(PortVertex { node: value as usize, reference });
        assert(out@ =~= before + edge_vertices(edge@, reference).take(k + 1));
        k = k + 1;
    }
    assert(edge_vertices(edge@, reference).take(k as int) =~= edge_vertices(edge@, reference));
}

/// Appends the vertices of one port.
fn push_port(out: &mut Vec<PortVertex>, edges: &Vec<Vec<i32>>, port: &Vec<i32>, reference: bool)
    requires
        forall|r: int, c: int|
            0 <= r < edges@.len() && 0 <= c < rows_of(edges@)[r].len() ==> 0
                <= #[trigger] rows_of(edges@)[r][c],
        forall|s: int| 0 <= s < port@.len() ==> accepts(#[trigger] port@[s], edges@.len() as int, true),
    ensures
        final(out)@ == old(out)@ + port_vertices(rows_of(edges@), port@, reference),
{
    let ghost before = out@;
    let ghost table = rows_of(edges@);
    let mut s: usize = 0;
    assert(port@.take(0) =~= Seq::<i32>::empty());
    assert(out@ =~= before + port_vertices(table, port@.take(0), reference));
    while s < port.len()
        invariant
            s <= port@.len(),
            table == rows_of(edges@),
            forall|r: int, c: int|
                0 <= r < edges@.len() && 0 <= c < table[r].len() ==> 0 <= #[trigger] table[r][c],
            forall|t: int|
                0 <= t < port@.len() ==> accepts(#[trigger] port@[t], edges@.len() as int, true),
            out@ == before + port_vertices(table, port@.take(s as int), reference),
        decreases port@.len() - s,
    {
        let ghost upto = port@.take(s + 1);
        let ghost done = port_vertices(table, port@.take(s as int), reference);
        assert(upto.drop_last() =~= port@.take(s as int));
        assert(upto.last() == port@[s as int]);
        let slot: i32 = port[s];
        if slot != -1 {
            let edge = &edges[slot as usize];
            assert(edge@ == table[slot as int]);
            assert forall|k: int| 0 <= k < edge@.len() implies 0 <= #[trigger] edge@[k] by {
                assert(0 <= table[slot as int][k]);
            }
            push_edge(out, edge, reference);
            assert(out@ =~= before + (done + edge_vertices(edge@, reference)));
        }
        s = s + 1;
    }
    assert(port@.take(s as int) =~= port@);
}

/// Builds the vertex list of the port overlay over a mesh of `node_count`
/// nodes. Every edge has to name nodes of the mesh, and every slot of a port
/// an edge of the edge list or `-1`; the first index that does not is
/// reported, edges before ports.
pub fn generate_ports(node_count: usize, edges: &Vec<Vec<i32>>, ports: &Vec<Vec<i32>>) -> (out:
    Result<Vec<PortVertex>, IndexError>)
    ensures
        out is Ok <==> all_accepted(rows_of(edges@), node_count as int, false) && all_accepted(
            rows_of(ports@),
            edges@.len() as int,
            true,
        ),
        out is Ok ==> out->Ok_0@ == overlay(rows_of(edges@), rows_of(ports@)),
        out is Err ==> match out->Err_0 {
            IndexError::Edge { row, column } => first_fault(
                rows_of(edges@),
                node_count as int,
                false,
                row as int,
                column as int,
            ),
            IndexError::Port { row, column } => all_accepted(
                rows_of(edges@),
                node_count as int,
                false,
            ) && first_fault(
                rows_of(ports@),
                edges@.len() as int,
                true,
                row as int,
                column as int,
            ),
            _ => false,
        },
{
    if let Some((row, column)) = find_fault(edges, node_count, false) {
        return Err(IndexError::Edge { row, column });
    }
    if let Some((row, column)) = find_fault(ports, edges.len(), true) {
        return Err(IndexError::Port { row, column });
    }
    let ghost table = rows_of(edges@);
    let ghost slots = rows_of(ports@);
    let mut out: Vec<PortVertex> = Vec::new();
    let mut p: usize = 0;
    assert(slots.take(0) =~= Seq::<Seq<i32>>::empty());
    while p < ports.len()
        invariant
            p <= ports@.len(),
            table == rows_of(edges@),
            slots == rows_of(ports@),
            all_accepted(table, node_count as int, false),
            all_accepted(slots, edges@.len() as int, true),
            out@ == overlay(table, slots.take(p as int)),
        decreases ports@.len() - p,
    {
        let ghost upto = slots.take(p + 1);
        let ghost done = out@;
        assert(upto.drop_last() =~= slots.take(p as int));
        assert(upto.last() == ports@[p as int]@);
        let port = &ports[p];
        assert forall|s: int| 0 <= s < port@.len() implies accepts(
            #[trigger] port@[s],
            edges@.len() as int,
            true,
        ) by {
            assert(accepts(slots[p as int][s], edges@.len() as int, true));
        }
        push_port(&mut out, edges, port, p == 0);
        p = p + 1;
    }
    assert(slots.take(p as int) =~= slots);
    Ok(out)
}

/// A port whose slots all hold `-1` gives no vertex.
pub proof fn unused_port_is_empty(edges: Seq<Seq<i32>>, port: Seq<i32>, reference: bool)
    requires
        forall|s: int| 0 <= s < port.len() ==> port[s] == -1,
    ensures
        port_vertices(edges, port, reference) == Seq::<PortVertex>::empty(),
    decreases port.len(),
{
    if port.len() > 0 {
        unused_port_is_empty(edges, port.drop_last(), reference);
    }
}

/// Every vertex of a port carries the mark that the port was built with.
pub proof fn port_shares_mark(edges: Seq<Seq<i32>>, port: Seq<i32>, reference: bool, i: int)
    requires
        0 <= i < port_vertices(edges, port, reference).len(),
    ensures
        port_vertices(edges, port, reference)[i].reference == reference,
    decreases port.len(),
{
    if port.len() > 0 {
        let before = port_vertices(edges, port.drop_last(), reference);
        if i < before.len() {
            port_shares_mark(edges, port.drop_last(), reference, i);
        }
    }
}

/// The overlay starts with the vertices of the first port.
pub proof fn overlay_starts_with_first_port(edges: Seq<Seq<i32>>, ports: Seq<Seq<i32>>, i: int)
    requires
        ports.len() > 0,
        0 <= i < port_vertices(edges, ports[0], true).len(),
    ensures
        i < overlay(edges, ports).len(),
        overlay(edges, ports)[i] == port_vertices(edges, ports[0], true)[i],
    decreases ports.len(),
{
    if ports.len() == 1 {
        assert(ports.drop_last() =~= Seq::<Seq<i32>>::empty());
        assert(overlay(edges, ports.drop_last()) =~= Seq::<PortVertex>::empty());
    } else {
        assert(ports.drop_last()[0] == ports[0]);
        overlay_starts_with_first_port(edges, ports.drop_last(), i);
    }
}

/// A vertex of the overlay is marked as reference exactly when it belongs to
/// the first port of the port list.
pub proof fn reference_is_first_port(edges: Seq<Seq<i32>>, ports: Seq<Seq<i32>>, i: int)
    requires
        0 <= i < overlay(edges, ports).len(),
    ensures
        ports.len() > 0,
        overlay(edges, ports)[i].reference <==> i < port_vertices(edges, ports[0], true).len(),
    decreases ports.len(),
{
    let first = port_vertices(edges, ports[0], true);
    if ports.len() == 1 {
        assert(ports.drop_last() =~= Seq::<Seq<i32>>::empty());
        assert(overlay(edges, ports.drop_last()) =~= Seq::<PortVertex>::empty());
        port_shares_mark(edges, ports[0], true, i);
    } else if ports.len() > 1 {
        let before = overlay(edges, ports.drop_last());
        assert(ports.drop_last()[0] == ports[0]);
        if i < before.len() {
            reference_is_first_port(edges, ports.drop_last(), i);
        } else {
            port_shares_mark(edges, ports.last(), false, i - before.len());
            if first.len() > 0 {
                overlay_starts_with_first_port(edges, ports.drop_last(), first.len() - 1);
            }
        }
    }
}

/// Where a normal has a sign, the back set holds each triangle of the front
/// set in the opposite winding, with the opposite normal.
pub proof fn sets_mirror(triangle: Triangle, e: int, sign: NormalSign, k: int)
    requires
        sign != NormalSign::Undefined,
        0 <= k < 3,
    ensures
        vertex_at(triangle, e, sign, true, k).node == vertex_at(triangle, e, sign, false, 2 - k).node,
        vertex_at(triangle, e, sign, true, k).flipped != vertex_at(
            triangle,
            e,
            sign,
            false,
            2 - k,
        ).flipped,
{
}

} // verus!
