//! Turning tabular string input into a graph.
//!
//! A standard links matrix has one row per edge, with four cells:
//! child name, child id, parent name, parent id.  Malformed cells are
//! collected per row rather than aborting the whole load; reading the
//! file itself is left to the surrounding application.

use vstd::prelude::*;

verus! {

use crate::errors::input::CellError;
use crate::errors::input::CellNotFoundError;
use crate::errors::input::CellNotNumericError;
use crate::errors::input::CreateError;
use crate::network::Edge;
use crate::network::Graph;
use vstd::std_specs::iter::IteratorSpec;

/// Whether `c` is a decimal digit.
pub open spec fn is_digit(c: char) -> bool {
    48 <= c as u32 <= 57
}

/// The value of a decimal digit.
pub open spec fn digit_val(c: char) -> nat {
    (c as u32 - 48) as nat
}

/// The value of a digit sequence read left to right onto `acc`, or
/// none when a non-digit occurs or the value outgrows `u32`.
pub open spec fn digits_val(s: Seq<char>, acc: nat) -> Option<nat>
    decreases s.len(),
{
    if s.len() == 0 {
        Some(acc)
    } else if !is_digit(s[0]) {
        None
    } else {
        let v = acc * 10 + digit_val(s[0]);
        if v > u32::MAX {
            None
        } else {
            digits_val(s.drop_first(), v)
        }
    }
}

/// What parsing a `u32` from text yields: an optional leading plus
/// sign, then at least one digit, with the value within `u32`.
pub open spec fn parse_u32_spec(s: Seq<char>) -> Option<u32> {
    let body = if s.len() > 0 && s[0] == '+' {
        s.drop_first()
    } else {
        s
    };
    if body.len() == 0 {
        None
    } else {
        match digits_val(body, 0) {
            Some(v) => Some(v as u32),
            None => None,
        }
    }
}

/// The result still owed once `body` remains to be read onto `acc`;
/// `need_digit` records that no digit has been read yet.
pub open spec fn digits_result(body: Seq<char>, acc: nat, need_digit: bool) -> Option<u32> {
    if need_digit && body.len() == 0 {
        None
    } else {
        match digits_val(body, acc) {
            Some(v) => Some(v as u32),
            None => None,
        }
    }
}

/// Reads a `u32` from decimal text: an optional leading plus sign,
/// then at least one digit; fails on anything else and on values that
/// outgrow `u32`.
#[verifier::loop_isolation(false)]
pub fn parse_u32(s: &str) -> (r: Option<u32>)
    ensures
        r == parse_u32_spec(s@),
{
    broadcast use vstd::string::axiom_spec_iter, vstd::string::next_postcondition;

    let mut it = s.chars();
    let mut acc: u32 = 0;
    let mut seen_digit = false;
    let first = it.next();
    match first {
        None => {
            return None;
        },
        Some(c) => {
            if c != '+' {
                let cu = c as u32;
                if 48 <= cu && cu <= 57 {
                    acc = cu - 48;
                    seen_digit = true;
                    proof {
                        assert(digits_val(s@, 0) == digits_val(s@.drop_first(), acc as nat));
                    }
                } else {
                    proof {
                        assert(digits_val(s@, 0) is None);
                        if s@[0] == '+' {
                            assert(false);
                        }
                    }
                    return None;
                }
            }
        },
    }
    loop
        invariant
            acc <= u32::MAX,
            it.decrease() is Some,
            parse_u32_spec(s@) == digits_result(it.remaining(), acc as nat, !seen_digit),
        decreases it.decrease()->0,
    {
        let ghost before = it.remaining();
        let nc = it.next();
        match nc {
            None => {
                if seen_digit {
                    return Some(acc);
                }
                return None;
            },
            Some(c) => {
                let ghost acc0 = acc;
                let cu = c as u32;
                if 48 <= cu && cu <= 57 {
                    let v64 = acc as u64 * 10 + (cu - 48) as u64;
                    if v64 > u32::MAX as u64 {
                        proof {
                            assert(digits_val(before, acc as nat) is None);
                        }
                        return None;
                    }
                    acc = v64 as u32;
                    seen_digit = true;
                    proof {
                        assert(digits_val(before, acc0 as nat) == digits_val(
                            it.remaining(),
                            acc as nat,
                        ));
                    }
                } else {
                    proof {
                        assert(digits_val(before, acc as nat) is None);
                    }
                    return None;
                }
            },
        }
    }
}

/// What `str::trim` leaves of a piece of text.  Relies on the standard
/// library: the result depends on the characters alone.
pub uninterp spec fn trimmed(s: Seq<char>) -> Seq<char>;

/// Relies on `str::trim`: returns the text without leading and
/// trailing whitespace, which is never longer than the text itself.
#[verifier::external_body]
fn trim_cell(s: &String) -> (r: String)
    ensures
        r@ == trimmed(s@),
        r@.len() <= s@.len(),
{
    s.trim().to_string()
}

/// The string at `cell_i` in the row, trimmed; a missing cell is
/// recorded under its matrix position `pos` and yields nothing.
pub fn get_string_cell(
    list: &Vec<String>,
    pos: (usize, usize),
    cell_i: usize,
    errors: &mut Vec<CellError>,
) -> (r: Option<String>)
    ensures
        match r {
            Some(x) => cell_i < list@.len() && x@ == trimmed(list@[cell_i as int]@)
                && final(errors)@ == old(errors)@,
            None => cell_i >= list@.len() && final(errors)@ == old(errors)@.push(
                (CellError::NotFound(CellNotFoundError { cell_pos: pos })),
            ),
        },
{
    if cell_i < list.len() {
        Some(trim_cell(&list[cell_i]))
    } else {
        errors.push(CellError::NotFound(CellNotFoundError { cell_pos: pos }));
        None
    }
}

/// The `u32` read from the cell at `cell_i`, trimmed; a missing cell
/// or one that does not parse is recorded under its matrix position
/// `pos` and yields nothing.
pub fn get_from_str_cell(
    list: &Vec<String>,
    pos: (usize, usize),
    cell_i: usize,
    errors: &mut Vec<CellError>,
) -> (r: Option<u32>)
    ensures
        cell_i < list@.len() ==> r == parse_u32_spec(trimmed(list@[cell_i as int]@)),
        cell_i >= list@.len() ==> r is None,
        r is Some ==> final(errors)@ == old(errors)@,
        r is None && cell_i < list@.len() ==> final(errors)@.len() == old(errors)@.len() + 1
            && final(errors)@.drop_last() == old(errors)@ && final(errors)@.last() is NotNumeric
            && final(errors)@.last()->NotNumeric_0.cell_pos == pos
            && final(errors)@.last()->NotNumeric_0.cell_val@ == trimmed(list@[cell_i as int]@),
        r is None && cell_i >= list@.len() ==> final(errors)@.len() == old(errors)@.len() + 2,
{
    let string_val = match get_string_cell(list, pos, cell_i, errors) {
        Some(x) => x,
        None => "DEFAULT".to_owned(),
    };
    proof {
        if cell_i >= list@.len() {
            reveal_strlit("DEFAULT");
            assert(string_val@[0] == 'D');
            assert(string_val@[0] != '+');
            assert(!is_digit('D'));
            assert(digits_val(string_val@, 0) is None);
            assert(parse_u32_spec(string_val@) is None);
        }
    }
    match parse_u32(string_val.as_str()) {
        Some(x) => Some(x),
        None => {
            errors.push(CellError::NotNumeric(CellNotNumericError { cell_pos: pos, cell_val: string_val }));
            None
        },
    }
}

/// Whether a links row is well formed: it has the four cells and both
/// id cells parse as `u32`.
pub open spec fn row_ok(row: Seq<String>) -> bool {
    row.len() >= 4 && parse_u32_spec(trimmed(row[1]@)) is Some && parse_u32_spec(
        trimmed(row[3]@),
    ) is Some
}

/// The child id a row names, with the default id standing in for a
/// missing or malformed cell.
pub open spec fn eff_c_id(row: Seq<String>) -> u32 {
    if row.len() > 1 {
        match parse_u32_spec(trimmed(row[1]@)) {
            Some(v) => v,
            None => 999999u32,
        }
    } else {
        999999u32
    }
}

/// The parent id a row names, with the default id standing in for a
/// missing or malformed cell.
pub open spec fn eff_p_id(row: Seq<String>) -> u32 {
    if row.len() > 3 {
        match parse_u32_spec(trimmed(row[3]@)) {
            Some(v) => v,
            None => 999999u32,
        }
    } else {
        999999u32
    }
}

/// Builds a graph from a standard links matrix: each row adds its
/// child node, its parent node, and the edge between them.  Succeeds,
/// with the edge pairs in row order, exactly when every row is well
/// formed; a malformed cell is recorded and the default id stands in
/// for it.
#[verifier::loop_isolation(false)]
pub fn create_graph(edges_matrix: &Vec<Vec<String>>) -> (r: Result<
    (Graph, Vec<(u32, u32)>),
    CreateError<Vec<Vec<String>>>,
>)
    ensures
        r is Ok <==> (forall|y: int|
            0 <= y < edges_matrix@.len() ==> row_ok((#[trigger] edges_matrix@[y])@)),
        match r {
            Ok(p) => {
                let (g, edges) = p;
                &&& g.wf()
                &&& g.static_view() == Set::<u32>::empty()
                &&& edges@.len() == edges_matrix@.len()
                &&& forall|y: int|
                    0 <= y < edges@.len() ==> #[trigger] edges@[y] == (
                        eff_c_id(edges_matrix@[y]@),
                        eff_p_id(edges_matrix@[y]@),
                    )
                &&& forall|e: Edge|
                    #[trigger] g.edges_view().contains(e) <==> exists|y: int|
                        0 <= y < edges_matrix@.len() && eff_c_id((#[trigger] edges_matrix@[y])@)
                            == e.from && eff_p_id(edges_matrix@[y]@) == e.to
                &&& forall|k: u32|
                    #[trigger] g.nodes_view().dom().contains(k) <==> exists|y: int|
                        0 <= y < edges_matrix@.len() && (eff_c_id((#[trigger] edges_matrix@[y])@)
                            == k || eff_p_id(edges_matrix@[y]@) == k)
            },
            Err(e) => e.errors@.len() > 0 && e.task@ == "creating a graph"@,
        },
{
    let mut graph = Graph::new();
    let mut errors: Vec<CellError> = Vec::new();
    let mut edges: Vec<(u32, u32)> = Vec::new();

    let ny = edges_matrix.len();
    let mut y: usize = 0;
    while y < ny
        invariant
            y <= ny,
            graph.wf(),
            graph.static_view() == Set::<u32>::empty(),
            edges@.len() == y,
            errors@.len() == 0 <==> (forall|j: int|
                0 <= j < y ==> row_ok((#[trigger] edges_matrix@[j])@)),
            forall|j: int|
                0 <= j < y ==> #[trigger] edges@[j] == (
                    eff_c_id(edges_matrix@[j]@),
                    eff_p_id(edges_matrix@[j]@),
                ),
            forall|e: Edge|
                #[trigger] graph.edges_view().contains(e) <==> exists|j: int|
                    0 <= j < y && eff_c_id((#[trigger] edges_matrix@[j])@) == e.from && eff_p_id(
                        edges_matrix@[j]@,
                    ) == e.to,
            forall|k: u32|
                #[trigger] graph.nodes_view().dom().contains(k) <==> exists|j: int|
                    0 <= j < y && (eff_c_id((#[trigger] edges_matrix@[j])@) == k || eff_p_id(
                        edges_matrix@[j]@,
                    ) == k),
        decreases ny - y,
    {
        let row = &edges_matrix[y];
        let ghost errs0 = errors@;
        let c_name = match get_string_cell(row, (0, y), 0, &mut errors) {
            Some(x) => x,
            None => "DEFAULT".to_owned(),
        };
        let p_name = match get_string_cell(row, (2, y), 2, &mut errors) {
            Some(x) => x,
            None => "DEFAULT".to_owned(),
        };
        let c_id = match get_from_str_cell(row, (1, y), 1, &mut errors) {
            Some(x) => x,
            None => 999999,
        };
        let p_id = match get_from_str_cell(row, (3, y), 3, &mut errors) {
            Some(x) => x,
            None => 999999,
        };
        proof {
            assert(c_id == eff_c_id(edges_matrix@[y as int]@));
            assert(p_id == eff_p_id(edges_matrix@[y as int]@));
            if row_ok(row@) {
                assert(errors@ == errs0);
            } else {
                assert(errors@.len() > errs0.len());
            }
        }
        let ghost g0 = graph;
        graph.add_node(c_name, c_id);
        graph.add_node(p_name, p_id);
        graph.add_edge(c_id, p_id);
        edges.push((c_id, p_id));
        proof {
            assert(graph.edges_view() == g0.edges_view().insert(Edge { from: c_id, to: p_id }));
            assert forall|e: Edge| #[trigger] graph.edges_view().contains(e) implies exists|j: int|
                0 <= j < y + 1 && eff_c_id((#[trigger] edges_matrix@[j])@) == e.from && eff_p_id(
                    edges_matrix@[j]@,
                ) == e.to by {
                if e == (Edge { from: c_id, to: p_id }) {
                    assert(eff_c_id((edges_matrix@[y as int])@) == e.from && eff_p_id(
                        edges_matrix@[y as int]@,
                    ) == e.to);
                } else {
                    assert(g0.edges_view().contains(e));
                    let j = choose|j: int|
                        0 <= j < y && eff_c_id((#[trigger] edges_matrix@[j])@) == e.from
                            && eff_p_id(edges_matrix@[j]@) == e.to;
                    assert(eff_c_id((edges_matrix@[j])@) == e.from && eff_p_id(edges_matrix@[j]@)
                        == e.to);
                }
            }
            assert forall|e: Edge|
                (exists|j: int|
                    0 <= j < y + 1 && eff_c_id((#[trigger] edges_matrix@[j])@) == e.from
                        && eff_p_id(edges_matrix@[j]@) == e.to) implies
                #[trigger] graph.edges_view().contains(e) by {
                let j = choose|j: int|
                    0 <= j < y + 1 && eff_c_id((#[trigger] edges_matrix@[j])@) == e.from
                        && eff_p_id(edges_matrix@[j]@) == e.to;
                if j < y {
                    assert(exists|j2: int|
                        0 <= j2 < y && eff_c_id((#[trigger] edges_matrix@[j2])@) == e.from
                            && eff_p_id(edges_matrix@[j2]@) == e.to);
                }
            }
            assert forall|k: u32| #[trigger] graph.nodes_view().dom().contains(k) implies exists|
                j: int,
            |
                0 <= j < y + 1 && (eff_c_id((#[trigger] edges_matrix@[j])@) == k || eff_p_id(
                    edges_matrix@[j]@,
                ) == k) by {
                if k == c_id || k == p_id {
                    assert(eff_c_id((edges_matrix@[y as int])@) == k || eff_p_id(
                        edges_matrix@[y as int]@,
                    ) == k);
                } else {
                    assert(g0.nodes_view().dom().contains(k));
                    let j = choose|j: int|
                        0 <= j < y && (eff_c_id((#[trigger] edges_matrix@[j])@) == k || eff_p_id(
                            edges_matrix@[j]@,
                        ) == k);
                    assert(eff_c_id((edges_matrix@[j])@) == k || eff_p_id(edges_matrix@[j]@) == k);
                }
            }
            assert forall|k: u32|
                (exists|j: int|
                    0 <= j < y + 1 && (eff_c_id((#[trigger] edges_matrix@[j])@) == k || eff_p_id(
                        edges_matrix@[j]@,
                    ) == k)) implies #[trigger] graph.nodes_view().dom().contains(k) by {
                let j = choose|j: int|
                    0 <= j < y + 1 && (eff_c_id((#[trigger] edges_matrix@[j])@) == k || eff_p_id(
                        edges_matrix@[j]@,
                    ) == k);
                if j < y {
                    assert(exists|j2: int|
                        0 <= j2 < y && (eff_c_id((#[trigger] edges_matrix@[j2])@) == k || eff_p_id(
                            edges_matrix@[j2]@,
                        ) == k));
                }
            }
        }
        y += 1;
    }
    if errors.len() == 0 {
        return Ok((graph, edges));
    }
    Err(CreateError { task: "creating a graph".to_owned(), errors, input: edges_matrix.clone() })
}

/// Turns a matrix stored by rows into the same matrix stored by
/// columns.
#[verifier::loop_isolation(false)]
pub fn row_to_col_matrix(row_matrix: &Vec<Vec<String>>) -> (col: Vec<Vec<String>>)
    requires
        forall|j: int|
            0 <= j < row_matrix@.len() ==> (#[trigger] row_matrix@[j])@.len()
                == row_matrix@[0]@.len(),
    ensures
        col@.len() == if row_matrix@.len() == 0 {
            0int
        } else {
            row_matrix@[0]@.len() as int
        },
        forall|i: int|
            0 <= i < col@.len() ==> (#[trigger] col@[i])@.len() == row_matrix@.len(),
        forall|i: int, j: int|
            0 <= i < col@.len() && 0 <= j < row_matrix@.len() ==> (#[trigger] col@[i]@[j])@
                == row_matrix@[j]@[i]@,
{
    let mut col: Vec<Vec<String>> = Vec::new();
    if row_matrix.len() == 0 {
        return col;
    }
    let width = row_matrix[0].len();
    let height = row_matrix.len();
    let mut i: usize = 0;
    while i < width
        invariant
            i <= width,
            col@.len() == i,
            forall|p: int| 0 <= p < i ==> (#[trigger] col@[p])@.len() == height,
            forall|p: int, j: int|
                0 <= p < i && 0 <= j < height ==> (#[trigger] col@[p]@[j])@ == row_matrix@[j]@[p]@,
        decreases width - i,
    {
        let mut column: Vec<String> = Vec::new();
        let mut j: usize = 0;
        while j < height
            invariant
                j <= height,
                column@.len() == j,
                forall|q: int| 0 <= q < j ==> (#[trigger] column@[q])@ == row_matrix@[q]@[i as int]@,
            decreases height - j,
        {
            column.push(row_matrix[j][i].clone());
            j += 1;
        }
        col.push(column);
        i += 1;
    }
    col
}

/// Turns a matrix stored by columns back into one stored by rows.
#[verifier::loop_isolation(false)]
pub fn col_to_row_matrix(col_matrix: &Vec<Vec<String>>) -> (rows: Vec<Vec<String>>)
    requires
        col_matrix@.len() > 0,
        forall|j: int|
            0 <= j < col_matrix@.len() ==> (#[trigger] col_matrix@[j])@.len()
                == col_matrix@[0]@.len(),
    ensures
        rows@.len() == col_matrix@[0]@.len(),
        forall|i: int|
            0 <= i < rows@.len() ==> (#[trigger] rows@[i])@.len() == col_matrix@.len(),
        forall|i: int, j: int|
            0 <= i < rows@.len() && 0 <= j < col_matrix@.len() ==> (#[trigger] rows@[i]@[j])@
                == col_matrix@[j]@[i]@,
{
    let mut rows: Vec<Vec<String>> = Vec::new();
    let height = col_matrix[0].len();
    let width = col_matrix.len();
    let mut i: usize = 0;
    while i < height
        invariant
            i <= height,
            rows@.len() == i,
            forall|p: int| 0 <= p < i ==> (#[trigger] rows@[p])@.len() == width,
            forall|p: int, j: int|
                0 <= p < i && 0 <= j < width ==> (#[trigger] rows@[p]@[j])@ == col_matrix@[j]@[p]@,
        decreases height - i,
    {
        let mut row: Vec<String> = Vec::new();
        let mut j: usize = 0;
        while j < width
            invariant
                j <= width,
                row@.len() == j,
                forall|q: int| 0 <= q < j ==> (#[trigger] row@[q])@ == col_matrix@[q]@[i as int]@,
            decreases width - j,
        {
            row.push(col_matrix[j][i].clone());
            j += 1;
        }
        rows.push(row);
        i += 1;
    }
    rows
}

/// A way to read a graph, plus the extra data one analysis needs, from
/// some configured source.
pub trait Input: Sized {
    /// What describes the source and how to read it.
    type Configs;

    /// The extra data the target analysis needs.
    type AnalysisData;

    /// What a failed read reports.
    type ReadError;

    fn read(&self, configs: Self::Configs) -> Result<(Graph, Self::AnalysisData), Self::ReadError>;
}

/// Configuration for reading criticality inputs from the standard
/// links file layout.
pub struct STDCritConfigs {
    /// The path to the input file.
    pub in_path: String,
}

} // verus!
