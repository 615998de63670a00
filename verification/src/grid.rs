//! Topology of the terrain graph: the four-neighbour edges of a regular
//! grid, and the nodes connected to a given node.

use vstd::prelude::*;

use crate::connect::{linked, reachable_from};
use crate::error::TerrainError;
use crate::graph::edge_list_view;
use crate::text::{str_eq, str_views};

verus! {

/// The forward edges of grid cell `(i, j)` on an `nx` by `ny` grid whose
/// cells are numbered row by row: to `(i, j + 1)`, then to `(i + 1, j)`,
/// each when that cell exists.
pub open spec fn cell_edges(nx: nat, ny: nat, i: nat, j: nat) -> Seq<(usize, usize)> {
    let c = i * ny + j;
    (if j + 1 < ny {
        seq![(c as usize, (c + 1) as usize)]
    } else {
        Seq::empty()
    }) + (if i + 1 < nx {
        seq![(c as usize, (c + ny) as usize)]
    } else {
        Seq::empty()
    })
}

/// The edges of the first `m` cells of row `i`.
pub open spec fn row_edges(nx: nat, ny: nat, i: nat, m: nat) -> Seq<(usize, usize)>
    decreases m,
{
    if m == 0 {
        Seq::empty()
    } else {
        row_edges(nx, ny, i, (m - 1) as nat) + cell_edges(nx, ny, i, (m - 1) as nat)
    }
}

/// The edges of the first `k` rows.
pub open spec fn rows_edges(nx: nat, ny: nat, k: nat) -> Seq<(usize, usize)>
    decreases k,
{
    if k == 0 {
        Seq::empty()
    } else {
        rows_edges(nx, ny, (k - 1) as nat) + row_edges(nx, ny, (k - 1) as nat, ny)
    }
}

/// The edges of an `nx` by `ny` grid, cell by cell, row by row.
pub open spec fn grid_edge_list(nx: nat, ny: nat) -> Seq<(usize, usize)> {
    rows_edges(nx, ny, nx)
}

/// The forward four-neighbour edges of an `nx` by `ny` grid whose cells are
/// numbered `i * ny + j`: for each cell in that order, the edge to the next
/// cell in its row, then the edge to the same cell of the next row.
pub fn grid_edges(nx: usize, ny: usize) -> (r: Vec<(usize, usize)>)
    requires
        nx * ny <= usize::MAX,
    ensures
        r@ == grid_edge_list(nx as nat, ny as nat),
{
    let mut r: Vec<(usize, usize)> = Vec::new();
    let mut i: usize = 0;
    while i < nx
        invariant
            i <= nx,
            nx * ny <= usize::MAX,
            r@ == rows_edges(nx as nat, ny as nat, i as nat),
        decreases nx - i,
    {
        let ghost r0 = r@;
        let mut j: usize = 0;
        while j < ny
            invariant
                i < nx,
                j <= ny,
                nx * ny <= usize::MAX,
                r@ == r0 + row_edges(nx as nat, ny as nat, i as nat, j as nat),
            decreases ny - j,
        {
            assert(i * ny + j < nx * ny) by (nonlinear_arith)
                requires
                    i < nx,
                    j < ny,
            ;
            assert((i + 1) * ny == i * ny + ny) by (nonlinear_arith);
            let c = i * ny + j;
            let ghost r1 = r@;
            if j + 1 < ny {
                r.push((c, c + 1));
            }
            if i + 1 < nx {
                assert((i + 1) * ny + j < nx * ny) by (nonlinear_arith)
                    requires
                        i + 1 < nx,
                        j < ny,
                ;
                r.push((c, c + ny));
            }
            proof {
                assert(r@ =~= r1 + cell_edges(nx as nat, ny as nat, i as nat, j as nat));
                assert(row_edges(nx as nat, ny as nat, i as nat, (j + 1) as nat) == row_edges(
                    nx as nat,
                    ny as nat,
                    i as nat,
                    j as nat,
                ) + cell_edges(nx as nat, ny as nat, i as nat, j as nat));
                assert(r@ =~= r0 + row_edges(nx as nat, ny as nat, i as nat, (j + 1) as nat));
            }
            j = j + 1;
        }
        i = i + 1;
    }
    r
}

proof fn lemma_row_edges_len(nx: nat, ny: nat, i: nat, m: nat)
    requires
        m <= ny,
    ensures
        row_edges(nx, ny, i, m).len() == (if m == ny && ny > 0 { m - 1 } else { m as int }) + (if i
            + 1 < nx {
            m as int
        } else {
            0
        }),
    decreases m,
{
    if m > 0 {
        lemma_row_edges_len(nx, ny, i, (m - 1) as nat);
        let c = cell_edges(nx, ny, i, (m - 1) as nat);
        assert(c.len() == (if m < ny { 1int } else { 0 }) + (if i + 1 < nx { 1int } else { 0 }));
        assert(row_edges(nx, ny, i, m) == row_edges(nx, ny, i, (m - 1) as nat) + c);
    }
}

proof fn lemma_rows_edges_len(nx: nat, ny: nat, k: nat)
    requires
        k <= nx,
        ny > 0,
    ensures
        rows_edges(nx, ny, k).len() == k * (ny - 1) + (if k == nx && nx > 0 {
            (k - 1) * ny
        } else {
            (k * ny) as int
        }),
    decreases k,
{
    if k > 0 {
        let k1 = (k - 1) as nat;
        lemma_rows_edges_len(nx, ny, k1);
        lemma_row_edges_len(nx, ny, k1, ny);
        assert(rows_edges(nx, ny, k) == rows_edges(nx, ny, k1) + row_edges(nx, ny, k1, ny));
        let a = rows_edges(nx, ny, k1).len();
        let b = row_edges(nx, ny, k1, ny).len();
        let target = k * (ny - 1) + (if k == nx && nx > 0 { (k - 1) * ny } else { (k * ny) as int });
        assert(a + b == target) by (nonlinear_arith)
            requires
                a == k1 * (ny - 1) + k1 * ny,
                b == (ny - 1) + (if k < nx { ny as int } else { 0 }),
                k1 + 1 == k,
                k <= nx,
                target == k * (ny - 1) + (if k == nx && nx > 0 { (k - 1) * ny } else { (k * ny) as int }),
        ;
    } else {
        assert(k * (ny - 1) == 0 && k * ny == 0) by (nonlinear_arith)
            requires
                k == 0,
        ;
    }
}

/// A grid of `nx` by `ny` cells has `nx (ny - 1)` edges along its rows and
/// `(nx - 1) ny` between rows.
pub proof fn law_grid_edge_count(nx: nat, ny: nat)
    requires
        nx > 0,
        ny > 0,
    ensures
        grid_edge_list(nx, ny).len() == nx * (ny - 1) + (nx - 1) * ny,
{
    lemma_rows_edges_len(nx, ny, nx);
}

/// The names of the nodes linked to `source` (itself included), each once,
/// or `NodeNotFound` when `source` is not one of `node_names`.
pub fn connected_component<W>(
    node_names: &Vec<String>,
    edges: &Vec<(String, String, W)>,
    source: &str,
) -> (r: Result<Vec<String>, TerrainError>)
    ensures
        match r {
            Ok(v) => {
                &&& str_views(node_names@).contains(source@)
                &&& str_views(v@).no_duplicates()
                &&& forall|x: Seq<char>|
                    str_views(v@).contains(x) <==> linked(edge_list_view(edges@), source@, x)
            },
            Err(e) => !str_views(node_names@).contains(source@) && (match e {
                TerrainError::NodeNotFound { id } => id@ == source@,
                _ => false,
            }),
        },
{
    let mut i: usize = 0;
    while i < node_names.len()
        invariant
            i <= node_names@.len(),
            forall|k: int| 0 <= k < i ==> node_names@[k]@ != source@,
        decreases node_names@.len() - i,
    {
        if str_eq(node_names[i].as_str(), source) {
            assert(str_views(node_names@)[i as int] == source@);
            return Ok(reachable_from(edges.as_slice(), source));
        }
        i = i + 1;
    }
    proof {
        if str_views(node_names@).contains(source@) {
            let k = str_views(node_names@).index_of(source@);
            assert(node_names@[k]@ == source@);
        }
    }
    Err(TerrainError::NodeNotFound { id: source.to_owned() })
}

} // verus!
