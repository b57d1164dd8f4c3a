use vstd::prelude::*;
use std::collections::HashMap;

verus! {

broadcast use vstd::std_specs::hash::group_hash_axioms;

/// A single integer standing for a grid cell; distinct cells have distinct keys.
pub open spec fn cell_key(c: (i32, i32, i32)) -> int {
    (c.0 as int) * 0x1_0000_0000_0000_0000 + (c.1 as int + 0x8000_0000) * 0x1_0000_0000 + (
    c.2 as int + 0x8000_0000)
}

/// Distinct cells have distinct keys.
pub proof fn lemma_cell_key_injective(a: (i32, i32, i32), b: (i32, i32, i32))
    requires
        cell_key(a) == cell_key(b),
    ensures
        a == b,
{
    let a1 = a.1 as int + 0x8000_0000;
    let a2 = a.2 as int + 0x8000_0000;
    let b1 = b.1 as int + 0x8000_0000;
    let b2 = b.2 as int + 0x8000_0000;
    let lo_a = a1 * 0x1_0000_0000 + a2;
    let lo_b = b1 * 0x1_0000_0000 + b2;
    assert(0 <= lo_a < 0x1_0000_0000_0000_0000);
    assert(0 <= lo_b < 0x1_0000_0000_0000_0000);
    assert(a.0 == b.0 && lo_a == lo_b) by (nonlinear_arith)
        requires
            (a.0 as int) * 0x1_0000_0000_0000_0000 + lo_a == (b.0 as int) * 0x1_0000_0000_0000_0000
                + lo_b,
            0 <= lo_a < 0x1_0000_0000_0000_0000,
            0 <= lo_b < 0x1_0000_0000_0000_0000,
    ;
    assert(a1 == b1 && a2 == b2) by (nonlinear_arith)
        requires
            a1 * 0x1_0000_0000 + a2 == b1 * 0x1_0000_0000 + b2,
            0 <= a2 < 0x1_0000_0000,
            0 <= b2 < 0x1_0000_0000,
    ;
}

fn key_of(c: (i32, i32, i32)) -> (k: i128)
    ensures
        k == cell_key(c),
{
    (c.0 as i128) * 0x1_0000_0000_0000_0000i128 + (c.1 as i128 + 0x8000_0000i128) * 0x1_0000_0000i128
        + (c.2 as i128 + 0x8000_0000i128)
}

/// Indices `i` of `cells` with `cells[i] == c`, ascending.
pub open spec fn cell_members(cells: Seq<(i32, i32, i32)>, c: (i32, i32, i32)) -> Seq<usize>
    decreases cells.len(),
{
    if cells.len() == 0 {
        Seq::empty()
    } else {
        cell_members(cells.drop_last(), c) + if cells.last() == c {
            seq![(cells.len() - 1) as usize]
        } else {
            Seq::<usize>::empty()
        }
    }
}

/// A uniform grid over space: each cell holds the indices of the objects in it.
pub struct SpatialIndex {
    grid: HashMap<i128, Vec<usize>>,
}

impl View for SpatialIndex {
    type V = Map<(i32, i32, i32), Seq<usize>>;

    closed spec fn view(&self) -> Map<(i32, i32, i32), Seq<usize>> {
        Map::new(
            |c: (i32, i32, i32)| self.grid@.contains_key(cell_key(c) as i128),
            |c: (i32, i32, i32)| self.grid@[cell_key(c) as i128]@,
        )
    }
}

/// The indices held by cell `c` of grid `m`; none for an absent cell.
pub open spec fn occupants(m: Map<(i32, i32, i32), Seq<usize>>, c: (i32, i32, i32)) -> Seq<usize> {
    if m.contains_key(c) {
        m[c]
    } else {
        Seq::empty()
    }
}

/// Concatenated occupants of cells `(x, y, z)` for `z` from `zlo` to `zhi`.
pub open spec fn row(m: Map<(i32, i32, i32), Seq<usize>>, x: int, y: int, zlo: int, zhi: int) -> Seq<
    usize,
>
    decreases zhi - zlo + 1,
{
    if zhi < zlo {
        Seq::empty()
    } else {
        row(m, x, y, zlo, zhi - 1) + occupants(m, (x as i32, y as i32, zhi as i32))
    }
}

/// Concatenated rows `(x, y)` for `y` from `ylo` to `yhi`.
pub open spec fn plane(
    m: Map<(i32, i32, i32), Seq<usize>>,
    x: int,
    ylo: int,
    yhi: int,
    zlo: int,
    zhi: int,
) -> Seq<usize>
    decreases yhi - ylo + 1,
{
    if yhi < ylo {
        Seq::empty()
    } else {
        plane(m, x, ylo, yhi - 1, zlo, zhi) + row(m, x, yhi, zlo, zhi)
    }
}

/// Concatenated planes for `x` from `xlo` to `xhi`: the occupants of a box
/// of cells, scanned `x`-major, then `y`, then `z`.
pub open spec fn cube(
    m: Map<(i32, i32, i32), Seq<usize>>,
    xlo: int,
    xhi: int,
    ylo: int,
    yhi: int,
    zlo: int,
    zhi: int,
) -> Seq<usize>
    decreases xhi - xlo + 1,
{
    if xhi < xlo {
        Seq::empty()
    } else {
        cube(m, xlo, xhi - 1, ylo, yhi, zlo, zhi) + plane(m, xhi, ylo, yhi, zlo, zhi)
    }
}

/// The occupants of the cells within `r` cells of `center` along each axis.
pub open spec fn nearby(m: Map<(i32, i32, i32), Seq<usize>>, center: (i32, i32, i32), r: int) -> Seq<
    usize,
> {
    cube(
        m,
        center.0 - r,
        center.0 + r,
        center.1 - r,
        center.1 + r,
        center.2 - r,
        center.2 + r,
    )
}

/// Offset of the `k`-th cell of the 3 x 3 x 3 block around a cell, for `k`
/// from 0 to 26: `x`-major, then `y`, then `z`, each from -1 to 1, so that
/// the block's centre is `k = 13`.
pub open spec fn block_offset(k: int) -> (int, int, int) {
    (k / 9 - 1, (k / 3) % 3 - 1, k % 3 - 1)
}

/// Cell `c` moved by offset `o`.
pub open spec fn shifted(c: (i32, i32, i32), o: (int, int, int)) -> (i32, i32, i32) {
    ((c.0 + o.0) as i32, (c.1 + o.1) as i32, (c.2 + o.2) as i32)
}

/// The occupant lists of the occupied cells among the first `k` cells of
/// the block around `center`, leaving out `center` itself, in block order.
pub open spec fn neighbor_lists(m: Map<(i32, i32, i32), Seq<usize>>, center: (i32, i32, i32), k: int) -> Seq<
    Seq<usize>,
>
    decreases k,
{
    if k <= 0 {
        Seq::empty()
    } else {
        let prev = neighbor_lists(m, center, k - 1);
        let c = shifted(center, block_offset(k - 1));
        if k - 1 != 13 && m.contains_key(c) {
            prev.push(m[c])
        } else {
            prev
        }
    }
}

/// Whether a box of `r` cells around `center` stays within `i32` coordinates.
pub open spec fn box_in_range(center: (i32, i32, i32), r: int) -> bool {
    &&& r >= 0
    &&& i32::MIN <= center.0 - r && center.0 + r <= i32::MAX
    &&& i32::MIN <= center.1 - r && center.1 + r <= i32::MAX
    &&& i32::MIN <= center.2 - r && center.2 + r <= i32::MAX
}

proof fn lemma_concat_contains(a: Seq<usize>, b: Seq<usize>, v: usize)
    ensures
        (a + b).contains(v) <==> a.contains(v) || b.contains(v),
{
    if a.contains(v) {
        let k = choose|k: int| 0 <= k < a.len() && a[k] == v;
        assert((a + b)[k] == v);
    }
    if b.contains(v) {
        let k = choose|k: int| 0 <= k < b.len() && b[k] == v;
        assert((a + b)[a.len() + k] == v);
    }
    if (a + b).contains(v) {
        let k = choose|k: int| 0 <= k < (a + b).len() && (a + b)[k] == v;
        if k < a.len() {
            assert(a[k] == v);
        } else {
            assert(b[k - a.len()] == v);
        }
    }
}

proof fn lemma_cell_members_contains(cells: Seq<(i32, i32, i32)>, c: (i32, i32, i32), i: usize)
    requires
        cells.len() <= usize::MAX,
    ensures
        cell_members(cells, c).contains(i) <==> (i < cells.len() && cells[i as int] == c),
    decreases cells.len(),
{
    if cells.len() > 0 {
        let n = (cells.len() - 1) as usize;
        lemma_cell_members_contains(cells.drop_last(), c, i);
        let tail = if cells.last() == c {
            seq![n]
        } else {
            Seq::<usize>::empty()
        };
        lemma_concat_contains(cell_members(cells.drop_last(), c), tail, i);
        if cells.last() == c {
            assert(tail[0] == n);
        }
        if i < cells.drop_last().len() {
            assert(cells.drop_last()[i as int] == cells[i as int]);
        }
    }
}

/// Whether the grid `m` holds exactly the objects placed by `cells`.
pub open spec fn holds_cells(m: Map<(i32, i32, i32), Seq<usize>>, cells: Seq<(i32, i32, i32)>) -> bool {
    forall|c: (i32, i32, i32)| #[trigger] occupants(m, c) == cell_members(cells, c)
}

proof fn lemma_row_contains(
    m: Map<(i32, i32, i32), Seq<usize>>,
    cells: Seq<(i32, i32, i32)>,
    x: int,
    y: int,
    zlo: int,
    zhi: int,
    i: usize,
)
    requires
        holds_cells(m, cells),
        cells.len() <= usize::MAX,
        i32::MIN <= x <= i32::MAX,
        i32::MIN <= y <= i32::MAX,
        i32::MIN <= zlo,
        zhi <= i32::MAX,
    ensures
        row(m, x, y, zlo, zhi).contains(i) <==> (i < cells.len() && cells[i as int].0 == x
            && cells[i as int].1 == y && zlo <= cells[i as int].2 <= zhi),
    decreases zhi - zlo + 1,
{
    if zhi >= zlo {
        lemma_row_contains(m, cells, x, y, zlo, zhi - 1, i);
        let c = (x as i32, y as i32, zhi as i32);
        lemma_concat_contains(row(m, x, y, zlo, zhi - 1), occupants(m, c), i);
        assert(occupants(m, c) == cell_members(cells, c));
        lemma_cell_members_contains(cells, c, i);
    }
}

proof fn lemma_plane_contains(
    m: Map<(i32, i32, i32), Seq<usize>>,
    cells: Seq<(i32, i32, i32)>,
    x: int,
    ylo: int,
    yhi: int,
    zlo: int,
    zhi: int,
    i: usize,
)
    requires
        holds_cells(m, cells),
        cells.len() <= usize::MAX,
        i32::MIN <= x <= i32::MAX,
        i32::MIN <= ylo,
        yhi <= i32::MAX,
        i32::MIN <= zlo,
        zhi <= i32::MAX,
    ensures
        plane(m, x, ylo, yhi, zlo, zhi).contains(i) <==> (i < cells.len() && cells[i as int].0 == x
            && ylo <= cells[i as int].1 <= yhi && zlo <= cells[i as int].2 <= zhi),
    decreases yhi - ylo + 1,
{
    if yhi >= ylo {
        lemma_plane_contains(m, cells, x, ylo, yhi - 1, zlo, zhi, i);
        lemma_row_contains(m, cells, x, yhi, zlo, zhi, i);
        lemma_concat_contains(plane(m, x, ylo, yhi - 1, zlo, zhi), row(m, x, yhi, zlo, zhi), i);
    }
}

proof fn lemma_cube_contains(
    m: Map<(i32, i32, i32), Seq<usize>>,
    cells: Seq<(i32, i32, i32)>,
    xlo: int,
    xhi: int,
    ylo: int,
    yhi: int,
    zlo: int,
    zhi: int,
    i: usize,
)
    requires
        holds_cells(m, cells),
        cells.len() <= usize::MAX,
        i32::MIN <= xlo,
        xhi <= i32::MAX,
        i32::MIN <= ylo,
        yhi <= i32::MAX,
        i32::MIN <= zlo,
        zhi <= i32::MAX,
    ensures
        cube(m, xlo, xhi, ylo, yhi, zlo, zhi).contains(i) <==> (i < cells.len() && xlo
            <= cells[i as int].0 <= xhi && ylo <= cells[i as int].1 <= yhi && zlo <= cells[i as int].2
            <= zhi),
    decreases xhi - xlo + 1,
{
    if xhi >= xlo {
        lemma_cube_contains(m, cells, xlo, xhi - 1, ylo, yhi, zlo, zhi, i);
        lemma_plane_contains(m, cells, xhi, ylo, yhi, zlo, zhi, i);
        lemma_concat_contains(
            cube(m, xlo, xhi - 1, ylo, yhi, zlo, zhi),
            plane(m, xhi, ylo, yhi, zlo, zhi),
            i,
        );
    }
}

/// A query after `rebuild(cells)` finds object `i` exactly when `i` is one
/// of the placed objects and its cell lies within `r` cells of the centre
/// along every axis.
pub proof fn lemma_query_after_rebuild(
    m: Map<(i32, i32, i32), Seq<usize>>,
    cells: Seq<(i32, i32, i32)>,
    center: (i32, i32, i32),
    r: int,
    i: usize,
)
    requires
        holds_cells(m, cells),
        cells.len() <= usize::MAX,
        box_in_range(center, r),
    ensures
        nearby(m, center, r).contains(i) <==> (i < cells.len() && center.0 - r <= cells[i as int].0
            <= center.0 + r && center.1 - r <= cells[i as int].1 <= center.1 + r && center.2 - r
            <= cells[i as int].2 <= center.2 + r),
{
    lemma_cube_contains(
        m,
        cells,
        center.0 - r,
        center.0 + r,
        center.1 - r,
        center.1 + r,
        center.2 - r,
        center.2 + r,
        i,
    );
}

/// Whether cell `c` is one of the first `k` cells of the block around
/// `center`, other than `center` itself.
pub open spec fn among_first_neighbors(center: (i32, i32, i32), c: (i32, i32, i32), k: int) -> bool {
    exists|j: int| 0 <= j < k && j != 13 && c == #[trigger] shifted(center, block_offset(j))
}

proof fn lemma_neighbor_lists_contains(
    m: Map<(i32, i32, i32), Seq<usize>>,
    cells: Seq<(i32, i32, i32)>,
    center: (i32, i32, i32),
    k: int,
    v: usize,
)
    requires
        holds_cells(m, cells),
        cells.len() <= usize::MAX,
        0 <= k <= 27,
    ensures
        (exists|i: int|
            0 <= i < neighbor_lists(m, center, k).len() && (#[trigger] neighbor_lists(
                m,
                center,
                k,
            )[i]).contains(v)) <==> (v < cells.len() && among_first_neighbors(
            center,
            cells[v as int],
            k,
        )),
    decreases k,
{
    if k > 0 {
        lemma_neighbor_lists_contains(m, cells, center, k - 1, v);
        let prev = neighbor_lists(m, center, k - 1);
        let all = neighbor_lists(m, center, k);
        let c = shifted(center, block_offset(k - 1));
        assert(occupants(m, c) == cell_members(cells, c));
        lemma_cell_members_contains(cells, c, v);
        if v < cells.len() && among_first_neighbors(center, cells[v as int], k) {
            let j = choose|j: int|
                0 <= j < k && j != 13 && cells[v as int] == #[trigger] shifted(center, block_offset(j));
            if j < k - 1 {
                assert(among_first_neighbors(center, cells[v as int], k - 1));
                let i = choose|i: int| 0 <= i < prev.len() && (#[trigger] prev[i]).contains(v);
                assert(all[i] == prev[i]);
            } else {
                assert(m.contains_key(c));
                assert(all[prev.len() as int] == m[c]);
            }
        }
        if exists|i: int| 0 <= i < all.len() && (#[trigger] all[i]).contains(v) {
            let i = choose|i: int| 0 <= i < all.len() && (#[trigger] all[i]).contains(v);
            if i < prev.len() {
                assert(all[i] == prev[i]);
                let j = choose|j: int|
                    0 <= j < k - 1 && j != 13 && cells[v as int] == #[trigger] shifted(
                        center,
                        block_offset(j),
                    );
            } else {
                assert(all[i] == m[c]);
                assert(cells[v as int] == shifted(center, block_offset(k - 1)));
            }
        }
    }
}

proof fn lemma_block_offsets(center: (i32, i32, i32), c: (i32, i32, i32))
    requires
        box_in_range(center, 1),
    ensures
        among_first_neighbors(center, c, 27) <==> (c != center && center.0 - 1 <= c.0 <= center.0 + 1
            && center.1 - 1 <= c.1 <= center.1 + 1 && center.2 - 1 <= c.2 <= center.2 + 1),
{
    if among_first_neighbors(center, c, 27) {
        let j = choose|j: int| 0 <= j < 27 && j != 13 && c == #[trigger] shifted(center, block_offset(j));
        assert(0 <= j / 9 <= 2 && 0 <= (j / 3) % 3 <= 2 && 0 <= j % 3 <= 2);
        assert(j == 9 * (j / 9) + 3 * ((j / 3) % 3) + j % 3);
    }
    if c != center && center.0 - 1 <= c.0 <= center.0 + 1 && center.1 - 1 <= c.1 <= center.1 + 1
        && center.2 - 1 <= c.2 <= center.2 + 1 {
        let a = c.0 - center.0 + 1;
        let b = c.1 - center.1 + 1;
        let d = c.2 - center.2 + 1;
        let j = 9 * a + 3 * b + d;
        assert(j / 9 == a && (j / 3) % 3 == b && j % 3 == d);
        assert(c == shifted(center, block_offset(j)));
        assert(j != 13);
    }
}

/// A neighbour query after `rebuild(cells)` finds object `i` in one of its
/// lists exactly when `i` is one of the placed objects and its cell is one
/// of the 26 cells around the centre: within one cell along every axis, and
/// not the centre itself.
pub proof fn lemma_neighbors_after_rebuild(
    m: Map<(i32, i32, i32), Seq<usize>>,
    cells: Seq<(i32, i32, i32)>,
    center: (i32, i32, i32),
    i: usize,
)
    requires
        holds_cells(m, cells),
        cells.len() <= usize::MAX,
        box_in_range(center, 1),
    ensures
        (exists|n: int|
            0 <= n < neighbor_lists(m, center, 27).len() && (#[trigger] neighbor_lists(
                m,
                center,
                27,
            )[n]).contains(i)) <==> (i < cells.len() && cells[i as int] != center && center.0 - 1
            <= cells[i as int].0 <= center.0 + 1 && center.1 - 1 <= cells[i as int].1 <= center.1
            + 1 && center.2 - 1 <= cells[i as int].2 <= center.2 + 1),
{
    lemma_neighbor_lists_contains(m, cells, center, 27, i);
    if i < cells.len() {
        lemma_block_offsets(center, cells[i as int]);
    }
}

proof fn lemma_concat_no_duplicates(a: Seq<usize>, b: Seq<usize>)
    requires
        a.no_duplicates(),
        b.no_duplicates(),
        forall|v: usize| a.contains(v) ==> !b.contains(v),
    ensures
        (a + b).no_duplicates(),
{
    let c = a + b;
    assert forall|i: int, j: int| 0 <= i < c.len() && 0 <= j < c.len() && i != j implies c[i] != c[j] by {
        if i < a.len() && j >= a.len() {
            assert(a.contains(c[i]));
            assert(b[j - a.len()] == c[j]);
            assert(b.contains(c[j]));
        } else if j < a.len() && i >= a.len() {
            assert(a.contains(c[j]));
            assert(b[i - a.len()] == c[i]);
            assert(b.contains(c[i]));
        } else if i < a.len() && j < a.len() {
            assert(a[i] != a[j]);
        } else {
            assert(b[i - a.len()] != b[j - a.len()]);
        }
    }
}

proof fn lemma_cell_members_no_duplicates(cells: Seq<(i32, i32, i32)>, c: (i32, i32, i32))
    requires
        cells.len() <= usize::MAX,
    ensures
        cell_members(cells, c).no_duplicates(),
    decreases cells.len(),
{
    if cells.len() > 0 {
        let pre = cells.drop_last();
        lemma_cell_members_no_duplicates(pre, c);
        if cells.last() == c {
            let n = (cells.len() - 1) as usize;
            assert forall|v: usize| cell_members(pre, c).contains(v) implies !seq![n].contains(v) by {
                lemma_cell_members_contains(pre, c, v);
                if seq![n].contains(v) {
                    assert(seq![n][0] == n);
                }
            }
            assert(seq![n].no_duplicates());
            lemma_concat_no_duplicates(cell_members(pre, c), seq![n]);
        } else {
            assert(cell_members(cells, c) =~= cell_members(pre, c));
        }
    }
}

proof fn lemma_row_no_duplicates(
    m: Map<(i32, i32, i32), Seq<usize>>,
    cells: Seq<(i32, i32, i32)>,
    x: int,
    y: int,
    zlo: int,
    zhi: int,
)
    requires
        holds_cells(m, cells),
        cells.len() <= usize::MAX,
        i32::MIN <= x <= i32::MAX,
        i32::MIN <= y <= i32::MAX,
        i32::MIN <= zlo,
        zhi <= i32::MAX,
    ensures
        row(m, x, y, zlo, zhi).no_duplicates(),
    decreases zhi - zlo + 1,
{
    if zhi >= zlo {
        lemma_row_no_duplicates(m, cells, x, y, zlo, zhi - 1);
        let c = (x as i32, y as i32, zhi as i32);
        assert(occupants(m, c) == cell_members(cells, c));
        lemma_cell_members_no_duplicates(cells, c);
        assert forall|v: usize| row(m, x, y, zlo, zhi - 1).contains(v) implies !occupants(m, c).contains(v) by {
            lemma_row_contains(m, cells, x, y, zlo, zhi - 1, v);
            lemma_cell_members_contains(cells, c, v);
        }
        lemma_concat_no_duplicates(row(m, x, y, zlo, zhi - 1), occupants(m, c));
    } else {
        assert(row(m, x, y, zlo, zhi) =~= Seq::<usize>::empty());
    }
}

proof fn lemma_plane_no_duplicates(
    m: Map<(i32, i32, i32), Seq<usize>>,
    cells: Seq<(i32, i32, i32)>,
    x: int,
    ylo: int,
    yhi: int,
    zlo: int,
    zhi: int,
)
    requires
        holds_cells(m, cells),
        cells.len() <= usize::MAX,
        i32::MIN <= x <= i32::MAX,
        i32::MIN <= ylo,
        yhi <= i32::MAX,
        i32::MIN <= zlo,
        zhi <= i32::MAX,
    ensures
        plane(m, x, ylo, yhi, zlo, zhi).no_duplicates(),
    decreases yhi - ylo + 1,
{
    if yhi >= ylo {
        lemma_plane_no_duplicates(m, cells, x, ylo, yhi - 1, zlo, zhi);
        lemma_row_no_duplicates(m, cells, x, yhi, zlo, zhi);
        assert forall|v: usize| plane(m, x, ylo, yhi - 1, zlo, zhi).contains(v) implies !row(
            m,
            x,
            yhi,
            zlo,
            zhi,
        ).contains(v) by {
            lemma_plane_contains(m, cells, x, ylo, yhi - 1, zlo, zhi, v);
            lemma_row_contains(m, cells, x, yhi, zlo, zhi, v);
        }
        lemma_concat_no_duplicates(plane(m, x, ylo, yhi - 1, zlo, zhi), row(m, x, yhi, zlo, zhi));
    } else {
        assert(plane(m, x, ylo, yhi, zlo, zhi) =~= Seq::<usize>::empty());
    }
}

proof fn lemma_cube_no_duplicates(
    m: Map<(i32, i32, i32), Seq<usize>>,
    cells: Seq<(i32, i32, i32)>,
    xlo: int,
    xhi: int,
    ylo: int,
    yhi: int,
    zlo: int,
    zhi: int,
)
    requires
        holds_cells(m, cells),
        cells.len() <= usize::MAX,
        i32::MIN <= xlo,
        xhi <= i32::MAX,
        i32::MIN <= ylo,
        yhi <= i32::MAX,
        i32::MIN <= zlo,
        zhi <= i32::MAX,
    ensures
        cube(m, xlo, xhi, ylo, yhi, zlo, zhi).no_duplicates(),
    decreases xhi - xlo + 1,
{
    if xhi >= xlo {
        lemma_cube_no_duplicates(m, cells, xlo, xhi - 1, ylo, yhi, zlo, zhi);
        lemma_plane_no_duplicates(m, cells, xhi, ylo, yhi, zlo, zhi);
        assert forall|v: usize| cube(m, xlo, xhi - 1, ylo, yhi, zlo, zhi).contains(v) implies !plane(
            m,
            xhi,
            ylo,
            yhi,
            zlo,
            zhi,
        ).contains(v) by {
            lemma_cube_contains(m, cells, xlo, xhi - 1, ylo, yhi, zlo, zhi, v);
            lemma_plane_contains(m, cells, xhi, ylo, yhi, zlo, zhi, v);
        }
        lemma_concat_no_duplicates(
            cube(m, xlo, xhi - 1, ylo, yhi, zlo, zhi),
            plane(m, xhi, ylo, yhi, zlo, zhi),
        );
    } else {
        assert(cube(m, xlo, xhi, ylo, yhi, zlo, zhi) =~= Seq::<usize>::empty());
    }
}

/// A query after `rebuild(cells)` lists each object at most once.
pub proof fn lemma_query_no_duplicates(
    m: Map<(i32, i32, i32), Seq<usize>>,
    cells: Seq<(i32, i32, i32)>,
    center: (i32, i32, i32),
    r: int,
)
    requires
        holds_cells(m, cells),
        cells.len() <= usize::MAX,
        box_in_range(center, r),
    ensures
        nearby(m, center, r).no_duplicates(),
{
    lemma_cube_no_duplicates(
        m,
        cells,
        center.0 - r,
        center.0 + r,
        center.1 - r,
        center.1 + r,
        center.2 - r,
        center.2 + r,
    );
}

impl SpatialIndex {
    /// An empty grid.
    pub fn new() -> (g: Self)
        ensures
            forall|c: (i32, i32, i32)| occupants(g@, c) == Seq::<usize>::empty(),
    {
        SpatialIndex { grid: HashMap::new() }
    }

    /// Replaces the grid's contents: object `i` goes into cell `cells[i]`, and
    /// each cell lists its objects in ascending index order.
    pub fn rebuild(&mut self, cells: &[(i32, i32, i32)])
        ensures
            holds_cells(final(self)@, cells@),
    {
        self.grid.clear();
        let mut i: usize = 0;
        while i < cells.len()
            invariant
                i <= cells@.len(),
                forall|c: (i32, i32, i32)| #[trigger]
                    occupants(self@, c) == cell_members(cells@.take(i as int), c),
            decreases cells.len() - i,
        {
            let cell = cells[i];
            let k = key_of(cell);
            let ghost before = self@;
            let mut members = match self.grid.remove(&k) {
                Some(v) => v,
                None => Vec::new(),
            };
            assert(members@ == occupants(before, cell));
            members.push(i);
            self.grid.insert(k, members);
            proof {
                assert forall|c: (i32, i32, i32)| #[trigger]
                    occupants(self@, c) == cell_members(cells@.take(i + 1), c) by {
                    assert(cells@.take(i + 1).drop_last() =~= cells@.take(i as int));
                    assert(cells@.take(i + 1).last() == cell);
                    if c == cell {
                        assert(occupants(self@, c) =~= occupants(before, c).push(i));
                    } else {
                        if cell_key(c) == cell_key(cell) {
                            lemma_cell_key_injective(c, cell);
                        }
                        assert(occupants(self@, c) == occupants(before, c));
                        assert(cell_members(cells@.take(i + 1), c) =~= cell_members(
                            cells@.take(i as int),
                            c,
                        ));
                    }
                }
            }
            i += 1;
        }
        proof {
            assert(cells@.take(i as int) =~= cells@);
        }
    }

    /// The objects of each occupied cell among the 26 cells around `center`,
    /// one list per cell, cells taken by `x`, then `y`, then `z` offset.
    pub fn neighbor_occupants(&self, center: (i32, i32, i32)) -> (r: Vec<Vec<usize>>)
        requires
            box_in_range(center, 1),
        ensures
            r@.len() == neighbor_lists(self@, center, 27).len(),
            forall|i: int|
                0 <= i < r@.len() ==> (#[trigger] r@[i])@ == neighbor_lists(self@, center, 27)[i],
    {
        let ghost m = self@;
        let mut lists: Vec<Vec<usize>> = Vec::new();
        let mut k: i32 = 0;
        while k < 27
            invariant
                m == self@,
                0 <= k <= 27,
                box_in_range(center, 1),
                lists@.len() == neighbor_lists(m, center, k as int).len(),
                forall|i: int|
                    0 <= i < lists@.len() ==> (#[trigger] lists@[i])@ == neighbor_lists(
                        m,
                        center,
                        k as int,
                    )[i],
            decreases 27 - k,
        {
            if k != 13 {
                let cell = (center.0 + (k / 9 - 1), center.1 + ((k / 3) % 3 - 1), center.2 + (k % 3
                    - 1));
                assert(cell == shifted(center, block_offset(k as int)));
                let key = key_of(cell);
                if let Some(members) = self.grid.get(&key) {
                    let copy = members.clone();
                    assert(copy@ == m[cell]);
                    lists.push(copy);
                }
            }
            k += 1;
        }
        lists
    }

    /// Indices of the objects in the cells within `cells_to_search` cells of
    /// `center` along each axis, scanned by `x`, then `y`, then `z`, each
    /// cell's objects in ascending order.
    pub fn query_nearby(&self, center: (i32, i32, i32), cells_to_search: i32) -> (r: Vec<usize>)
        requires
            box_in_range(center, cells_to_search as int),
        ensures
            r@ == nearby(self@, center, cells_to_search as int),
    {
        let rr = cells_to_search as i64;
        let (cx, cy, cz) = (center.0 as i64, center.1 as i64, center.2 as i64);
        let ghost m = self@;
        let mut candidates: Vec<usize> = Vec::new();
        let mut x: i64 = cx - rr;
        while x <= cx + rr
            invariant
                m == self@,
                box_in_range(center, rr as int),
                rr == cells_to_search,
                cx == center.0 && cy == center.1 && cz == center.2,
                cx - rr <= x <= cx + rr + 1,
                candidates@ == cube(m, cx - rr, x - 1, cy - rr, cy + rr, cz - rr, cz + rr),
            decreases cx + rr + 1 - x,
        {
            let ghost before_x = candidates@;
            let mut y: i64 = cy - rr;
            while y <= cy + rr
                invariant
                    m == self@,
                    box_in_range(center, rr as int),
                    rr == cells_to_search,
                    cx == center.0 && cy == center.1 && cz == center.2,
                    cx - rr <= x <= cx + rr,
                    cy - rr <= y <= cy + rr + 1,
                    candidates@ == before_x + plane(m, x as int, cy - rr, y - 1, cz - rr, cz + rr),
                decreases cy + rr + 1 - y,
            {
                let ghost before_y = candidates@;
                let mut z: i64 = cz - rr;
                while z <= cz + rr
                    invariant
                        m == self@,
                        box_in_range(center, rr as int),
                        rr == cells_to_search,
                        cx == center.0 && cy == center.1 && cz == center.2,
                        cx - rr <= x <= cx + rr,
                        cy - rr <= y <= cy + rr,
                        cz - rr <= z <= cz + rr + 1,
                        candidates@ == before_y + row(m, x as int, y as int, cz - rr, z - 1),
                    decreases cz + rr + 1 - z,
                {
                    let cell = (x as i32, y as i32, z as i32);
                    let ghost before_z = candidates@;
                    let key = key_of(cell);
                    if let Some(members) = self.grid.get(&key) {
                        assert(members@ == occupants(m, cell));
                        let mut j: usize = 0;
                        while j < members.len()
                            invariant
                                j <= members@.len(),
                                candidates@ == before_z + members@.take(j as int),
                            decreases members.len() - j,
                        {
                            candidates.push(members[j]);
                            proof {
                                assert(members@.take(j + 1) =~= members@.take(j as int).push(
                                    members@[j as int],
                                ));
                            }
                            j += 1;
                        }
                        proof {
                            assert(members@.take(j as int) =~= members@);
                        }
                    }
                    proof {
                        assert(self.grid@.contains_key(key) || occupants(m, cell) == Seq::<usize>::empty());
                        assert(candidates@ =~= before_y + row(m, x as int, y as int, cz - rr, z as int));
                    }
                    z += 1;
                }
                proof {
                    assert(candidates@ =~= before_x + plane(m, x as int, cy - rr, y as int, cz - rr, cz + rr));
                }
                y += 1;
            }
            proof {
                assert(candidates@ =~= cube(m, cx - rr, x as int, cy - rr, cy + rr, cz - rr, cz + rr));
            }
            x += 1;
        }
        candidates
    }
}

} // verus!
