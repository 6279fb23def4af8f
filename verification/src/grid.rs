use std::collections::BTreeSet;
use vstd::prelude::*;

verus! {

broadcast use {vstd::std_specs::btree::group_btree_axioms, vstd::laws_cmp::group_laws_cmp};

/// Index of cell `(i, j)` in a row-major mask of rows of `n_lon + 1` cells.
pub open spec fn mask_index(i: int, j: int, n_lon: int) -> int {
    i * (n_lon + 1) + j
}

/// Number of cells of a grid with rows `0..=n_lat` and columns `0..=n_lon`.
pub open spec fn cell_count(n_lat: int, n_lon: int) -> int {
    if n_lat < 0 || n_lon < 0 { 0 } else { (n_lat + 1) * (n_lon + 1) }
}

/// Cells `(i, j)` with `0 <= i <= n_lat`, `0 <= j <= n_lon` whose mask entry is set.
pub open spec fn masked_cells(n_lat: int, n_lon: int, mask: Seq<bool>) -> Set<(i32, i32)> {
    Set::new(
        |k: (i32, i32)|
            0 <= k.0 <= n_lat && 0 <= k.1 <= n_lon && mask[mask_index(k.0 as int, k.1 as int, n_lon)],
    )
}

/// The sea cells of a routing grid: the cell keys whose centre lies at sea.
#[derive(Clone, Debug)]
pub struct SeaCells {
    cells: BTreeSet<(i32, i32)>,
}

impl View for SeaCells {
    type V = Set<(i32, i32)>;

    closed spec fn view(&self) -> Set<(i32, i32)> {
        self.cells@
    }
}

proof fn lemma_mask_index_bounds(i: int, j: int, n_lat: int, n_lon: int)
    requires
        0 <= i <= n_lat,
        0 <= j <= n_lon,
    ensures
        0 <= mask_index(i, j, n_lon) < (n_lat + 1) * (n_lon + 1),
        mask_index(i, j, n_lon) + 1 == (if j < n_lon { mask_index(i, j + 1, n_lon) } else { mask_index(i + 1, 0, n_lon) }),
{
    assert(0 <= i * (n_lon + 1) + j < (n_lat + 1) * (n_lon + 1)) by (nonlinear_arith)
        requires
            0 <= i <= n_lat,
            0 <= j <= n_lon,
    ;
    assert((i + 1) * (n_lon + 1) == i * (n_lon + 1) + n_lon + 1) by (nonlinear_arith);
}

proof fn lemma_mask_index_injective(i1: int, j1: int, i2: int, j2: int, n_lon: int)
    requires
        0 <= j1 <= n_lon,
        0 <= j2 <= n_lon,
        mask_index(i1, j1, n_lon) == mask_index(i2, j2, n_lon),
    ensures
        i1 == i2 && j1 == j2,
{
    assert(i1 == i2) by (nonlinear_arith)
        requires
            0 <= j1 <= n_lon,
            0 <= j2 <= n_lon,
            i1 * (n_lon + 1) + j1 == i2 * (n_lon + 1) + j2,
    ;
}

impl SeaCells {
    /// Collects the sea cells of a grid of `n_lat + 1` rows and `n_lon + 1` columns from
    /// `is_sea`, the land/sea answer of each cell centre in row-major order.
    pub fn from_mask(n_lat: i32, n_lon: i32, is_sea: &Vec<bool>) -> (s: Self)
        requires
            n_lat < i32::MAX,
            n_lon < i32::MAX,
            is_sea@.len() == cell_count(n_lat as int, n_lon as int),
        ensures
            s@ == masked_cells(n_lat as int, n_lon as int, is_sea@),
    {
        if n_lat < 0 || n_lon < 0 {
            assert(masked_cells(n_lat as int, n_lon as int, is_sea@) =~= Set::<(i32, i32)>::empty());
            return SeaCells { cells: BTreeSet::new() };
        }
        let len = is_sea.len();
        let mut cells: BTreeSet<(i32, i32)> = BTreeSet::new();
        let mut idx: usize = 0;
        let mut i: i32 = 0;
        while i <= n_lat
            invariant
                0 <= n_lat < i32::MAX,
                0 <= n_lon < i32::MAX,
                is_sea@.len() == (n_lat + 1) * (n_lon + 1),
                len == is_sea@.len(),
                0 <= i <= n_lat + 1,
                idx == mask_index(i as int, 0, n_lon as int),
                cells@ == Set::new(
                    |k: (i32, i32)|
                        0 <= k.0 < i && 0 <= k.1 <= n_lon && is_sea@[mask_index(k.0 as int, k.1 as int, n_lon as int)],
                ),
            decreases n_lat + 1 - i,
        {
            let mut j: i32 = 0;
            while j <= n_lon
                invariant
                    0 <= n_lat < i32::MAX,
                    0 <= n_lon < i32::MAX,
                    is_sea@.len() == (n_lat + 1) * (n_lon + 1),
                    len == is_sea@.len(),
                    0 <= i <= n_lat,
                    0 <= j <= n_lon + 1,
                    idx == mask_index(i as int, j as int, n_lon as int),
                    cells@ == Set::new(
                        |k: (i32, i32)|
                            (0 <= k.0 < i && 0 <= k.1 <= n_lon || k.0 == i && 0 <= k.1 < j)
                                && is_sea@[mask_index(k.0 as int, k.1 as int, n_lon as int)],
                    ),
                decreases n_lon + 1 - j,
            {
                proof {
                    lemma_mask_index_bounds(i as int, j as int, n_lat as int, n_lon as int);
                }
                assert(idx < is_sea@.len());
                if is_sea[idx] {
                    cells.insert((i, j));
                }
                idx = idx + 1;
                j = j + 1;
                assert(cells@ =~= Set::new(
                    |k: (i32, i32)|
                        (0 <= k.0 < i && 0 <= k.1 <= n_lon || k.0 == i && 0 <= k.1 < j)
                            && is_sea@[mask_index(k.0 as int, k.1 as int, n_lon as int)],
                ));
            }
            proof {
                assert(mask_index(i as int, n_lon + 1, n_lon as int) == mask_index(i + 1, 0, n_lon as int))
                    by (nonlinear_arith);
            }
            i = i + 1;
            assert(cells@ =~= Set::new(
                |k: (i32, i32)|
                    0 <= k.0 < i && 0 <= k.1 <= n_lon && is_sea@[mask_index(k.0 as int, k.1 as int, n_lon as int)],
            ));
        }
        assert(cells@ =~= masked_cells(n_lat as int, n_lon as int, is_sea@));
        SeaCells { cells }
    }

    /// Whether cell `key` is a sea cell of the grid.
    pub fn is_sea_cell(&self, key: (i32, i32)) -> (b: bool)
        ensures
            b == self@.contains(key),
    {
        self.cells.contains(&key)
    }
}

/// The sea-cell mask is read row by row: cell `(i, j)` of the grid (`0 <= i <= n_lat`,
/// `0 <= j <= n_lon`) is a sea cell exactly when entry `i (n_lon + 1) + j` of the mask is
/// set, and no key outside the grid is a sea cell.
pub proof fn lemma_masked_cells_row_major(n_lat: int, n_lon: int, mask: Seq<bool>)
    ensures
        forall|i: i32, j: i32|
            #![trigger masked_cells(n_lat, n_lon, mask).contains((i, j))]
            masked_cells(n_lat, n_lon, mask).contains((i, j)) <==> (0 <= i <= n_lat && 0 <= j
                <= n_lon && mask[i * (n_lon + 1) + j]),
{
}

} // verus!
