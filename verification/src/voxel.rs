use vstd::prelude::*;

verus! {

/// The state of one cell of a voxel map.
#[derive(Clone, Copy, PartialEq, Eq, Structural, Debug)]
pub enum Voxel {
    /// No point fell into the cell.
    Empty,
    /// Some points fell into the cell.
    Occupied,
    /// More points fell into the cell than the map's limit allows.
    Dense,
}

/// A rectangular grid of voxel states, indexed by row and column.
pub struct VoxelMap {
    cells: Vec<Vec<Voxel>>,
    rows: usize,
    cols: usize,
}

/// The states of the rows of a grid.
pub open spec fn row_views(cells: Seq<Vec<Voxel>>) -> Seq<Seq<Voxel>> {
    cells.map_values(|row: Vec<Voxel>| row@)
}

impl View for VoxelMap {
    type V = Seq<Seq<Voxel>>;

    closed spec fn view(&self) -> Seq<Seq<Voxel>> {
        row_views(self.cells@)
    }
}

impl VoxelMap {
    /// Every row holds `width()` cells.
    pub closed spec fn wf(&self) -> bool {
        &&& self.cells@.len() == self.rows
        &&& forall|r: int| 0 <= r < self.rows ==> (#[trigger] self.cells@[r])@.len() == self.cols
    }

    /// The number of columns of the map.
    pub closed spec fn width(&self) -> nat {
        self.cols as nat
    }

    /// Every row of a well-formed map holds `width()` cells.
    pub proof fn lemma_rows_have_width(&self)
        requires
            self.wf(),
        ensures
            forall|r: int| 0 <= r < self@.len() ==> (#[trigger] self@[r]).len() == self.width(),
    {
    }

    /// A map of `rows` by `cols` empty cells.
    pub fn new(rows: usize, cols: usize) -> (map: VoxelMap)
        ensures
            map.wf(),
            map@.len() == rows,
            map.width() == cols,
            forall|r: int, c: int|
                0 <= r < rows && 0 <= c < cols ==> #[trigger] map@[r][c] == Voxel::Empty,
    {
        let mut cells: Vec<Vec<Voxel>> = Vec::new();
        let mut r: usize = 0;
        while r < rows
            invariant
                r <= rows,
                cells@.len() == r,
                forall|q: int| 0 <= q < r ==> (#[trigger] cells@[q])@.len() == cols,
                forall|q: int, c: int|
                    0 <= q < r && 0 <= c < cols ==> #[trigger] cells@[q]@[c] == Voxel::Empty,
            decreases rows - r,
        {
            let mut row: Vec<Voxel> = Vec::new();
            let mut c: usize = 0;
            while c < cols
                invariant
                    c <= cols,
                    row@.len() == c,
                    forall|k: int| 0 <= k < c ==> row@[k] == Voxel::Empty,
                decreases cols - c,
            {
                row.push(Voxel::Empty);
                c = c + 1;
            }
            cells.push(row);
            r = r + 1;
        }
        VoxelMap { cells, rows, cols }
    }

    /// The number of rows.
    pub fn rows(&self) -> (rows: usize)
        requires
            self.wf(),
        ensures
            rows == self@.len(),
    {
        self.rows
    }

    /// The number of columns.
    pub fn cols(&self) -> (cols: usize)
        ensures
            cols == self.width(),
    {
        self.cols
    }

    /// The state of the cell at row `r`, column `c`.
    pub fn get(&self, r: usize, c: usize) -> (cell: Voxel)
        requires
            self.wf(),
            r < self@.len(),
            c < self.width(),
        ensures
            cell == self@[r as int][c as int],
    {
        self.cells[r][c]
    }

    /// Sets the state of the cell at row `r`, column `c`.
    pub fn set(&mut self, r: usize, c: usize, cell: Voxel)
        requires
            old(self).wf(),
            r < old(self)@.len(),
            c < old(self).width(),
        ensures
            final(self).wf(),
            final(self)@ == old(self)@.update(r as int, old(self)@[r as int].update(c as int, cell)),
            final(self).width() == old(self).width(),
            final(self)@.len() == old(self)@.len(),
            final(self)@[r as int][c as int] == cell,
            forall|q: int, k: int|
                0 <= q < old(self)@.len() && 0 <= k < old(self).width() && (q != r || k != c)
                    ==> #[trigger] final(self)@[q][k] == old(self)@[q][k],
    {
        self.cells[r][c] = cell;
        assert(self@ =~= old(self)@.update(r as int, old(self)@[r as int].update(c as int, cell)));
    }
}


/// Where one point of a scan falls: the voxel it maps to, and whether it lies
/// inside the region the scan covers. Points outside that region are ignored,
/// and their voxel indices need not be on the grid.
#[derive(Clone, Copy, Debug)]
pub struct PointCell {
    pub row: usize,
    pub col: usize,
    pub inside: bool,
}

/// Whether a point counts for the voxel at row `r`, column `c`.
pub open spec fn counts_for(point: PointCell, r: int, c: int) -> bool {
    point.inside && point.row == r && point.col == c
}

/// The number of points that count for the voxel at row `r`, column `c`.
pub open spec fn hits(points: Seq<PointCell>, r: int, c: int) -> nat
    decreases points.len(),
{
    if points.len() == 0 {
        0
    } else {
        hits(points.drop_last(), r, c) + if counts_for(points.last(), r, c) {
            1nat
        } else {
            0nat
        }
    }
}

/// The state of a voxel hit `n` times, when a voxel turns dense once more than
/// `limit` points have been counted in it. A negative limit makes a voxel
/// dense from its first point on.
pub open spec fn voxel_state(n: nat, limit: int) -> Voxel {
    if n == 0 {
        Voxel::Empty
    } else if n <= limit + 1 {
        Voxel::Occupied
    } else {
        Voxel::Dense
    }
}

/// A voxel's hits are the inside points that map to it, and its state follows
/// from their number `n` alone: empty when `n` is zero, occupied while `n` is
/// at most `limit + 1`, dense beyond that. So with `limit + 1` hits a voxel is
/// still occupied, with `limit + 2` it is dense, whatever the limit.
pub proof fn lemma_voxel_state_by_point_count(points: Seq<PointCell>, limit: int, r: int, c: int)
    ensures
        hits(points, r, c) == points.filter(
            |p: PointCell| p.inside && p.row == r && p.col == c,
        ).len(),
        hits(points, r, c) == 0 ==> voxel_state(hits(points, r, c), limit) == Voxel::Empty,
        1 <= hits(points, r, c) <= limit + 1 ==> voxel_state(hits(points, r, c), limit)
            == Voxel::Occupied,
        hits(points, r, c) >= 1 && hits(points, r, c) > limit + 1 ==> voxel_state(
            hits(points, r, c),
            limit,
        ) == Voxel::Dense,
        forall|n: nat|
            1 <= n <= limit + 1 ==> #[trigger] voxel_state(n, limit) == Voxel::Occupied,
        forall|n: nat|
            n >= 1 && n > limit + 1 ==> #[trigger] voxel_state(n, limit) == Voxel::Dense,
        limit >= 0 ==> voxel_state((limit + 1) as nat, limit) == Voxel::Occupied,
        limit >= 0 ==> voxel_state((limit + 2) as nat, limit) == Voxel::Dense,
    decreases points.len(),
{
    reveal(Seq::filter);
    if points.len() > 0 {
        lemma_voxel_state_by_point_count(points.drop_last(), limit, r, c);
    }
}

/// Every inside point maps to a voxel of a `rows` by `cols` grid.
pub open spec fn points_on_grid(points: Seq<PointCell>, rows: nat, cols: nat) -> bool {
    forall|k: int|
        0 <= k < points.len() && (#[trigger] points[k]).inside ==> points[k].row < rows
            && points[k].col < cols
}

/// How many of `n` points are counted in a voxel: points stop being counted
/// once more than `limit` have been.
spec fn counted(n: nat, limit: int) -> nat {
    if limit < 0 {
        0
    } else if n <= limit + 1 {
        n
    } else {
        (limit + 1) as nat
    }
}

/// Builds the voxel map of one scan. Points are taken in order; a point inside
/// the covered region marks its voxel occupied and is counted there, unless
/// more than `limit` points have already been counted in that voxel (with a
/// negative limit, always), in which case the voxel is marked dense.
pub fn pcd_2_voxel_map(rows: usize, cols: usize, points: &[PointCell], limit: i64) -> (map: VoxelMap)
    requires
        points_on_grid(points@, rows as nat, cols as nat),
    ensures
        map.wf(),
        map@.len() == rows,
        map.width() == cols,
        forall|r: int, c: int|
            0 <= r < rows && 0 <= c < cols ==> #[trigger] map@[r][c] == voxel_state(
                hits(points@, r, c),
                limit as int,
            ),
{
    let mut map = VoxelMap::new(rows, cols);
    let mut counts: Vec<Vec<u64>> = Vec::new();
    let mut r: usize = 0;
    while r < rows
        invariant
            r <= rows,
            counts@.len() == r,
            forall|q: int| 0 <= q < r ==> (#[trigger] counts@[q])@.len() == cols,
            forall|q: int, c: int| 0 <= q < r && 0 <= c < cols ==> #[trigger] counts@[q]@[c] == 0,
        decreases rows - r,
    {
        let mut row: Vec<u64> = Vec::new();
        let mut c: usize = 0;
        while c < cols
            invariant
                c <= cols,
                row@.len() == c,
                forall|k: int| 0 <= k < c ==> row@[k] == 0,
            decreases cols - c,
        {
            row.push(0);
            c = c + 1;
        }
        counts.push(row);
        r = r + 1;
    }
    let mut k: usize = 0;
    while k < points.len()
        invariant
            k <= points.len(),
            points_on_grid(points@, rows as nat, cols as nat),
            map.wf(),
            map@.len() == rows,
            map.width() == cols,
            counts@.len() == rows,
            forall|q: int| 0 <= q < rows ==> (#[trigger] counts@[q])@.len() == cols,
            forall|q: int, c: int|
                0 <= q < rows && 0 <= c < cols ==> #[trigger] counts@[q]@[c] == counted(
                    hits(points@.subrange(0, k as int), q, c),
                    limit as int,
                ),
            forall|q: int, c: int|
                0 <= q < rows && 0 <= c < cols ==> #[trigger] map@[q][c] == voxel_state(
                    hits(points@.subrange(0, k as int), q, c),
                    limit as int,
                ),
            forall|q: int, c: int|
                0 <= q < rows && 0 <= c < cols ==> hits(points@.subrange(0, k as int), q, c)
                    <= k,
        decreases points.len() - k,
    {
        let point = points[k];
        let ghost before = points@.subrange(0, k as int);
        let ghost after = points@.subrange(0, k + 1);
        assert(after.drop_last() =~= before);
        assert(after.last() == point);
        proof {
            assert forall|q: int, c: int| 0 <= q < rows && 0 <= c < cols implies hits(after, q, c)
                == hits(before, q, c) + if counts_for(point, q, c) {
                1nat
            } else {
                0nat
            } by {}
        }
        if point.inside {
            let i: usize = point.row;
            let j: usize = point.col;
            assert(points@[k as int] == point);
            let count: u64 = counts[i][j];
            if limit < 0 || count > limit as u64 {
                map.set(i, j, Voxel::Dense);
            } else {
                map.set(i, j, Voxel::Occupied);
                counts[i][j] = count + 1;
            }
        }
        k = k + 1;
    }
    assert(points@.subrange(0, k as int) =~= points@);
    map
}


/// Whether `map` has a dense voxel at row `i`, column `j` of the window
/// `[ci - radius, ci + radius) x [cj - radius, cj + radius)`, counting only rows
/// and columns from 1 on (row 0 and column 0 are never looked at).
pub open spec fn dense_at(map: VoxelMap, ci: int, cj: int, radius: int, i: int, j: int) -> bool {
    &&& ci - radius <= i < ci + radius
    &&& cj - radius <= j < cj + radius
    &&& 0 < i < map@.len()
    &&& 0 < j < map.width()
    &&& map@[i][j] == Voxel::Dense
}

/// Whether `map` has a dense voxel in the window around `(ci, cj)`.
pub open spec fn dense_near(map: VoxelMap, ci: int, cj: int, radius: int) -> bool {
    exists|i: int, j: int| dense_at(map, ci, cj, radius, i, j)
}

/// The window around `(ci, cj)` stays within the range of `i32`, as do the
/// maps' dimensions.
pub open spec fn window_fits(maps: Seq<VoxelMap>, indices: Seq<usize>, ci: int, cj: int, radius: int) -> bool {
    &&& ci <= i32::MAX
    &&& cj <= i32::MAX
    &&& i32::MIN <= ci - radius <= i32::MAX
    &&& i32::MIN <= ci + radius <= i32::MAX
    &&& i32::MIN <= cj - radius <= i32::MAX
    &&& i32::MIN <= cj + radius <= i32::MAX
    &&& forall|t: int|
        0 <= t < indices.len() ==> {
            &&& #[trigger] indices[t] < maps.len()
            &&& maps[indices[t] as int].wf()
            &&& maps[indices[t] as int]@.len() <= i32::MAX
            &&& maps[indices[t] as int].width() <= i32::MAX
        }
}

/// Whether any of the maps named by `indices` has a dense voxel in the window
/// `[center_i - radius, center_i + radius) x [center_j - radius, center_j + radius)`.
pub fn check_proximity(
    maps: &[VoxelMap],
    indices: &[usize],
    center_i: usize,
    center_j: usize,
    radius: i32,
) -> (near: bool)
    requires
        window_fits(maps@, indices@, center_i as int, center_j as int, radius as int),
    ensures
        near == exists|t: int|
            0 <= t < indices.len() && #[trigger] dense_near(
                maps@[indices@[t] as int],
                center_i as int,
                center_j as int,
                radius as int,
            ),
{
    assert(center_i <= i32::MAX && center_j <= i32::MAX);
    let ci: i32 = center_i as i32;
    let cj: i32 = center_j as i32;
    assert(ci == center_i && cj == center_j);
    let int_li: i32 = ci - radius;
    let int_hi: i32 = ci + radius;
    let int_lj: i32 = cj - radius;
    let int_hj: i32 = cj + radius;
    let mut t: usize = 0;
    while t < indices.len()
        invariant
            window_fits(maps@, indices@, center_i as int, center_j as int, radius as int),
            ci == center_i,
            cj == center_j,
            int_li == ci - radius,
            int_hi == ci + radius,
            int_lj == cj - radius,
            int_hj == cj + radius,
            t <= indices.len(),
            forall|u: int|
                0 <= u < t ==> !#[trigger] dense_near(
                    maps@[indices@[u] as int],
                    center_i as int,
                    center_j as int,
                    radius as int,
                ),
        decreases indices.len() - t,
    {
        let k: usize = indices[t];
        let map = &maps[k];
        let rows: i32 = map.rows() as i32;
        let cols: i32 = map.cols() as i32;
        let mut i: i32 = int_li;
        while i < int_hi
            invariant
                window_fits(maps@, indices@, center_i as int, center_j as int, radius as int),
                t < indices.len(),
                k == indices@[t as int],
                *map == maps@[k as int],
                map.wf(),
                rows == map@.len(),
                cols == map.width(),
                int_li == ci - radius,
                int_hi == ci + radius,
                int_lj == cj - radius,
                int_hj == cj + radius,
                ci == center_i,
                cj == center_j,
                int_li <= i,
                forall|a: int, b: int|
                    int_li <= a < i ==> !dense_at(*map, ci as int, cj as int, radius as int, a, b),
            decreases int_hi - i,
        {
            let mut j: i32 = int_lj;
            while j < int_hj
                invariant
                    window_fits(maps@, indices@, center_i as int, center_j as int, radius as int),
                    t < indices.len(),
                    k == indices@[t as int],
                    *map == maps@[k as int],
                    map.wf(),
                    rows == map@.len(),
                    cols == map.width(),
                    int_li <= i < int_hi,
                    int_lj == cj - radius,
                    int_hj == cj + radius,
                    int_li == ci - radius,
                    int_hi == ci + radius,
                    int_lj <= j,
                    ci == center_i,
                    cj == center_j,
                    forall|b: int|
                        int_lj <= b < j ==> !dense_at(*map, ci as int, cj as int, radius as int, i as int, b),
                decreases int_hj - j,
            {
                if !(i > 0 && i < rows && j > 0 && j < cols) {
                    j = j + 1;
                    continue;
                } else if map.get(i as usize, j as usize) == Voxel::Dense {
                    assert(dense_at(
                        maps@[indices@[t as int] as int],
                        center_i as int,
                        center_j as int,
                        radius as int,
                        i as int,
                        j as int,
                    ));
                    assert(dense_near(
                        maps@[indices@[t as int] as int],
                        center_i as int,
                        center_j as int,
                        radius as int,
                    ));
                    return true;
                }
                j = j + 1;
            }
            assert forall|a: int, b: int|
                int_li <= a < i + 1 implies !dense_at(*map, ci as int, cj as int, radius as int, a, b) by {
                if a == i && int_lj <= b < int_hj {
                }
            }
            i = i + 1;
        }
        assert(!dense_near(*map, ci as int, cj as int, radius as int));
        t = t + 1;
    }
    false
}


/// Some map named by `indices` has a dense voxel near `(ci, cj)` exactly when
/// one of those maps has a dense cell at a row `i` and column `j` with
/// `ci - radius <= i < ci + radius`, `cj - radius <= j < cj + radius`, `i` and
/// `j` positive and inside the map. Every such cell counts, the centre too.
pub proof fn lemma_proximity_is_dense_cell_in_window(
    maps: Seq<VoxelMap>,
    indices: Seq<usize>,
    ci: int,
    cj: int,
    radius: int,
)
    ensures
        (exists|t: int|
            0 <= t < indices.len() && #[trigger] dense_near(maps[indices[t] as int], ci, cj, radius))
            <==> (exists|t: int, i: int, j: int|
            0 <= t < indices.len() && ci - radius <= i < ci + radius && cj - radius <= j < cj
                + radius && 0 < i < maps[indices[t] as int]@.len() && 0 < j < maps[indices[
                t
            ] as int].width() && #[trigger] maps[indices[t] as int]@[i][j] == Voxel::Dense),
{
    if exists|t: int|
        0 <= t < indices.len() && #[trigger] dense_near(maps[indices[t] as int], ci, cj, radius) {
        let t = choose|t: int|
            0 <= t < indices.len() && #[trigger] dense_near(maps[indices[t] as int], ci, cj, radius);
        let (i, j) = choose|i: int, j: int| dense_at(maps[indices[t] as int], ci, cj, radius, i, j);
        assert(maps[indices[t] as int]@[i][j] == Voxel::Dense);
    }
    if exists|t: int, i: int, j: int|
        0 <= t < indices.len() && ci - radius <= i < ci + radius && cj - radius <= j < cj + radius
            && 0 < i < maps[indices[t] as int]@.len() && 0 < j < maps[indices[t] as int].width()
            && #[trigger] maps[indices[t] as int]@[i][j] == Voxel::Dense {
        let (t, i, j) = choose|t: int, i: int, j: int|
            0 <= t < indices.len() && ci - radius <= i < ci + radius && cj - radius <= j < cj
                + radius && 0 < i < maps[indices[t] as int]@.len() && 0 < j < maps[indices[
                t
            ] as int].width() && #[trigger] maps[indices[t] as int]@[i][j] == Voxel::Dense;
        assert(dense_at(maps[indices[t] as int], ci, cj, radius, i, j));
        assert(dense_near(maps[indices[t] as int], ci, cj, radius));
    }
}

/// A named map whose own cell `(ci, cj)` is dense (with `ci`, `cj` positive and
/// inside the map) is near `(ci, cj)` for every positive radius: the centre of
/// the window is looked at.
pub proof fn lemma_dense_centre_is_near(
    maps: Seq<VoxelMap>,
    indices: Seq<usize>,
    t: int,
    ci: int,
    cj: int,
    radius: int,
)
    requires
        0 <= t < indices.len(),
        radius > 0,
        0 < ci < maps[indices[t] as int]@.len(),
        0 < cj < maps[indices[t] as int].width(),
        maps[indices[t] as int]@[ci][cj] == Voxel::Dense,
    ensures
        exists|u: int|
            0 <= u < indices.len() && #[trigger] dense_near(maps[indices[u] as int], ci, cj, radius),
{
    assert(dense_at(maps[indices[t] as int], ci, cj, radius, ci, cj));
    assert(dense_near(maps[indices[t] as int], ci, cj, radius));
}

/// The radius of the window in which a dense voxel of another scan explains a
/// dense voxel.
pub open spec fn proximity_radius() -> int {
    5
}

/// Whether the maps have the shape the comparison expects: at least one map,
/// all maps of the same size, and a coverage grid of that size for each map.
/// `coverage[m][i][j]` tells whether the centre of voxel `(i, j)` lies in the
/// region scanned by scan `m`.
pub open spec fn comparable(maps: Seq<VoxelMap>, coverage: Seq<Vec<Vec<bool>>>) -> bool {
    &&& maps.len() > 0
    &&& coverage.len() == maps.len()
    &&& maps[0]@.len() + proximity_radius() <= i32::MAX
    &&& maps[0].width() + proximity_radius() <= i32::MAX
    &&& forall|m: int|
        0 <= m < maps.len() ==> {
            &&& (#[trigger] maps[m]).wf()
            &&& maps[m]@.len() == maps[0]@.len()
            &&& maps[m].width() == maps[0].width()
        }
    &&& forall|m: int|
        0 <= m < coverage.len() ==> {
            &&& (#[trigger] coverage[m])@.len() == maps[0]@.len()
            &&& forall|i: int|
                0 <= i < maps[0]@.len() ==> (#[trigger] coverage[m]@[i])@.len() == maps[0].width()
        }
}

/// Another scan `m` covers voxel `(i, j)` of scan `mi`.
pub open spec fn covered_by_other(coverage: Seq<Vec<Vec<bool>>>, mi: int, m: int, i: int, j: int) -> bool {
    &&& 0 <= m < coverage.len()
    &&& m != mi
    &&& coverage[m]@[i]@[j]
}

/// Voxel `(i, j)` of scan `mi` is an anomaly: it is dense, some other scan
/// covers it, and no other scan that covers it has a dense voxel near it.
pub open spec fn flagged(maps: Seq<VoxelMap>, coverage: Seq<Vec<Vec<bool>>>, mi: int, i: int, j: int) -> bool {
    &&& maps[mi]@[i][j] == Voxel::Dense
    &&& exists|m: int| #[trigger] covered_by_other(coverage, mi, m, i, j)
    &&& !exists|m: int|
        #[trigger] covered_by_other(coverage, mi, m, i, j) && dense_near(
            maps[m],
            i,
            j,
            proximity_radius(),
        )
}

/// The anomalies found before position `(mi, i, j)` when the voxels of all
/// maps are visited map by map, row by row, column by column.
pub open spec fn anomalies_before(
    maps: Seq<VoxelMap>,
    coverage: Seq<Vec<Vec<bool>>>,
    mi: nat,
    i: nat,
    j: nat,
) -> Seq<(usize, usize)>
    decreases mi, i, j,
{
    if j > 0 {
        let earlier = anomalies_before(maps, coverage, mi, i, (j - 1) as nat);
        if flagged(maps, coverage, mi as int, i as int, j - 1) {
            earlier.push((i as usize, (j - 1) as usize))
        } else {
            earlier
        }
    } else if i > 0 {
        anomalies_before(maps, coverage, mi, (i - 1) as nat, maps[0].width())
    } else if mi > 0 {
        anomalies_before(maps, coverage, (mi - 1) as nat, maps[0]@.len(), 0)
    } else {
        Seq::empty()
    }
}

/// All anomalies, as `(row, column)` voxel indices, in visiting order.
pub open spec fn anomaly_cells(maps: Seq<VoxelMap>, coverage: Seq<Vec<Vec<bool>>>) -> Seq<(usize, usize)> {
    anomalies_before(maps, coverage, maps.len(), 0, 0)
}

/// Position `(mi, i, j)` comes before `(m2, i2, j2)` in visiting order.
pub open spec fn visited_before(mi: int, i: int, j: int, m2: int, i2: int, j2: int) -> bool {
    mi < m2 || (mi == m2 && (i < i2 || (i == i2 && j < j2)))
}

/// Every anomaly listed before position `(mi, i, j)` is a voxel of the grid
/// that is flagged in some map visited before that position.
proof fn lemma_anomalies_before_are_flagged(
    maps: Seq<VoxelMap>,
    coverage: Seq<Vec<Vec<bool>>>,
    mi: nat,
    i: nat,
    j: nat,
)
    requires
        comparable(maps, coverage),
        mi <= maps.len(),
        i <= maps[0]@.len(),
        j <= maps[0].width(),
        i > 0 || j > 0 ==> mi < maps.len(),
        j > 0 ==> i < maps[0]@.len(),
    ensures
        forall|k: int|
            0 <= k < anomalies_before(maps, coverage, mi, i, j).len() ==> {
                let cell = #[trigger] anomalies_before(maps, coverage, mi, i, j)[k];
                &&& cell.0 < maps[0]@.len()
                &&& cell.1 < maps[0].width()
                &&& exists|m: int|
                    0 <= m < maps.len() && #[trigger] flagged(
                        maps,
                        coverage,
                        m,
                        cell.0 as int,
                        cell.1 as int,
                    )
            },
    decreases mi, i, j,
{
    let cells = anomalies_before(maps, coverage, mi, i, j);
    if j > 0 {
        lemma_anomalies_before_are_flagged(maps, coverage, mi, i, (j - 1) as nat);
        let earlier = anomalies_before(maps, coverage, mi, i, (j - 1) as nat);
        if flagged(maps, coverage, mi as int, i as int, j - 1) {
            assert(cells == earlier.push((i as usize, (j - 1) as usize)));
            assert forall|k: int| 0 <= k < cells.len() implies {
                let cell = #[trigger] cells[k];
                &&& cell.0 < maps[0]@.len()
                &&& cell.1 < maps[0].width()
                &&& exists|m: int|
                    0 <= m < maps.len() && #[trigger] flagged(
                        maps,
                        coverage,
                        m,
                        cell.0 as int,
                        cell.1 as int,
                    )
            } by {
                if k < earlier.len() {
                    assert(cells[k] == earlier[k]);
                } else {
                    assert(cells[k] == (i as usize, (j - 1) as usize));
                    assert(cells[k].0 == i);
                    assert(cells[k].1 == j - 1);
                    assert(flagged(maps, coverage, mi as int, cells[k].0 as int, cells[k].1 as int));
                }
            }
        } else {
            assert(cells == earlier);
        }
    } else if i > 0 {
        lemma_anomalies_before_are_flagged(maps, coverage, mi, (i - 1) as nat, maps[0].width());
        assert(cells == anomalies_before(maps, coverage, mi, (i - 1) as nat, maps[0].width()));
    } else if mi > 0 {
        lemma_anomalies_before_are_flagged(maps, coverage, (mi - 1) as nat, maps[0]@.len(), 0);
        assert(cells == anomalies_before(maps, coverage, (mi - 1) as nat, maps[0]@.len(), 0));
    } else {
        assert(cells.len() == 0);
    }
}

/// Every voxel flagged at a position visited before `(m2, i2, j2)` is listed
/// among the anomalies found before that position.
proof fn lemma_flagged_is_listed(
    maps: Seq<VoxelMap>,
    coverage: Seq<Vec<Vec<bool>>>,
    mi: int,
    i: int,
    j: int,
    m2: nat,
    i2: nat,
    j2: nat,
)
    requires
        0 <= mi,
        0 <= i,
        0 <= j,
        flagged(maps, coverage, mi, i, j),
        visited_before(mi, i, j, m2 as int, i2 as int, j2 as int),
        maps.len() > 0,
        i < maps[0]@.len(),
        j < maps[0].width(),
    ensures
        anomalies_before(maps, coverage, m2, i2, j2).contains((i as usize, j as usize)),
    decreases m2, i2, j2,
{
    let cells = anomalies_before(maps, coverage, m2, i2, j2);
    if j2 > 0 {
        let earlier = anomalies_before(maps, coverage, m2, i2, (j2 - 1) as nat);
        if visited_before(mi, i, j, m2 as int, i2 as int, j2 - 1) {
            lemma_flagged_is_listed(maps, coverage, mi, i, j, m2, i2, (j2 - 1) as nat);
            let k = choose|k: int| 0 <= k < earlier.len() && earlier[k] == (i as usize, j as usize);
            if flagged(maps, coverage, m2 as int, i2 as int, j2 - 1) {
                assert(cells == earlier.push((i2 as usize, (j2 - 1) as usize)));
            } else {
                assert(cells == earlier);
            }
            assert(cells[k] == earlier[k]);
            assert(cells.contains((i as usize, j as usize)));
        } else {
            assert(mi == m2 && i == i2 && j == j2 - 1);
            assert(cells == earlier.push((i as usize, j as usize)));
            assert(cells[cells.len() - 1] == (i as usize, j as usize));
            assert(cells.contains((i as usize, j as usize)));
        }
    } else if i2 > 0 {
        lemma_flagged_is_listed(maps, coverage, mi, i, j, m2, (i2 - 1) as nat, maps[0].width());
        assert(cells == anomalies_before(maps, coverage, m2, (i2 - 1) as nat, maps[0].width()));
    } else if m2 > 0 {
        lemma_flagged_is_listed(maps, coverage, mi, i, j, (m2 - 1) as nat, maps[0]@.len(), 0);
        assert(cells == anomalies_before(maps, coverage, (m2 - 1) as nat, maps[0]@.len(), 0));
    }
}

/// What `compare` reports is an anomaly: each listed `(i, j)` lies on the
/// grid, and in some map `mi` the voxel `(i, j)` is dense, at least one other
/// scan covers it, and no other scan that covers it has a dense cell at a
/// positive row `a` and column `b` inside its map with `i - 5 <= a < i + 5`,
/// `j - 5 <= b < j + 5`. A map without dense voxels contributes nothing.
pub proof fn lemma_compare_lists_only_anomalies(maps: Seq<VoxelMap>, coverage: Seq<Vec<Vec<bool>>>)
    requires
        comparable(maps, coverage),
    ensures
        forall|k: int|
            0 <= k < anomaly_cells(maps, coverage).len() ==> {
                let i = (#[trigger] anomaly_cells(maps, coverage)[k]).0 as int;
                let j = anomaly_cells(maps, coverage)[k].1 as int;
                &&& i < maps[0]@.len()
                &&& j < maps[0].width()
                &&& exists|mi: int|
                    {
                        &&& 0 <= mi < maps.len()
                        &&& #[trigger] maps[mi]@[i][j] == Voxel::Dense
                        &&& exists|m: int| 0 <= m < maps.len() && m != mi && #[trigger] coverage[m]@[i]@[j]
                        &&& forall|m: int, a: int, b: int|
                            0 <= m < maps.len() && m != mi && coverage[m]@[i]@[j] && i - 5 <= a < i
                                + 5 && j - 5 <= b < j + 5 && 0 < a < maps[m]@.len() && 0 < b
                                < maps[m].width() ==> #[trigger] maps[m]@[a][b] != Voxel::Dense
                    }
            },
{
    lemma_anomalies_before_are_flagged(maps, coverage, maps.len(), 0, 0);
    let cells = anomaly_cells(maps, coverage);
    assert forall|k: int| 0 <= k < cells.len() implies {
        let i = (#[trigger] cells[k]).0 as int;
        let j = cells[k].1 as int;
        &&& i < maps[0]@.len()
        &&& j < maps[0].width()
        &&& exists|mi: int|
            {
                &&& 0 <= mi < maps.len()
                &&& #[trigger] maps[mi]@[i][j] == Voxel::Dense
                &&& exists|m: int| 0 <= m < maps.len() && m != mi && #[trigger] coverage[m]@[i]@[j]
                &&& forall|m: int, a: int, b: int|
                    0 <= m < maps.len() && m != mi && coverage[m]@[i]@[j] && i - 5 <= a < i + 5
                        && j - 5 <= b < j + 5 && 0 < a < maps[m]@.len() && 0 < b < maps[m].width()
                        ==> #[trigger] maps[m]@[a][b] != Voxel::Dense
            }
    } by {
        let i = cells[k].0 as int;
        let j = cells[k].1 as int;
        let mi = choose|m: int| 0 <= m < maps.len() && #[trigger] flagged(maps, coverage, m, i, j);
        let m0 = choose|m: int| #[trigger] covered_by_other(coverage, mi, m, i, j);
        assert(coverage[m0]@[i]@[j]);
        assert forall|m: int, a: int, b: int|
            0 <= m < maps.len() && m != mi && coverage[m]@[i]@[j] && i - 5 <= a < i + 5 && j - 5
                <= b < j + 5 && 0 < a < maps[m]@.len() && 0 < b < maps[m].width()
                implies #[trigger] maps[m]@[a][b] != Voxel::Dense by {
            assert(covered_by_other(coverage, mi, m, i, j));
            if maps[m]@[a][b] == Voxel::Dense {
                assert(dense_at(maps[m], i, j, proximity_radius(), a, b));
            }
        }
    }
}

/// `compare` misses no anomaly: a voxel `(i, j)` of the grid that is dense in
/// map `mi`, covered by at least one other scan, and where no other covering
/// scan has a dense cell at a positive row `a` and column `b` inside its map
/// with `i - 5 <= a < i + 5`, `j - 5 <= b < j + 5`, is listed.
pub proof fn lemma_compare_lists_every_anomaly(
    maps: Seq<VoxelMap>,
    coverage: Seq<Vec<Vec<bool>>>,
    mi: int,
    i: int,
    j: int,
)
    requires
        comparable(maps, coverage),
        0 <= mi < maps.len(),
        0 <= i < maps[0]@.len(),
        0 <= j < maps[0].width(),
        maps[mi]@[i][j] == Voxel::Dense,
        exists|m: int| 0 <= m < maps.len() && m != mi && #[trigger] coverage[m]@[i]@[j],
        forall|m: int, a: int, b: int|
            0 <= m < maps.len() && m != mi && coverage[m]@[i]@[j] && i - 5 <= a < i + 5 && j - 5
                <= b < j + 5 && 0 < a < maps[m]@.len() && 0 < b < maps[m].width()
                ==> #[trigger] maps[m]@[a][b] != Voxel::Dense,
    ensures
        anomaly_cells(maps, coverage).contains((i as usize, j as usize)),
{
    let m0 = choose|m: int| 0 <= m < maps.len() && m != mi && #[trigger] coverage[m]@[i]@[j];
    assert(covered_by_other(coverage, mi, m0, i, j));
    assert forall|m: int|
        #[trigger] covered_by_other(coverage, mi, m, i, j) implies !dense_near(
        maps[m],
        i,
        j,
        proximity_radius(),
    ) by {
        if dense_near(maps[m], i, j, proximity_radius()) {
            let (a, b) = choose|a: int, b: int| dense_at(maps[m], i, j, proximity_radius(), a, b);
            assert(maps[m]@[a][b] == Voxel::Dense);
        }
    }
    assert(flagged(maps, coverage, mi, i, j));
    lemma_flagged_is_listed(maps, coverage, mi, i, j, maps.len(), 0, 0);
}

/// Decides whether voxel `(i, j)` of scan `mi` is an anomaly.
fn is_flagged(maps: &[VoxelMap], coverage: &[Vec<Vec<bool>>], mi: usize, i: usize, j: usize) -> (flag: bool)
    requires
        comparable(maps@, coverage@),
        mi < maps.len(),
        i < maps@[0]@.len(),
        j < maps@[0].width(),
    ensures
        flag == flagged(maps@, coverage@, mi as int, i as int, j as int),
{
    let map = &maps[mi];
    assert(map.wf());
    if map.get(i, j) != Voxel::Dense {
        return false;
    }
    let mut indices: Vec<usize> = Vec::new();
    let mut m: usize = 0;
    while m < maps.len()
        invariant
            comparable(maps@, coverage@),
            mi < maps.len(),
            i < maps@[0]@.len(),
            j < maps@[0].width(),
            m <= maps.len(),
            forall|t: int|
                0 <= t < indices@.len() ==> covered_by_other(
                    coverage@,
                    mi as int,
                    #[trigger] indices@[t] as int,
                    i as int,
                    j as int,
                ),
            forall|q: int|
                0 <= q < m && #[trigger] covered_by_other(coverage@, mi as int, q, i as int, j as int)
                    ==> exists|t: int| 0 <= t < indices@.len() && indices@[t] == q,
        decreases maps.len() - m,
    {
        assert(coverage@[m as int]@.len() == maps@[0]@.len());
        assert(coverage@[m as int]@[i as int]@.len() == maps@[0].width());
        let ghost old_indices = indices@;
        if m != mi && coverage[m][i][j] {
            indices.push(m);
            assert(indices@[indices@.len() - 1] == m);
        }
        assert forall|q: int|
            0 <= q < m + 1 && #[trigger] covered_by_other(coverage@, mi as int, q, i as int, j as int)
                implies exists|t: int| 0 <= t < indices@.len() && indices@[t] == q by {
            if q == m {
                assert(indices@[indices@.len() - 1] == q);
            } else {
                let t = choose|t: int| 0 <= t < old_indices.len() && old_indices[t] == q;
                assert(indices@[t] == q);
            }
        }
        m = m + 1;
    }
    if indices.len() == 0 {
        assert forall|q: int| !#[trigger] covered_by_other(coverage@, mi as int, q, i as int, j as int) by {}
        return false;
    }
    assert(covered_by_other(coverage@, mi as int, indices@[0] as int, i as int, j as int));
    assert forall|t: int| 0 <= t < indices@.len() implies #[trigger] indices@[t] < maps@.len()
        && maps@[indices@[t] as int].wf() && maps@[indices@[t] as int]@.len() <= i32::MAX
        && maps@[indices@[t] as int].width() <= i32::MAX by {
        assert(covered_by_other(coverage@, mi as int, indices@[t] as int, i as int, j as int));
        assert(maps@[indices@[t] as int].wf());
    }
    let near = check_proximity(maps, indices.as_slice(), i, j, 5);
    proof {
        if near {
            let t = choose|t: int|
                0 <= t < indices.len() && #[trigger] dense_near(
                    maps@[indices@[t] as int],
                    i as int,
                    j as int,
                    5,
                );
            assert(covered_by_other(coverage@, mi as int, indices@[t] as int, i as int, j as int));
        } else {
            assert forall|q: int|
                #[trigger] covered_by_other(coverage@, mi as int, q, i as int, j as int) implies !dense_near(
                maps@[q],
                i as int,
                j as int,
                proximity_radius(),
            ) by {
                let t = choose|t: int| 0 <= t < indices@.len() && indices@[t] == q;
                assert(!dense_near(maps@[indices@[t] as int], i as int, j as int, 5));
            }
        }
    }
    !near
}

/// Lists the anomalies of a set of voxel maps: for every map, row and column
/// in turn, each dense voxel that another scan covers but where none of the
/// covering scans has a dense voxel within the proximity window.
pub fn compare(maps: &[VoxelMap], coverage: &[Vec<Vec<bool>>]) -> (anomalies: Vec<(usize, usize)>)
    requires
        comparable(maps@, coverage@),
    ensures
        anomalies@ == anomaly_cells(maps@, coverage@),
{
    assert(maps@[0].wf());
    let rows: usize = maps[0].rows();
    let cols: usize = maps[0].cols();
    let mut anomalies: Vec<(usize, usize)> = Vec::new();
    let mut mi: usize = 0;
    while mi < maps.len()
        invariant
            comparable(maps@, coverage@),
            rows == maps@[0]@.len(),
            cols == maps@[0].width(),
            mi <= maps.len(),
            anomalies@ == anomalies_before(maps@, coverage@, mi as nat, 0, 0),
        decreases maps.len() - mi,
    {
        let mut i: usize = 0;
        while i < rows
            invariant
                comparable(maps@, coverage@),
                rows == maps@[0]@.len(),
                cols == maps@[0].width(),
                mi < maps.len(),
                i <= rows,
                anomalies@ == anomalies_before(maps@, coverage@, mi as nat, i as nat, 0),
            decreases rows - i,
        {
            let mut j: usize = 0;
            while j < cols
                invariant
                    comparable(maps@, coverage@),
                    rows == maps@[0]@.len(),
                    cols == maps@[0].width(),
                    mi < maps.len(),
                    i < rows,
                    j <= cols,
                    anomalies@ == anomalies_before(maps@, coverage@, mi as nat, i as nat, j as nat),
                decreases cols - j,
            {
                if is_flagged(maps, coverage, mi, i, j) {
                    anomalies.push((i, j));
                }
                j = j + 1;
            }
            i = i + 1;
        }
        mi = mi + 1;
    }
    anomalies
}


/// Builds the voxel maps of several scans on one grid; `limits[k]` is the
/// density limit of scan `k`.
pub fn pcds_2_voxel_maps(
    rows: usize,
    cols: usize,
    scans: &[Vec<PointCell>],
    limits: &[i64],
) -> (maps: Vec<VoxelMap>)
    requires
        scans.len() == limits.len(),
        forall|k: int|
            0 <= k < scans.len() ==> points_on_grid(#[trigger] scans@[k]@, rows as nat, cols as nat),
    ensures
        maps.len() == scans.len(),
        forall|k: int|
            0 <= k < maps.len() ==> {
                &&& (#[trigger] maps@[k]).wf()
                &&& maps@[k]@.len() == rows
                &&& maps@[k].width() == cols
                &&& forall|r: int, c: int|
                    0 <= r < rows && 0 <= c < cols ==> #[trigger] maps@[k]@[r][c] == voxel_state(
                        hits(scans@[k]@, r, c),
                        limits@[k] as int,
                    )
            },
{
    let mut maps: Vec<VoxelMap> = Vec::new();
    let mut k: usize = 0;
    while k < scans.len()
        invariant
            scans.len() == limits.len(),
            forall|q: int|
                0 <= q < scans.len() ==> points_on_grid(
                    #[trigger] scans@[q]@,
                    rows as nat,
                    cols as nat,
                ),
            k <= scans.len(),
            maps.len() == k,
            forall|q: int|
                0 <= q < k ==> {
                    &&& (#[trigger] maps@[q]).wf()
                    &&& maps@[q]@.len() == rows
                    &&& maps@[q].width() == cols
                    &&& forall|r: int, c: int|
                        0 <= r < rows && 0 <= c < cols ==> #[trigger] maps@[q]@[r][c]
                            == voxel_state(hits(scans@[q]@, r, c), limits@[q] as int)
                },
        decreases scans.len() - k,
    {
        let map = pcd_2_voxel_map(rows, cols, scans[k].as_slice(), limits[k]);
        maps.push(map);
        k = k + 1;
    }
    maps
}

/// The order of voxel states by fullness.
pub open spec fn fullness(cell: Voxel) -> int {
    match cell {
        Voxel::Empty => 0,
        Voxel::Occupied => 1,
        Voxel::Dense => 2,
    }
}

/// Hits only grow as points are added.
pub proof fn lemma_hits_grow(points: Seq<PointCell>, extra: Seq<PointCell>, r: int, c: int)
    ensures
        hits(points, r, c) <= hits(points + extra, r, c),
    decreases extra.len(),
{
    if extra.len() == 0 {
        assert(points + extra =~= points);
    } else {
        lemma_hits_grow(points, extra.drop_last(), r, c);
        assert((points + extra).drop_last() =~= points + extra.drop_last());
    }
}

/// More points never make a voxel less full: whatever points are appended to
/// a scan, every voxel ends at least as full as before.
pub proof fn lemma_voxel_fullness_monotone(
    points: Seq<PointCell>,
    extra: Seq<PointCell>,
    limit: int,
    r: int,
    c: int,
)
    ensures
        fullness(voxel_state(hits(points, r, c), limit)) <= fullness(
            voxel_state(hits(points + extra, r, c), limit),
        ),
{
    lemma_hits_grow(points, extra, r, c);
}


/// A proximity hit is kept when the window widens and more maps are named: if
/// some map named by `indices1` has a dense voxel within `r1` of the centre,
/// then some map named by `indices2`, which names every map of `indices1`,
/// has one within `r2 >= r1`.
pub proof fn lemma_proximity_monotone(
    maps: Seq<VoxelMap>,
    indices1: Seq<usize>,
    indices2: Seq<usize>,
    ci: int,
    cj: int,
    r1: int,
    r2: int,
)
    requires
        0 <= r1 <= r2,
        forall|t: int| 0 <= t < indices1.len() ==> #[trigger] indices2.contains(indices1[t]),
    ensures
        (exists|t: int| 0 <= t < indices1.len() && #[trigger] dense_near(maps[indices1[t] as int], ci, cj, r1))
            ==> (exists|u: int|
            0 <= u < indices2.len() && #[trigger] dense_near(maps[indices2[u] as int], ci, cj, r2)),
{
    if exists|t: int| 0 <= t < indices1.len() && #[trigger] dense_near(maps[indices1[t] as int], ci, cj, r1) {
        let t = choose|t: int|
            0 <= t < indices1.len() && #[trigger] dense_near(maps[indices1[t] as int], ci, cj, r1);
        assert(indices2.contains(indices1[t]));
        let u = choose|u: int| 0 <= u < indices2.len() && indices2[u] == indices1[t];
        let map = maps[indices1[t] as int];
        let (i, j) = choose|i: int, j: int| dense_at(map, ci, cj, r1, i, j);
        assert(dense_at(map, ci, cj, r2, i, j));
        assert(dense_near(maps[indices2[u] as int], ci, cj, r2));
    }
}

} // verus!
