//! Near-to-far traversal of the cells of a disk by square rings.
use vstd::prelude::*;

verus! {

/// Disjoint ownership of the four corners is encoded by these side ranges:
/// top owns both top corners, right owns bottom-right, bottom owns bottom-left,
/// and left owns no corner.
#[derive(Clone, Copy, Debug, PartialEq, Eq, Structural)]
pub enum Side {
    Top,
    Right,
    Bottom,
    Left,
}

/// One call of a visitor: a cell offset, the ring that it lies on, and the side
/// of that ring.
#[derive(Clone, Copy, Debug, PartialEq, Eq, Structural)]
pub struct RingCell {
    pub x: i32,
    pub y: i32,
    pub ring: u32,
    pub side: Side,
}

/// Receives the cells of a traversal, one call per cell.
pub trait RingVisitor {
    /// All cells that have been received, in order.
    spec fn visited(&self) -> Seq<RingCell>;

    fn visit(&mut self, x: i32, y: i32, ring: u32, side: Side)
        ensures
            final(self).visited() == old(self).visited().push(RingCell { x, y, ring, side }),
    ;
}

/// A visitor that keeps every cell.
pub struct RingCollector {
    cells: Vec<RingCell>,
}

impl RingVisitor for RingCollector {
    closed spec fn visited(&self) -> Seq<RingCell> {
        self.cells@
    }

    fn visit(&mut self, x: i32, y: i32, ring: u32, side: Side) {
        self.cells.push(RingCell { x, y, ring, side });
    }
}

impl RingCollector {
    pub fn new() -> (collector: Self)
        ensures
            collector.visited() == Seq::<RingCell>::empty(),
    {
        RingCollector { cells: Vec::new() }
    }

    pub fn cells(&self) -> (cells: &[RingCell])
        ensures
            cells@ == self.visited(),
    {
        self.cells.as_slice()
    }
}

/// `x` is the largest integer whose square does not exceed `value`.
pub open spec fn is_floor_sqrt(value: int, x: int) -> bool {
    0 <= x && x * x <= value < (x + 1) * (x + 1)
}

/// The largest integer whose square does not exceed a value of zero or more.
pub open spec fn floor_sqrt(value: int) -> int {
    choose|x: int| is_floor_sqrt(value, x)
}

/// Half the width of the top and bottom of ring `r` inside a disk.
pub open spec fn row_limit(radius: int, r: int) -> int {
    let root = floor_sqrt(radius * radius - r * r);
    if root < r {
        root
    } else {
        r
    }
}

/// Half the height of the left and right columns of ring `r` inside a disk,
/// which leave the corners to the rows.
pub open spec fn column_limit(radius: int, r: int) -> int {
    let limit = row_limit(radius, r);
    if limit < r - 1 {
        limit
    } else {
        r - 1
    }
}

pub open spec fn top_cells(limit: int, r: int) -> Seq<RingCell> {
    Seq::new(
        (2 * limit + 1) as nat,
        |i: int|
            RingCell { x: (i - limit) as i32, y: (-r) as i32, ring: r as u32, side: Side::Top },
    )
}

pub open spec fn right_cells(limit: int, r: int) -> Seq<RingCell> {
    Seq::new(
        (2 * limit + 1) as nat,
        |i: int|
            RingCell { x: r as i32, y: (limit - i) as i32, ring: r as u32, side: Side::Right },
    )
}

/// The lower row of a ring. Its right corner, with which it starts, belongs to
/// the right side.
pub open spec fn bottom_cells(limit: int, r: int) -> Seq<RingCell> {
    Seq::new(
        (2 * limit + 1) as nat,
        |i: int|
            RingCell {
                x: (limit - i) as i32,
                y: r as i32,
                ring: r as u32,
                side: if limit - i == r {
                    Side::Right
                } else {
                    Side::Bottom
                },
            },
    )
}

pub open spec fn left_cells(limit: int, r: int) -> Seq<RingCell> {
    Seq::new(
        (2 * limit + 1) as nat,
        |i: int|
            RingCell { x: (-r) as i32, y: (i - limit) as i32, ring: r as u32, side: Side::Left },
    )
}

/// The cells of ring `r` that lie in the disk: the upper row, the right column,
/// the lower row and the left column.
pub open spec fn ring_of(radius: int, r: int) -> Seq<RingCell> {
    let row = row_limit(radius, r);
    let column = column_limit(radius, r);
    top_cells(row, r) + right_cells(column, r) + bottom_cells(row, r) + left_cells(column, r)
}

/// The centre, and then the rings `1` to `upto`.
pub open spec fn rings_upto(radius: int, upto: int) -> Seq<RingCell>
    decreases upto,
{
    if upto <= 0 {
        seq![RingCell { x: 0, y: 0, ring: 0, side: Side::Top }]
    } else {
        rings_upto(radius, upto - 1) + ring_of(radius, upto)
    }
}

/// The cells of a disk in the order of traversal.
pub open spec fn disk_cells(radius: int) -> Seq<RingCell> {
    if radius < 0 {
        Seq::empty()
    } else {
        rings_upto(radius, radius)
    }
}

pub open spec fn in_disk(radius: int, x: int, y: int) -> bool {
    x * x + y * y <= radius * radius
}

/// The ring that an offset lies on: the larger of its two distances.
pub open spec fn ring_index(x: int, y: int) -> int {
    let ax = if x < 0 {
        -x
    } else {
        x
    };
    let ay = if y < 0 {
        -y
    } else {
        y
    };
    if ax < ay {
        ay
    } else {
        ax
    }
}

/// A cell lies on the side that it is reported for, and a corner on the side
/// that owns it.
pub open spec fn owns(cell: RingCell) -> bool {
    let r = cell.ring as int;
    match cell.side {
        Side::Top => cell.y == -r,
        Side::Right => cell.x == r && cell.y != -r,
        Side::Bottom => cell.y == r && cell.x != r,
        Side::Left => cell.x == -r && cell.y != r && cell.y != -r,
    }
}

/// Calls `visit` for every integer cell in the radius-clipped square rings.
/// Side/circle intersection is computed before iteration, so square corners
/// outside the radar disk never invoke the callback.
pub fn for_each_ring_cell<V: RingVisitor>(radius_cells: i32, visit: &mut V)
    ensures
        final(visit).visited() == old(visit).visited() + disk_cells(radius_cells as int),
{
    if radius_cells < 0 {
        assert(old(visit).visited() + disk_cells(radius_cells as int) =~= old(visit).visited());
        return;
    }
    visit.visit(0, 0, 0, Side::Top);
    let ghost radius = radius_cells as int;
    assert(visit.visited() =~= old(visit).visited() + rings_upto(radius, 0));
    let wide: i64 = radius_cells as i64;
    assert(0 <= wide * wide <= 0x7fff_ffff * 0x7fff_ffff) by (nonlinear_arith)
        requires
            0 <= wide <= 0x7fff_ffff,
    ;
    let r2: i64 = wide * wide;
    let mut r: i32 = 0;
    while r < radius_cells
        invariant
            0 <= r <= radius_cells,
            radius == radius_cells,
            r2 == radius * radius,
            visit.visited() == old(visit).visited() + rings_upto(radius, r as int),
        decreases radius_cells - r,
    {
        let ghost before = visit.visited();
        r = r + 1;
        let ring: i64 = r as i64;
        assert(0 <= ring * ring <= radius * radius && radius * radius <= 0x7fff_ffff * 0x7fff_ffff)
            by (nonlinear_arith)
            requires
                0 <= ring <= radius <= 0x7fff_ffff,
        ;
        let remaining: i64 = r2 - ring * ring;
        let root: i64 = integer_sqrt(remaining);
        proof {
            lemma_floor_sqrt_unique(remaining as int, root as int);
        }
        let limit: i32 = if root < ring {
            root as i32
        } else {
            r
        };
        let y_limit: i32 = if limit < r - 1 {
            limit
        } else {
            r - 1
        };
        // top: y=-r, includes both corners when they intersect the disk
        visit_top(visit, limit, r);
        // right/left exclude top and bottom rows, keeping sides disjoint
        visit_right(visit, y_limit, r);
        // the lower row starts with the corner that right owns
        visit_bottom(visit, limit, r);
        visit_left(visit, y_limit, r);
        assert(visit.visited() =~= before + ring_of(radius, r as int));
        assert(visit.visited() =~= old(visit).visited() + rings_upto(radius, r as int));
    }
}

fn visit_top<V: RingVisitor>(visit: &mut V, limit: i32, r: i32)
    requires
        0 <= limit <= r,
    ensures
        final(visit).visited() == old(visit).visited() + top_cells(limit as int, r as int),
{
    let count: i64 = 2 * (limit as i64) + 1;
    let mut i: i64 = 0;
    assert(visit.visited() =~= old(visit).visited() + top_cells(limit as int, r as int).take(0));
    while i < count
        invariant
            0 <= limit <= r,
            0 <= i <= count,
            count == 2 * limit + 1,
            visit.visited() == old(visit).visited() + top_cells(limit as int, r as int).take(
                i as int,
            ),
        decreases count - i,
    {
        visit.visit((i - limit as i64) as i32, -r, r as u32, Side::Top);
        i = i + 1;
        assert(visit.visited() =~= old(visit).visited() + top_cells(limit as int, r as int).take(
            i as int,
        ));
    }
    assert(top_cells(limit as int, r as int).take(i as int) =~= top_cells(limit as int, r as int));
}

fn visit_right<V: RingVisitor>(visit: &mut V, limit: i32, r: i32)
    requires
        0 <= limit <= r,
    ensures
        final(visit).visited() == old(visit).visited() + right_cells(limit as int, r as int),
{
    let count: i64 = 2 * (limit as i64) + 1;
    let mut i: i64 = 0;
    assert(visit.visited() =~= old(visit).visited() + right_cells(limit as int, r as int).take(0));
    while i < count
        invariant
            0 <= limit <= r,
            0 <= i <= count,
            count == 2 * limit + 1,
            visit.visited() == old(visit).visited() + right_cells(limit as int, r as int).take(
                i as int,
            ),
        decreases count - i,
    {
        visit.visit(r, (limit as i64 - i) as i32, r as u32, Side::Right);
        i = i + 1;
        assert(visit.visited() =~= old(visit).visited() + right_cells(limit as int, r as int).take(
            i as int,
        ));
    }
    assert(right_cells(limit as int, r as int).take(i as int) =~= right_cells(
        limit as int,
        r as int,
    ));
}

fn visit_bottom<V: RingVisitor>(visit: &mut V, limit: i32, r: i32)
    requires
        0 <= limit <= r,
    ensures
        final(visit).visited() == old(visit).visited() + bottom_cells(limit as int, r as int),
{
    let count: i64 = 2 * (limit as i64) + 1;
    let mut i: i64 = 0;
    assert(visit.visited() =~= old(visit).visited() + bottom_cells(limit as int, r as int).take(0));
    while i < count
        invariant
            0 <= limit <= r,
            0 <= i <= count,
            count == 2 * limit + 1,
            visit.visited() == old(visit).visited() + bottom_cells(limit as int, r as int).take(
                i as int,
            ),
        decreases count - i,
    {
        let x: i32 = (limit as i64 - i) as i32;
        let side = if x == r {
            Side::Right
        } else {
            Side::Bottom
        };
        visit.visit(x, r, r as u32, side);
        i = i + 1;
        assert(visit.visited() =~= old(visit).visited() + bottom_cells(limit as int, r as int).take(
            i as int,
        ));
    }
    assert(bottom_cells(limit as int, r as int).take(i as int) =~= bottom_cells(
        limit as int,
        r as int,
    ));
}

fn visit_left<V: RingVisitor>(visit: &mut V, limit: i32, r: i32)
    requires
        0 <= limit <= r,
    ensures
        final(visit).visited() == old(visit).visited() + left_cells(limit as int, r as int),
{
    let count: i64 = 2 * (limit as i64) + 1;
    let mut i: i64 = 0;
    assert(visit.visited() =~= old(visit).visited() + left_cells(limit as int, r as int).take(0));
    while i < count
        invariant
            0 <= limit <= r,
            0 <= i <= count,
            count == 2 * limit + 1,
            visit.visited() == old(visit).visited() + left_cells(limit as int, r as int).take(
                i as int,
            ),
        decreases count - i,
    {
        visit.visit(-r, (i - limit as i64) as i32, r as u32, Side::Left);
        i = i + 1;
        assert(visit.visited() =~= old(visit).visited() + left_cells(limit as int, r as int).take(
            i as int,
        ));
    }
    assert(left_cells(limit as int, r as int).take(i as int) =~= left_cells(limit as int, r as int));
}

/// The offsets of a disk in the order of traversal.
pub fn ring_cells(radius_cells: i32) -> (cells: Vec<(i32, i32)>)
    ensures
        cells@ == disk_cells(radius_cells as int).map_values(|c: RingCell| (c.x, c.y)),
{
    let mut collector = RingCollector::new();
    for_each_ring_cell(radius_cells, &mut collector);
    assert(collector.visited() =~= disk_cells(radius_cells as int));
    let visited = collector.cells();
    let mut cells: Vec<(i32, i32)> = Vec::new();
    let mut i: usize = 0;
    while i < visited.len()
        invariant
            i <= visited@.len(),
            cells@ == visited@.take(i as int).map_values(|c: RingCell| (c.x, c.y)),
        decreases visited@.len() - i,
    {
        cells.push((visited[i].x, visited[i].y));
        i += 1;
        assert(cells@ =~= visited@.take(i as int).map_values(|c: RingCell| (c.x, c.y)));
    }
    assert(visited@.take(i as int) =~= visited@);
    cells
}

/// The integer square root, rounded down; zero for a negative value.
pub fn integer_sqrt(value: i64) -> (root: i64)
    ensures
        value < 0 ==> root == 0,
        value >= 0 ==> is_floor_sqrt(value as int, root as int),
        value >= 0 ==> root == floor_sqrt(value as int),
{
    if value <= 0 {
        proof {
            lemma_floor_sqrt_unique(0, 0);
        }
        return 0;
    }
    let target: u64 = value as u64;
    let mut low: u64 = 0;
    let mut high: u64 = 3_037_000_500;
    while high - low > 1
        invariant
            low < high <= 3_037_000_500,
            low * low <= target,
            target < high * high,
        decreases high - low,
    {
        let middle: u64 = low + (high - low) / 2;
        assert(middle * middle <= 3_037_000_500 * 3_037_000_500) by (nonlinear_arith)
            requires
                0 <= middle <= 3_037_000_500,
        ;
        if middle * middle <= target {
            low = middle;
        } else {
            high = middle;
        }
    }
    proof {
        lemma_floor_sqrt_unique(value as int, low as int);
    }
    low as i64
}

proof fn lemma_floor_sqrt_unique(value: int, root: int)
    requires
        is_floor_sqrt(value, root),
    ensures
        floor_sqrt(value) == root,
{
    let other = floor_sqrt(value);
    assert(is_floor_sqrt(value, other));
    assert(other == root) by (nonlinear_arith)
        requires
            0 <= root,
            0 <= other,
            root * root <= value < (root + 1) * (root + 1),
            other * other <= value < (other + 1) * (other + 1),
    ;
}

/// Every value of zero or more has a square root, rounded down.
proof fn lemma_floor_sqrt_exists(value: int)
    requires
        value >= 0,
    ensures
        is_floor_sqrt(value, floor_sqrt(value)),
    decreases value,
{
    if value == 0 {
        assert(is_floor_sqrt(0, 0));
    } else {
        lemma_floor_sqrt_exists(value - 1);
        let x = floor_sqrt(value - 1);
        if (x + 1) * (x + 1) <= value {
            assert(value < (x + 2) * (x + 2)) by (nonlinear_arith)
                requires
                    0 <= x,
                    value - 1 < (x + 1) * (x + 1),
            ;
            assert(is_floor_sqrt(value, x + 1));
        } else {
            assert(is_floor_sqrt(value, x));
        }
    }
}

proof fn lemma_square_le(a: int, b: int)
    requires
        0 <= a <= b,
    ensures
        a * a <= b * b,
{
    assert(a * a <= b * b) by (nonlinear_arith)
        requires
            0 <= a <= b,
    ;
}

proof fn lemma_square_abs(a: int)
    ensures
        (-a) * (-a) == a * a,
{
    assert((-a) * (-a) == a * a) by (nonlinear_arith);
}

/// An offset on ring `r` is in the disk when its free coordinate is within the
/// row limit.
proof fn lemma_row_limit(radius: int, r: int, free: int)
    requires
        0 < r <= radius,
        -r <= free <= r,
    ensures
        0 <= row_limit(radius, r) <= r,
        in_disk(radius, free, r) <==> -row_limit(radius, r) <= free <= row_limit(radius, r),
{
    lemma_square_le(r, radius);
    let value = radius * radius - r * r;
    lemma_floor_sqrt_exists(value);
    let root = floor_sqrt(value);
    let size = if free < 0 {
        -free
    } else {
        free
    };
    lemma_square_abs(free);
    if size <= root {
        lemma_square_le(size, root);
    } else {
        lemma_square_le(root + 1, size);
    }
}

/// The cells of one ring: where they lie and which offsets they cover.
proof fn lemma_ring_cell(radius: int, r: int, i: int)
    requires
        0 < r <= radius <= i32::MAX,
        0 <= i < ring_of(radius, r).len(),
    ensures
        ({
            let cell = ring_of(radius, r)[i];
            &&& cell.ring == r
            &&& ring_index(cell.x as int, cell.y as int) == r
            &&& in_disk(radius, cell.x as int, cell.y as int)
            &&& owns(cell)
        }),
{
    lemma_row_limit(radius, r, 0);
    let cell = ring_of(radius, r)[i];
    lemma_row_limit(radius, r, cell.x as int);
    lemma_row_limit(radius, r, cell.y as int);
    lemma_square_abs(r);
}

proof fn lemma_ring_distinct(radius: int, r: int, i: int, j: int)
    requires
        0 < r <= radius <= i32::MAX,
        0 <= i < j < ring_of(radius, r).len(),
    ensures
        ring_of(radius, r)[i].x != ring_of(radius, r)[j].x || ring_of(radius, r)[i].y != ring_of(
            radius,
            r,
        )[j].y,
{
    lemma_row_limit(radius, r, 0);
}

/// The place of an offset on its ring.
proof fn lemma_ring_covers(radius: int, x: int, y: int) -> (i: int)
    requires
        0 < ring_index(x, y) <= radius <= i32::MAX,
        in_disk(radius, x, y),
    ensures
        0 <= i < ring_of(radius, ring_index(x, y)).len(),
        ring_of(radius, ring_index(x, y))[i].x == x,
        ring_of(radius, ring_index(x, y))[i].y == y,
{
    let r = ring_index(x, y);
    let row = row_limit(radius, r);
    let column = column_limit(radius, r);
    lemma_row_limit(radius, r, x);
    lemma_row_limit(radius, r, y);
    lemma_square_abs(r);
    if y == -r {
        x + row
    } else if y == r {
        2 * row + 1 + 2 * column + 1 + row - x
    } else if x == r {
        2 * row + 1 + column - y
    } else {
        2 * (2 * row + 1) + 2 * column + 1 + y + column
    }
}

proof fn lemma_rings_cell(radius: int, upto: int, i: int)
    requires
        0 <= upto <= radius <= i32::MAX,
        0 <= i < rings_upto(radius, upto).len(),
    ensures
        ({
            let cell = rings_upto(radius, upto)[i];
            &&& 0 <= cell.ring <= upto
            &&& ring_index(cell.x as int, cell.y as int) == cell.ring
            &&& in_disk(radius, cell.x as int, cell.y as int)
            &&& owns(cell)
        }),
    decreases upto,
{
    if upto > 0 {
        let before = rings_upto(radius, upto - 1);
        if i < before.len() {
            lemma_rings_cell(radius, upto - 1, i);
        } else {
            lemma_ring_cell(radius, upto, i - before.len());
        }
    } else {
        lemma_square_le(0, radius);
    }
}

proof fn lemma_rings_order(radius: int, upto: int, i: int, j: int)
    requires
        0 <= upto <= radius <= i32::MAX,
        0 <= i < j < rings_upto(radius, upto).len(),
    ensures
        ({
            let a = rings_upto(radius, upto)[i];
            let b = rings_upto(radius, upto)[j];
            &&& a.ring <= b.ring
            &&& a.x != b.x || a.y != b.y
        }),
    decreases upto,
{
    if upto > 0 {
        let before = rings_upto(radius, upto - 1);
        if j < before.len() {
            lemma_rings_order(radius, upto - 1, i, j);
        } else if i < before.len() {
            lemma_rings_cell(radius, upto - 1, i);
            lemma_ring_cell(radius, upto, j - before.len());
        } else {
            lemma_ring_cell(radius, upto, i - before.len());
            lemma_ring_cell(radius, upto, j - before.len());
            lemma_ring_distinct(radius, upto, i - before.len(), j - before.len());
        }
    }
}

proof fn lemma_rings_cover(radius: int, upto: int, x: int, y: int) -> (i: int)
    requires
        0 <= ring_index(x, y) <= upto <= radius <= i32::MAX,
        in_disk(radius, x, y),
    ensures
        0 <= i < rings_upto(radius, upto).len(),
        rings_upto(radius, upto)[i].x == x,
        rings_upto(radius, upto)[i].y == y,
    decreases upto,
{
    if upto == 0 {
        0
    } else if ring_index(x, y) < upto {
        lemma_rings_cover(radius, upto - 1, x, y)
    } else {
        rings_upto(radius, upto - 1).len() + lemma_ring_covers(radius, x, y)
    }
}

/// Every visited cell lies in the disk, on the ring that it is reported for.
pub proof fn law_visits_stay_in_disk(radius: i32, i: int)
    requires
        0 <= i < disk_cells(radius as int).len(),
    ensures
        ({
            let cell = disk_cells(radius as int)[i];
            &&& in_disk(radius as int, cell.x as int, cell.y as int)
            &&& cell.ring == ring_index(cell.x as int, cell.y as int)
            &&& cell.x * cell.x + cell.y * cell.y <= radius * radius
            &&& -cell.ring <= cell.x <= cell.ring && -cell.ring <= cell.y <= cell.ring
            &&& cell.x == cell.ring || cell.x == -cell.ring || cell.y == cell.ring || cell.y
                == -cell.ring
        }),
{
    lemma_rings_cell(radius as int, radius as int, i);
}

/// Every cell of the disk is visited.
pub proof fn law_disk_is_covered(radius: i32, x: int, y: int)
    requires
        radius >= 0,
        x * x + y * y <= radius * radius,
    ensures
        exists|i: int|
            0 <= i < disk_cells(radius as int).len() && (#[trigger] disk_cells(radius as int)[i]).x
                == x && disk_cells(radius as int)[i].y == y,
{
    let bound = radius as int;
    assert(ring_index(x, y) <= bound) by {
        assert(-bound <= x <= bound && -bound <= y <= bound) by (nonlinear_arith)
            requires
                0 <= bound,
                x * x + y * y <= bound * bound,
        ;
    }
    let i = lemma_rings_cover(bound, bound, x, y);
    assert(disk_cells(bound)[i].x == x);
}

/// Every cell is reported for the side that owns it: top owns both top corners,
/// right the lower right one, bottom the lower left one, and left none.
pub proof fn law_sides_own_their_corners(radius: i32, i: int)
    requires
        0 <= i < disk_cells(radius as int).len(),
    ensures
        owns(disk_cells(radius as int)[i]),
        ({
            let cell = disk_cells(radius as int)[i];
            let (x, y, r) = (cell.x as int, cell.y as int, cell.ring as int);
            &&& y == -r <==> cell.side is Top
            &&& y == r && -r < r && x != r <==> cell.side is Bottom
            &&& x == r && y != -r <==> cell.side is Right
            &&& x == -r && y != r && y != -r <==> cell.side is Left
        }),
{
    lemma_rings_cell(radius as int, radius as int, i);
}

/// No cell is visited twice, and nearer rings come before farther ones.
pub proof fn law_visits_are_unique_and_near_to_far(radius: i32, i: int, j: int)
    requires
        0 <= i < j < disk_cells(radius as int).len(),
    ensures
        ({
            let a = disk_cells(radius as int)[i];
            let b = disk_cells(radius as int)[j];
            &&& a.x != b.x || a.y != b.y
            &&& a.ring <= b.ring
        }),
{
    lemma_rings_order(radius as int, radius as int, i, j);
}

/// A ring whose corners lie in the disk has eight cells per unit of its index.
pub proof fn law_unclipped_ring_has_8r_cells(radius: i32, r: int)
    requires
        0 < r <= radius,
        r * r + r * r <= radius * radius,
    ensures
        ring_of(radius as int, r).len() == 8 * r,
{
    lemma_row_limit(radius as int, r, r);
}

} // verus!
