//! The hierarchical descent from candidate cells to leaf cells.
use crate::h3::{box_sees, boxes_fit, children_below, exported, fate_of, floor_of, frontier_after,
    has_parent, is_level, is_record, lemma_exported_ascends, lemma_outer_box_sees, lies_within,
    raster_wf, search_box_of, sort_cells, spec_resolution, strictly_ascends, traverse_h3_node,
    widened, Fate, H3ExportConfig, H3ExportStats, H3Record, LeafSample, RasterBBox, RawBox};
use crate::storage::{Metadata, NO_DATA};
use vstd::multiset::Multiset;
use vstd::prelude::*;

verus! {

/// What a descent goes by: a raster, the target resolution, and the pixels that
/// the boundary of each cell encloses.
pub struct Search {
    pub heights: Seq<u16>,
    pub width: int,
    pub nodata: u16,
    pub target: u8,
    pub box_of: spec_fn(u64) -> Option<RasterBBox>,
}

/// The number of resolutions, and so the depth of the deepest descent.
pub const RESOLUTIONS: u8 = 16;

pub open spec fn fate(search: Search, cell: u64) -> Fate {
    fate_of(
        search.heights,
        search.width,
        search.nodata,
        search.target,
        cell,
        (search.box_of)(cell),
    )
}

/// The leaf cells under a cell and the number of pruned cells, from a descent of
/// at most `depth` levels.
pub open spec fn descend(search: Search, cell: u64, depth: nat) -> (Multiset<u64>, nat)
    decreases depth, 0nat,
{
    match fate(search, cell) {
        Fate::Pruned => (Multiset::empty(), 1),
        Fate::Leaf => (Multiset::singleton(cell), 0),
        Fate::Descend => if depth == 0 {
            (Multiset::empty(), 0)
        } else {
            descend_all(search, children_below(cell), (depth - 1) as nat)
        },
    }
}

/// The leaf cells under some cells and the number of pruned cells.
pub open spec fn descend_all(search: Search, cells: Seq<u64>, depth: nat) -> (Multiset<u64>, nat)
    decreases depth, cells.len(),
{
    if cells.len() == 0 {
        (Multiset::empty(), 0)
    } else {
        let (leaves, pruned) = descend_all(search, cells.drop_last(), depth);
        let (more, also) = descend(search, cells.last(), depth);
        (leaves.add(more), pruned + also)
    }
}

/// What a descent has been told of the boxes of cells.
pub open spec fn agrees(
    box_of: spec_fn(u64) -> Option<RasterBBox>,
    told: Seq<(u64, Option<RasterBBox>)>,
) -> bool {
    forall|i: int| 0 <= i < told.len() ==> box_of((#[trigger] told[i]).0) == told[i].1
}

proof fn lemma_descend_concat(search: Search, a: Seq<u64>, b: Seq<u64>, depth: nat)
    ensures
        descend_all(search, a + b, depth).0 == descend_all(search, a, depth).0.add(
            descend_all(search, b, depth).0,
        ),
        descend_all(search, a + b, depth).1 == descend_all(search, a, depth).1 + descend_all(
            search,
            b,
            depth,
        ).1,
    decreases b.len(),
{
    if b.len() == 0 {
        assert(a + b =~= a);
        assert(descend_all(search, a, depth).0.add(Multiset::empty()) =~= descend_all(
            search,
            a,
            depth,
        ).0);
    } else {
        lemma_descend_concat(search, a, b.drop_last(), depth);
        assert((a + b).drop_last() =~= a + b.drop_last());
        assert((a + b).last() == b.last());
        let left = descend_all(search, a, depth).0;
        let middle = descend_all(search, b.drop_last(), depth).0;
        let right = descend(search, b.last(), depth).0;
        assert(left.add(middle).add(right) =~= left.add(middle.add(right)));
    }
}

/// One level of a descent: what the cells of a level yield is what the step
/// finds there, and what the next level yields.
proof fn lemma_level(
    search: Search,
    cells: Seq<u64>,
    boxes: Seq<Option<RasterBBox>>,
    n: nat,
    depth: nat,
)
    requires
        n <= cells.len() == boxes.len(),
        forall|i: int| 0 <= i < cells.len() ==> (search.box_of)(#[trigger] cells[i]) == boxes[i],
        depth > 0,
    ensures
        ({
            let (next, leaves, pruned) = frontier_after(
                search.heights,
                search.width,
                search.nodata,
                search.target,
                cells,
                boxes,
                n,
            );
            let below = descend_all(search, next, (depth - 1) as nat);
            let all = descend_all(search, cells.take(n as int), depth);
            &&& all.0 == leaves.to_multiset().add(below.0)
            &&& all.1 == pruned + below.1
        }),
    decreases n,
{
    broadcast use vstd::seq_lib::group_to_multiset_ensures;

    if n == 0 {
        assert(cells.take(0) =~= Seq::<u64>::empty());
        assert(Seq::<u64>::empty().to_multiset() =~= Multiset::<u64>::empty());
        assert(Multiset::<u64>::empty().add(Multiset::empty()) =~= Multiset::<u64>::empty());
    } else {
        let m = (n - 1) as nat;
        lemma_level(search, cells, boxes, m, depth);
        let (next, leaves, pruned) = frontier_after(
            search.heights,
            search.width,
            search.nodata,
            search.target,
            cells,
            boxes,
            m,
        );
        let cell = cells[n - 1];
        assert(cells.take(n as int).drop_last() =~= cells.take(m as int));
        assert(cells.take(n as int).last() == cell);
        let below = descend_all(search, next, (depth - 1) as nat);
        let here = descend(search, cell, depth);
        match fate(search, cell) {
            Fate::Pruned => {
                assert(here == (Multiset::<u64>::empty(), 1nat));
                assert(leaves.to_multiset().add(below.0).add(Multiset::empty())
                    =~= leaves.to_multiset().add(below.0));
            },
            Fate::Leaf => {
                assert(here == (Multiset::singleton(cell), 0nat));
                assert(leaves.push(cell).to_multiset() =~= leaves.to_multiset().insert(cell));
                assert(leaves.to_multiset().add(below.0).add(Multiset::singleton(cell))
                    =~= leaves.push(cell).to_multiset().add(below.0));
            },
            Fate::Descend => {
                let children = children_below(cell);
                lemma_descend_concat(search, next, children, (depth - 1) as nat);
                let more = descend_all(search, children, (depth - 1) as nat).0;
                assert(here == descend_all(search, children, (depth - 1) as nat));
                assert(leaves.to_multiset().add(below.0).add(more) =~= leaves.to_multiset().add(
                    below.0.add(more),
                ));
            },
        }
    }
}

/// Different cells in ascending order ascend strictly.
proof fn lemma_sorted_strictly(cells: Seq<u64>, sorted: Seq<u64>)
    requires
        cells.no_duplicates(),
        sorted.to_multiset() == cells.to_multiset(),
        forall|i: int, j: int| 0 <= i <= j < sorted.len() ==> sorted[i] <= sorted[j],
    ensures
        strictly_ascends(sorted),
{
    cells.lemma_multiset_has_no_duplicates();
    sorted.lemma_multiset_has_no_duplicates_conv();
}

/// A descent level by level. For each level the caller says which pixels the
/// boundaries of its cells enclose.
pub struct H3Traversal<'a> {
    metadata: &'a Metadata,
    heights: &'a [u16],
    target: u8,
    level: u8,
    root_count: usize,
    pending: Vec<u64>,
    leaves: Vec<u64>,
    pruned: usize,
    roots: Ghost<Seq<u64>>,
    told: Ghost<Seq<(u64, Option<RasterBBox>)>>,
}

impl<'a> H3Traversal<'a> {
    pub closed spec fn spec_metadata(&self) -> Metadata {
        *self.metadata
    }

    pub closed spec fn spec_heights(&self) -> Seq<u16> {
        self.heights@
    }

    pub closed spec fn spec_target(&self) -> u8 {
        self.target
    }

    /// The cells that the descent starts from.
    pub closed spec fn roots(&self) -> Seq<u64> {
        self.roots@
    }

    /// The boxes that the descent has been told.
    pub closed spec fn told(&self) -> Seq<(u64, Option<RasterBBox>)> {
        self.told@
    }

    /// The cells of the current level.
    pub closed spec fn spec_pending(&self) -> Seq<u64> {
        self.pending@
    }

    /// The leaf cells so far.
    pub closed spec fn spec_leaves(&self) -> Seq<u64> {
        self.leaves@
    }

    pub closed spec fn spec_pruned(&self) -> nat {
        self.pruned as nat
    }

    /// What the descent goes by, with the boxes of all cells.
    pub open spec fn search(&self, box_of: spec_fn(u64) -> Option<RasterBBox>) -> Search {
        Search {
            heights: self.spec_heights(),
            width: self.spec_metadata().width as int,
            nodata: self.spec_metadata().nodata,
            target: self.spec_target(),
            box_of,
        }
    }

    /// Whatever the boxes of the other cells are, what has been found and what
    /// the current level yields is what the roots yield.
    spec fn is_on_course(&self, box_of: spec_fn(u64) -> Option<RasterBBox>) -> bool {
        let all = descend_all(self.search(box_of), self.roots@, RESOLUTIONS as nat);
        let rest = descend_all(
            self.search(box_of),
            self.pending@,
            (RESOLUTIONS - self.level) as nat,
        );
        &&& all.0 == self.leaves@.to_multiset().add(rest.0)
        &&& all.1 == self.pruned + rest.1
    }

    /// From different cells of one resolution, every level has different cells,
    /// and so have the leaves, which are of the levels above.
    spec fn keeps_apart(&self, res: int) -> bool {
        &&& is_level(self.pending@, res + self.level)
        &&& self.leaves@.no_duplicates()
        &&& forall|j: int|
            0 <= j < self.leaves@.len() ==> spec_resolution(#[trigger] self.leaves@[j]) < res
                + self.level
    }

    pub closed spec fn wf(&self) -> bool {
        &&& forall|res: int| #[trigger] is_level(self.roots@, res) ==> self.keeps_apart(res)
        &&& self.level <= RESOLUTIONS
        &&& self.root_count == self.roots@.len()
        &&& raster_wf(
            self.heights@,
            self.metadata.width as int,
            self.metadata.height as int,
        )
        &&& forall|i: int|
            0 <= i < self.pending@.len() ==> self.level <= spec_resolution(
                #[trigger] self.pending@[i],
            ) < RESOLUTIONS
        &&& forall|box_of: spec_fn(u64) -> Option<RasterBBox>|
            agrees(box_of, self.told@) ==> #[trigger] self.is_on_course(box_of)
    }

    /// Starts a descent from some cells.
    pub fn new(metadata: &'a Metadata, heights: &'a [u16], target: u8, roots: Vec<u64>) -> (descent:
        Self)
        requires
            raster_wf(heights@, metadata.width as int, metadata.height as int),
        ensures
            descent.wf(),
            descent.spec_metadata() == *metadata,
            descent.spec_heights() == heights@,
            descent.spec_target() == target,
            descent.roots() == roots@,
            descent.spec_pending() == roots@,
            descent.spec_leaves() == Seq::<u64>::empty(),
            descent.spec_pruned() == 0,
            descent.told() == Seq::<(u64, Option<RasterBBox>)>::empty(),
    {
        let ghost start = roots@;
        let descent = H3Traversal {
            metadata,
            heights,
            target,
            level: 0,
            root_count: roots.len(),
            pending: roots,
            leaves: Vec::new(),
            pruned: 0,
            roots: Ghost(start),
            told: Ghost(Seq::empty()),
        };
        proof {
            assert forall|box_of: spec_fn(u64) -> Option<RasterBBox>|
                agrees(box_of, descent.told@) implies #[trigger] descent.is_on_course(box_of) by {
                let all = descend_all(descent.search(box_of), start, RESOLUTIONS as nat);
                assert(descent.leaves@.to_multiset() =~= Multiset::<u64>::empty()) by {
                    broadcast use vstd::seq_lib::group_to_multiset_ensures;

                }
                assert(Multiset::<u64>::empty().add(all.0) =~= all.0);
            }
        }
        descent
    }

    /// The cells of the current level. The descent is over when there are none.
    pub fn pending(&self) -> (cells: &[u64])
        ensures
            cells@ == self.spec_pending(),
    {
        self.pending.as_slice()
    }

    /// Takes in the boxes of the cells of the current level, and goes on to the
    /// next one.
    pub fn advance(&mut self, boxes: &[Option<RasterBBox>])
        requires
            old(self).wf(),
            old(self).spec_pending().len() > 0,
            boxes@.len() == old(self).spec_pending().len(),
            boxes_fit(
                boxes@,
                old(self).spec_metadata().width as int,
                old(self).spec_metadata().height as int,
            ),
            old(self).spec_pruned() + boxes@.len() <= usize::MAX,
        ensures
            final(self).wf(),
            final(self).spec_metadata() == old(self).spec_metadata(),
            final(self).spec_heights() == old(self).spec_heights(),
            final(self).spec_target() == old(self).spec_target(),
            final(self).roots() == old(self).roots(),
            final(self).told() == old(self).told() + old(self).spec_pending().zip_with(boxes@),
            ({
                let (next, leaves, pruned) = frontier_after(
                    old(self).spec_heights(),
                    old(self).spec_metadata().width as int,
                    old(self).spec_metadata().nodata,
                    old(self).spec_target(),
                    old(self).spec_pending(),
                    boxes@,
                    boxes@.len(),
                );
                &&& final(self).spec_pending() == next
                &&& final(self).spec_leaves() == old(self).spec_leaves() + leaves
                &&& final(self).spec_pruned() == old(self).spec_pruned() + pruned
            }),
    {
        let ghost before = *self;
        let frontier = traverse_h3_node(
            self.metadata,
            self.heights,
            self.target,
            self.pending.as_slice(),
            boxes,
        );
        let ghost next = frontier.next@;
        let ghost found = frontier.leaves@;
        self.leaves.extend_from_slice(frontier.leaves.as_slice());
        self.pruned = self.pruned + frontier.pruned;
        self.pending = frontier.next;
        proof {
            assert(spec_resolution(before.pending@[0]) < RESOLUTIONS);
        }
        self.level = self.level + 1;
        self.told = Ghost(self.told@ + before.pending@.zip_with(boxes@));
        proof {
            assert(self.leaves@ =~= before.leaves@ + found);
            assert forall|i: int| 0 <= i < self.pending@.len() implies self.level
                <= spec_resolution(#[trigger] self.pending@[i]) < RESOLUTIONS by {
                assert(has_parent(before.pending@, next[i]));
            }
            assert forall|res: int| #[trigger] is_level(self.roots@, res) implies self.keeps_apart(
                res,
            ) by {
                assert(before.keeps_apart(res));
                let level = res + before.level;
                assert(is_level(before.pending@, level));
                assert(is_level(found, level));
                assert forall|j: int, k: int| 0 <= j < k < self.leaves@.len() implies
                self.leaves@[j] != self.leaves@[k] by {
                    let n = before.leaves@.len() as int;
                    if j < n && k >= n {
                        assert(self.leaves@[j] == before.leaves@[j]);
                        assert(self.leaves@[k] == found[k - n]);
                    } else if j >= n {
                        assert(self.leaves@[j] == found[j - n] && self.leaves@[k] == found[k - n]);
                    }
                }
                assert forall|j: int| 0 <= j < self.leaves@.len() implies spec_resolution(
                    #[trigger] self.leaves@[j],
                ) < res + self.level by {
                    let n = before.leaves@.len() as int;
                    if j < n {
                        assert(self.leaves@[j] == before.leaves@[j]);
                    } else {
                        assert(self.leaves@[j] == found[j - n]);
                    }
                }
            }
            assert forall|box_of: spec_fn(u64) -> Option<RasterBBox>|
                agrees(box_of, self.told@) implies #[trigger] self.is_on_course(box_of) by {
                before.lemma_step(*self, boxes@, next, found, box_of);
            }
        }
    }

    /// One level keeps a descent on course.
    proof fn lemma_step(
        self,
        after: Self,
        boxes: Seq<Option<RasterBBox>>,
        next: Seq<u64>,
        found: Seq<u64>,
        box_of: spec_fn(u64) -> Option<RasterBBox>,
    )
        requires
            self.wf(),
            self.level < RESOLUTIONS,
            boxes.len() == self.pending@.len(),
            after.search(box_of) == self.search(box_of),
            after.roots@ == self.roots@,
            after.level == self.level + 1,
            after.pending@ == next,
            after.leaves@ == self.leaves@ + found,
            after.told@ == self.told@ + self.pending@.zip_with(boxes),
            agrees(box_of, after.told@),
            ({
                let (n, l, p) = frontier_after(
                    self.heights@,
                    self.metadata.width as int,
                    self.metadata.nodata,
                    self.target,
                    self.pending@,
                    boxes,
                    boxes.len(),
                );
                n == next && l == found && after.pruned == self.pruned + p
            }),
        ensures
            after.is_on_course(box_of),
    {
        let search = self.search(box_of);
        let asked = self.pending@.zip_with(boxes);
        assert(agrees(box_of, self.told@)) by {
            assert forall|i: int| 0 <= i < self.told@.len() implies box_of(
                (#[trigger] self.told@[i]).0,
            ) == self.told@[i].1 by {
                assert(after.told@[i] == self.told@[i]);
            }
        }
        assert(self.is_on_course(box_of));
        assert forall|i: int| 0 <= i < self.pending@.len() implies (search.box_of)(
            #[trigger] self.pending@[i],
        ) == boxes[i] by {
            assert(after.told@[self.told@.len() + i] == asked[i]);
        }
        let depth = (RESOLUTIONS - self.level) as nat;
        lemma_level(search, self.pending@, boxes, boxes.len(), depth);
        assert(self.pending@.take(boxes.len() as int) =~= self.pending@);
        let below = descend_all(search, next, (depth - 1) as nat).0;
        vstd::seq_lib::lemma_multiset_commutative(self.leaves@, found);
        assert(self.leaves@.to_multiset().add(found.to_multiset().add(below)) =~= (self.leaves@
            + found).to_multiset().add(below));
    }

    /// The leaf cells of a finished descent in the order of their texts, and how
    /// many cells it started from and pruned. None comes twice, where the descent
    /// started from different cells of one resolution. They are those that a descent from
    /// each root finds, whatever the boxes of the cells are that were never
    /// asked for.
    pub fn finish(self) -> (found: (Vec<u64>, H3ExportStats))
        requires
            self.wf(),
            self.spec_pending().len() == 0,
        ensures
            forall|i: int, j: int| 0 <= i <= j < found.0@.len() ==> found.0@[i] <= found.0@[j],
            forall|res: int| #[trigger] is_level(self.roots(), res) ==> strictly_ascends(found.0@),
            found.0@.to_multiset() == self.spec_leaves().to_multiset(),
            found.1 == (H3ExportStats {
                total_candidate_roots: self.roots().len() as usize,
                pruned_coarse_cells: self.spec_pruned() as usize,
                visited_leaf_cells: 0,
                exported_cells: 0,
                min_altitude_m: None,
                max_altitude_m: None,
            }),
            forall|box_of: spec_fn(u64) -> Option<RasterBBox>|
                agrees(box_of, self.told()) ==> {
                    let all = #[trigger] descend_all(
                        self.search(box_of),
                        self.roots(),
                        RESOLUTIONS as nat,
                    );
                    &&& found.0@.to_multiset() == all.0
                    &&& found.1.pruned_coarse_cells == all.1
                },
    {
        let mut leaves = self.leaves;
        sort_cells(&mut leaves);
        proof {
            assert forall|res: int| #[trigger] is_level(self.roots(), res) implies strictly_ascends(
                leaves@,
            ) by {
                assert(self.keeps_apart(res));
                lemma_sorted_strictly(self.leaves@, leaves@);
            }
            assert forall|box_of: spec_fn(u64) -> Option<RasterBBox>|
                agrees(box_of, self.told()) implies ({
                let all = #[trigger] descend_all(
                    self.search(box_of),
                    self.roots(),
                    RESOLUTIONS as nat,
                );
                &&& leaves@.to_multiset() == all.0
                &&& self.pruned == all.1
            }) by {
                assert(self.is_on_course(box_of));
                assert(self.leaves@.to_multiset().add(Multiset::empty())
                    =~= self.leaves@.to_multiset());
            }
        }
        let stats = H3ExportStats {
            total_candidate_roots: self.root_count,
            pruned_coarse_cells: self.pruned,
            visited_leaf_cells: 0,
            exported_cells: 0,
            min_altitude_m: None,
            max_altitude_m: None,
        };
        (leaves, stats)
    }
}

/// A cell lies below another, at most `depth` levels of children down. Cells at
/// the target resolution have nothing below them.
pub open spec fn is_below(target: u8, cell: u64, leaf: u64, depth: nat) -> bool
    decreases depth,
{
    ||| leaf == cell
    ||| depth > 0 && spec_resolution(cell) < target && exists|i: int|
        0 <= i < children_below(cell).len() && is_below(
            target,
            #[trigger] children_below(cell)[i],
            leaf,
            (depth - 1) as nat,
        )
}

/// A cell lies below one of some cells.
pub open spec fn is_below_any(target: u8, cells: Seq<u64>, leaf: u64, depth: nat) -> bool {
    exists|i: int| 0 <= i < cells.len() && is_below(target, #[trigger] cells[i], leaf, depth)
}

/// No cell above a leaf is pruned.
pub open spec fn is_unpruned(search: Search, leaf: u64) -> bool {
    forall|cell: u64, depth: nat| #[trigger]
        is_below(search.target, cell, leaf, depth) ==> fate(search, cell) !is Pruned
}

/// What is found below a cell lies below it and is a leaf; and a leaf below it is
/// found, unless a cell on the way is pruned.
proof fn lemma_descend_finds(search: Search, cell: u64, leaf: u64, depth: nat)
    ensures
        descend(search, cell, depth).0.contains(leaf) ==> is_below(
            search.target,
            cell,
            leaf,
            depth,
        ) && fate(search, leaf) is Leaf,
        is_below(search.target, cell, leaf, depth) && fate(search, leaf) is Leaf && is_unpruned(
            search,
            leaf,
        ) ==> descend(search, cell, depth).0.contains(leaf),
    decreases depth, 0nat,
{
    let found = descend(search, cell, depth).0;
    if fate(search, cell) is Descend && depth > 0 {
        let below = children_below(cell);
        assert(found == descend_all(search, below, (depth - 1) as nat).0);
        lemma_descend_all_finds(search, below, leaf, (depth - 1) as nat);
    }
}

proof fn lemma_descend_all_finds(search: Search, cells: Seq<u64>, leaf: u64, depth: nat)
    ensures
        descend_all(search, cells, depth).0.contains(leaf) ==> is_below_any(
            search.target,
            cells,
            leaf,
            depth,
        ) && fate(search, leaf) is Leaf,
        is_below_any(search.target, cells, leaf, depth) && fate(search, leaf) is Leaf
            && is_unpruned(search, leaf) ==> descend_all(search, cells, depth).0.contains(leaf),
    decreases depth, cells.len() + 1,
{
    if cells.len() > 0 {
        let rest = cells.drop_last();
        let before = descend_all(search, rest, depth).0;
        let last = descend(search, cells.last(), depth).0;
        lemma_descend_all_finds(search, rest, leaf, depth);
        lemma_descend_finds(search, cells.last(), leaf, depth);
        assert(descend_all(search, cells, depth).0 == before.add(last));
        if is_below_any(search.target, rest, leaf, depth) {
            let i = choose|i: int|
                0 <= i < rest.len() && is_below(search.target, #[trigger] rest[i], leaf, depth);
            assert(cells[i] == rest[i]);
        }
        if is_below(search.target, cells.last(), leaf, depth) {
            assert(cells[cells.len() - 1] == cells.last());
        }
        if is_below_any(search.target, cells, leaf, depth) {
            let i = choose|i: int|
                0 <= i < cells.len() && is_below(search.target, #[trigger] cells[i], leaf, depth);
            if i < rest.len() {
                assert(rest[i] == cells[i]);
            }
        }
    }
}

/// Two strictly ascending sequences with the same numbers are the same.
proof fn lemma_ascending_is_unique(a: Seq<u64>, b: Seq<u64>)
    requires
        strictly_ascends(a),
        strictly_ascends(b),
        forall|x: u64| a.contains(x) <==> b.contains(x),
    ensures
        a == b,
    decreases a.len(),
{
    if a.len() == 0 {
        if b.len() > 0 {
            assert(b.contains(b[0]));
        }
        assert(a =~= b);
    } else {
        assert(a.contains(a.last()));
        let k = choose|k: int| 0 <= k < b.len() && b[k] == a.last();
        assert(b.contains(b.last()));
        let m = choose|m: int| 0 <= m < a.len() && a[m] == b.last();
        assert(a.last() == b.last());
        let (p, q) = (a.drop_last(), b.drop_last());
        assert forall|x: u64| p.contains(x) <==> q.contains(x) by {
            lemma_all_but_last(a, x);
            lemma_all_but_last(b, x);
        }
        lemma_ascending_is_unique(p, q);
        assert(a =~= p.push(a.last()));
        assert(b =~= q.push(b.last()));
    }
}

proof fn lemma_all_but_last(s: Seq<u64>, x: u64)
    requires
        strictly_ascends(s),
        s.len() > 0,
    ensures
        s.drop_last().contains(x) <==> s.contains(x) && x != s.last(),
{
    if s.drop_last().contains(x) {
        let i = choose|i: int| 0 <= i < s.drop_last().len() && s.drop_last()[i] == x;
        assert(s[i] == x);
    }
    if s.contains(x) && x != s.last() {
        let i = choose|i: int| 0 <= i < s.len() && s[i] == x;
        assert(s.drop_last()[i] == x);
    }
}

/// One export: what it was asked for, the cells it started from, the leaf cells
/// that it found with what was measured there, and its records.
pub struct Export {
    pub config: H3ExportConfig,
    pub roots: Seq<u64>,
    pub cells: Seq<u64>,
    pub samples: Seq<LeafSample>,
    pub records: Seq<H3Record>,
}

/// What leaf cells hold: their floors and their outlines.
pub struct Leaves {
    pub floor: spec_fn(u64) -> u16,
    pub outline: spec_fn(u64) -> Seq<[crate::float::Binary64; 2]>,
}

impl Export {
    /// The indexes of the leaf cells that are exported.
    pub open spec fn chosen(&self, metadata: &Metadata, heights: Seq<u16>) -> Seq<int> {
        exported(metadata, heights, self.samples, self.samples.len())
    }

    /// The export is that of a descent, whose leaf cells hold what they hold.
    pub open spec fn is_made(
        &self,
        search: Search,
        metadata: &Metadata,
        heights: Seq<u16>,
        leaves: Leaves,
    ) -> bool {
        let chosen = self.chosen(metadata, heights);
        &&& strictly_ascends(self.cells)
        &&& self.cells.to_multiset() == descend_all(search, self.roots, RESOLUTIONS as nat).0
        &&& self.samples.len() == self.cells.len()
        &&& forall|i: int|
            0 <= i < self.cells.len() ==> floor_of(metadata, heights, &#[trigger] self.samples[i])
                == (leaves.floor)(self.cells[i]) && self.samples[i].outline@ == (leaves.outline)(
                self.cells[i],
            )
        &&& self.records.len() == chosen.len()
        &&& forall|i: int|
            0 <= i < chosen.len() ==> is_record(
                &self.config,
                self.cells[chosen[i]],
                &self.samples[chosen[i]],
                floor_of(metadata, heights, &self.samples[chosen[i]]),
                &#[trigger] self.records[i],
            )
    }

    /// The leaf cells that are exported.
    pub open spec fn exported_cells(&self, metadata: &Metadata, heights: Seq<u16>) -> Seq<u64> {
        self.chosen(metadata, heights).map_values(|i: int| self.cells[i])
    }

    proof fn lemma_exported_cells(
        &self,
        search: Search,
        metadata: &Metadata,
        heights: Seq<u16>,
        leaves: Leaves,
    )
        requires
            self.is_made(search, metadata, heights, leaves),
        ensures
            strictly_ascends(self.exported_cells(metadata, heights)),
            forall|x: u64| #[trigger]
                self.exported_cells(metadata, heights).contains(x) <==> self.cells.contains(x)
                    && (leaves.floor)(x) != NO_DATA,
    {
        let chosen = self.chosen(metadata, heights);
        let cells = self.exported_cells(metadata, heights);
        lemma_exported_ascends(metadata, heights, self.samples, self.samples.len());
        assert forall|x: u64| #[trigger] cells.contains(x) <==> self.cells.contains(x) && (
        leaves.floor)(x) != NO_DATA by {
            if cells.contains(x) {
                let i = choose|i: int| 0 <= i < cells.len() && cells[i] == x;
                let k = chosen[i];
                assert(floor_of(metadata, heights, &self.samples[k]) != NO_DATA);
                assert(self.cells[k] == x);
            }
            if self.cells.contains(x) && (leaves.floor)(x) != NO_DATA {
                let k = choose|k: int| 0 <= k < self.cells.len() && self.cells[k] == x;
                assert(floor_of(metadata, heights, &self.samples[k]) != NO_DATA);
                assert(chosen.contains(k));
                let i = choose|i: int| 0 <= i < chosen.len() && chosen[i] == k;
                assert(cells[i] == x);
            }
        }
    }
}

/// Two records say the same.
pub open spec fn same_record(a: H3Record, b: H3Record) -> bool {
    &&& a.h3@ == b.h3@
    &&& a.res == b.res
    &&& a.min_floor_m == b.min_floor_m
    &&& a.altitude_bucket_m == b.altitude_bucket_m
    &&& match (a.boundary, b.boundary) {
        (Some(p), Some(q)) => p@ == q@,
        (None, None) => true,
        _ => false,
    }
}

/// The boxes of a search come from the boxes of the cells' boundaries.
pub open spec fn boxes_come_from(
    search: Search,
    raw_of: spec_fn(u64) -> Option<RawBox>,
    height: int,
) -> bool {
    forall|cell: u64| #[trigger]
        (search.box_of)(cell) == search_box_of(
            cell,
            search.target,
            raw_of(cell),
            search.width,
            height,
        )
}

/// The widened box of a cell has room for the boundary of every leaf below it.
pub open spec fn has_room(target: u8, raw_of: spec_fn(u64) -> Option<RawBox>, leaf: u64) -> bool {
    forall|cell: u64, depth: nat|
        #![trigger is_below(target, cell, leaf, depth)]
        is_below(target, cell, leaf, depth) && cell != leaf ==> match (raw_of(leaf), raw_of(cell)) {
            (Some(inner), Some(outer)) => lies_within(inner, widened(outer)),
            (Some(_), None) => false,
            _ => true,
        }
}

/// Pruning is sound where the widened boxes have room: no cell above a leaf with a
/// visible pixel is pruned.
pub proof fn law_visible_leaves_are_not_pruned(
    search: Search,
    raw_of: spec_fn(u64) -> Option<RawBox>,
    height: int,
    leaf: u64,
)
    requires
        0 < search.width <= u32::MAX,
        0 < height <= u32::MAX,
        boxes_come_from(search, raw_of, height),
        has_room(search.target, raw_of, leaf),
        spec_resolution(leaf) >= search.target,
        (search.box_of)(leaf) matches Some(b) && box_sees(
            search.heights,
            search.width,
            b,
            search.nodata,
        ),
    ensures
        is_unpruned(search, leaf),
{
    assert forall|cell: u64, depth: nat| #[trigger]
        is_below(search.target, cell, leaf, depth) implies fate(search, cell) !is Pruned by {
        assert((search.box_of)(leaf) == search_box_of(
            leaf,
            search.target,
            raw_of(leaf),
            search.width,
            height,
        ));
        if cell != leaf {
            assert((search.box_of)(cell) == search_box_of(
                cell,
                search.target,
                raw_of(cell),
                search.width,
                height,
            ));
            lemma_outer_box_sees(
                search.heights,
                search.width,
                height,
                search.nodata,
                raw_of(leaf)->0,
                widened(raw_of(cell)->0),
            );
        }
    }
}

/// The resolution from which a descent starts changes how much is pruned, but not
/// what is exported: two exports that differ in it have the same records. A floor
/// is the height of a visible pixel in the box of its leaf cell; the widened boxes
/// have room for the cells below them; and both descents start above every leaf
/// with a floor that either of them starts above.
pub proof fn law_start_resolution_leaves_the_records(
    search: Search,
    metadata: &Metadata,
    heights: Seq<u16>,
    leaves: Leaves,
    raw_of: spec_fn(u64) -> Option<RawBox>,
    a: Export,
    b: Export,
)
    requires
        0 < search.width <= u32::MAX,
        0 < metadata.height,
        boxes_come_from(search, raw_of, metadata.height as int),
        a.is_made(search, metadata, heights, leaves),
        b.is_made(search, metadata, heights, leaves),
        b.config == (H3ExportConfig {
            start_resolution: b.config.start_resolution,
            ..a.config
        }),
        forall|leaf: u64| #[trigger]
            (leaves.floor)(leaf) != NO_DATA ==> spec_resolution(leaf) >= search.target && ((
            search.box_of)(leaf) matches Some(bbox) && box_sees(
                search.heights,
                search.width,
                bbox,
                search.nodata,
            )),
        forall|leaf: u64|
            (leaves.floor)(leaf) != NO_DATA ==> #[trigger] has_room(search.target, raw_of, leaf),
        forall|leaf: u64|
            (leaves.floor)(leaf) != NO_DATA ==> (#[trigger] is_below_any(
                search.target,
                a.roots,
                leaf,
                RESOLUTIONS as nat,
            ) <==> is_below_any(search.target, b.roots, leaf, RESOLUTIONS as nat)),
    ensures
        a.records.len() == b.records.len(),
        forall|i: int|
            0 <= i < a.records.len() ==> same_record(#[trigger] a.records[i], b.records[i]),
{
    broadcast use vstd::seq_lib::group_to_multiset_ensures;

    let cells_a = a.exported_cells(metadata, heights);
    let cells_b = b.exported_cells(metadata, heights);
    a.lemma_exported_cells(search, metadata, heights, leaves);
    b.lemma_exported_cells(search, metadata, heights, leaves);
    assert forall|x: u64| cells_a.contains(x) <==> cells_b.contains(x) by {
        if (leaves.floor)(x) != NO_DATA {
            let depth = RESOLUTIONS as nat;
            lemma_descend_all_finds(search, a.roots, x, depth);
            lemma_descend_all_finds(search, b.roots, x, depth);
            assert(has_room(search.target, raw_of, x));
            law_visible_leaves_are_not_pruned(search, raw_of, metadata.height as int, x);
            assert(is_below_any(search.target, a.roots, x, depth) <==> is_below_any(
                search.target,
                b.roots,
                x,
                depth,
            ));
            assert(a.cells.contains(x) <==> a.cells.to_multiset().contains(x));
            assert(b.cells.contains(x) <==> b.cells.to_multiset().contains(x));
        }
    }
    lemma_ascending_is_unique(cells_a, cells_b);
    let chosen_a = a.chosen(metadata, heights);
    let chosen_b = b.chosen(metadata, heights);
    lemma_exported_ascends(metadata, heights, a.samples, a.samples.len());
    lemma_exported_ascends(metadata, heights, b.samples, b.samples.len());
    assert forall|i: int| 0 <= i < a.records.len() implies same_record(
        #[trigger] a.records[i],
        b.records[i],
    ) by {
        assert(cells_a[i] == cells_b[i]);
        let (p, q) = (chosen_a[i], chosen_b[i]);
        assert(a.cells[p] == b.cells[q]);
        assert(a.samples[p].outline@ == b.samples[q].outline@);
        assert(is_record(
            &b.config,
            b.cells[q],
            &b.samples[q],
            floor_of(metadata, heights, &b.samples[q]),
            &b.records[i],
        ));
    }
}

/// A pruned cell takes its whole subtree along: nothing below it is visited.
pub proof fn law_pruned_cells_yield_nothing(search: Search, cell: u64, depth: nat)
    requires
        fate(search, cell) is Pruned,
    ensures
        descend(search, cell, depth) == (Multiset::<u64>::empty(), 1nat),
{
}

/// Every cell that a descent yields is a leaf: it has a box, and has reached the
/// target resolution.
pub proof fn law_descent_yields_leaves(search: Search, cells: Seq<u64>, depth: nat, leaf: u64)
    requires
        descend_all(search, cells, depth).0.count(leaf) > 0,
    ensures
        (search.box_of)(leaf) is Some,
        spec_resolution(leaf) >= search.target,
    decreases depth, cells.len(), 1nat,
{
    if cells.len() > 0 {
        let rest = descend_all(search, cells.drop_last(), depth);
        if rest.0.count(leaf) > 0 {
            law_descent_yields_leaves(search, cells.drop_last(), depth, leaf);
        } else {
            let last = cells.last();
            assert(descend(search, last, depth).0.count(leaf) > 0);
            if fate(search, last) is Descend {
                assert(depth > 0);
                law_descent_yields_leaves(search, children_below(last), (depth - 1) as nat, leaf);
            } else {
                assert(fate(search, last) is Leaf);
                assert(leaf == last);
            }
        }
    }
}

/// A descent from several cells yields what the descents from each of them yield
/// together, and prunes as many cells.
pub proof fn law_descents_add_up(search: Search, a: Seq<u64>, b: Seq<u64>, depth: nat)
    ensures
        descend_all(search, a + b, depth).0 == descend_all(search, a, depth).0.add(
            descend_all(search, b, depth).0,
        ),
        descend_all(search, a + b, depth).1 == descend_all(search, a, depth).1 + descend_all(
            search,
            b,
            depth,
        ).1,
    decreases b.len(),
{
    if b.len() == 0 {
        assert(a + b =~= a);
        assert(descend_all(search, a + b, depth).0 =~= descend_all(search, a, depth).0.add(
            descend_all(search, b, depth).0,
        ));
    } else {
        law_descents_add_up(search, a, b.drop_last(), depth);
        assert((a + b).drop_last() =~= a + b.drop_last());
        assert((a + b).last() == b.last());
        assert(descend_all(search, a + b, depth).0 =~= descend_all(search, a, depth).0.add(
            descend_all(search, b, depth).0,
        ));
    }
}

/// A coarse cell that sees something yields what its children yield, and a cell at
/// the target resolution that has a box yields itself.
pub proof fn law_descent_follows_what_it_sees(search: Search, cell: u64, depth: nat)
    requires
        (search.box_of)(cell) is Some,
    ensures
        spec_resolution(cell) >= search.target ==> descend(search, cell, depth) == (
            Multiset::<u64>::singleton(cell),
            0nat,
        ),
        spec_resolution(cell) < search.target && depth > 0 && box_sees(
            search.heights,
            search.width,
            (search.box_of)(cell)->0,
            search.nodata,
        ) ==> descend(search, cell, depth) == descend_all(
            search,
            children_below(cell),
            (depth - 1) as nat,
        ),
        spec_resolution(cell) < search.target && !box_sees(
            search.heights,
            search.width,
            (search.box_of)(cell)->0,
            search.nodata,
        ) ==> descend(search, cell, depth) == (Multiset::<u64>::empty(), 1nat),
{
}

} // verus!
