//! Bearings of grid offsets by an angular lookup table.
use crate::float::Binary64;
use vstd::prelude::*;

verus! {

/// The quadrant of an offset. The axes belong to the quadrants in which the
/// coordinates are not negative.
#[derive(Clone, Copy, Debug, PartialEq, Eq, Structural)]
pub enum Quadrant {
    First,
    Second,
    Third,
    Fourth,
}

/// An offset folded into the first octant.
#[derive(Clone, Copy, Debug, PartialEq, Eq, Structural)]
pub struct Direction {
    /// The smaller of the two distances along the axes.
    pub small: u32,
    /// The larger of the two distances along the axes.
    pub large: u32,
    /// The offset is farther along y than along x.
    pub steep: bool,
    pub quadrant: Quadrant,
}

/// The number without its sign.
pub open spec fn distance(n: i32) -> int {
    if n < 0 {
        -n
    } else {
        n as int
    }
}

pub open spec fn quadrant_of(dx: i32, dy: i32) -> Quadrant {
    if dy >= 0 {
        if dx >= 0 {
            Quadrant::First
        } else {
            Quadrant::Second
        }
    } else if dx >= 0 {
        Quadrant::Fourth
    } else {
        Quadrant::Third
    }
}

/// The direction of an offset other than the origin.
pub open spec fn direction_of(dx: i32, dy: i32) -> Direction {
    let ax = distance(dx);
    let ay = distance(dy);
    Direction {
        small: (if ax <= ay {
            ax
        } else {
            ay
        }) as u32,
        large: (if ax <= ay {
            ay
        } else {
            ax
        }) as u32,
        steep: ax < ay,
        quadrant: quadrant_of(dx, dy),
    }
}

/// Folds an offset into the first octant; nothing for the origin, which has no
/// bearing.
pub fn fold(dx: i32, dy: i32) -> (direction: Option<Direction>)
    ensures
        direction == (if dx == 0 && dy == 0 {
            None
        } else {
            Some(direction_of(dx, dy))
        }),
        direction matches Some(d) ==> 0 < d.large && d.small <= d.large,
{
    if dx == 0 && dy == 0 {
        return None;
    }
    let ax: u32 = if dx < 0 {
        (-(dx as i64)) as u32
    } else {
        dx as u32
    };
    let ay: u32 = if dy < 0 {
        (-(dy as i64)) as u32
    } else {
        dy as u32
    };
    let quadrant = if dy >= 0 {
        if dx >= 0 {
            Quadrant::First
        } else {
            Quadrant::Second
        }
    } else if dx >= 0 {
        Quadrant::Fourth
    } else {
        Quadrant::Third
    };
    Some(
        if ax <= ay {
            Direction { small: ax, large: ay, steep: ax < ay, quadrant }
        } else {
            Direction { small: ay, large: ax, steep: false, quadrant }
        },
    )
}

/// Folding loses nothing: offsets with the same direction and distances are the
/// same offset.
pub proof fn law_directions_are_unique(ax: i32, ay: i32, bx: i32, by: i32)
    requires
        direction_of(ax, ay) == direction_of(bx, by),
    ensures
        ax == bx,
        ay == by,
{
}

/// Shared immutable first-octant angular lookup table: the angle of evenly
/// spaced ratios from 0 to 1.
#[derive(Debug)]
pub struct AngularTable {
    bins: usize,
    ratios: Vec<Binary64>,
    angles: Vec<Binary64>,
    boundary_guard: Binary64,
}

/// How many steps a table for some largest offset has.
pub fn table_steps(max_offset: usize) -> (steps: usize)
    ensures
        steps == (if max_offset < 1 {
            1
        } else {
            max_offset
        }),
{
    if max_offset < 1 {
        1
    } else {
        max_offset
    }
}

impl AngularTable {
    pub closed spec fn spec_bins(&self) -> usize {
        self.bins
    }

    pub closed spec fn spec_ratios(&self) -> Seq<Binary64> {
        self.ratios@
    }

    pub closed spec fn spec_angles(&self) -> Seq<Binary64> {
        self.angles@
    }

    pub closed spec fn spec_guard(&self) -> Binary64 {
        self.boundary_guard
    }

    pub open spec fn wf(&self) -> bool {
        &&& self.spec_bins() > 0
        &&& self.spec_ratios().len() == self.spec_angles().len()
        &&& self.spec_angles().len() >= 2
    }

    /// A table of ratios and their angles. Bearings that are no farther than the
    /// guard from the boundary of a bin are not read from the table.
    pub fn new(
        bins: usize,
        ratios: Vec<Binary64>,
        angles: Vec<Binary64>,
        boundary_guard: Binary64,
    ) -> (table: Self)
        requires
            bins > 0,
            ratios@.len() == angles@.len(),
            angles@.len() >= 2,
        ensures
            table.wf(),
            table.spec_bins() == bins,
            table.spec_ratios() == ratios@,
            table.spec_angles() == angles@,
            table.spec_guard() == boundary_guard,
    {
        AngularTable { bins, ratios, angles, boundary_guard }
    }

    pub fn bins(&self) -> (n: usize)
        ensures
            n == self.spec_bins(),
    {
        self.bins
    }

    /// The number of steps between the first ratio and the last.
    pub fn steps(&self) -> (n: usize)
        requires
            self.wf(),
        ensures
            n == self.spec_ratios().len() - 1,
    {
        self.ratios.len() - 1
    }

    /// The angles at both ends of the step that holds a place, and the number of
    /// that step. The end of the table belongs to its last step.
    pub fn step_at(&self, place: usize) -> (step: (usize, Binary64, Binary64))
        requires
            self.wf(),
        ensures
            step.0 == (if place > self.spec_angles().len() - 2 {
                self.spec_angles().len() - 2
            } else {
                place as int
            }),
            step.1 == self.spec_angles()[step.0 as int],
            step.2 == self.spec_angles()[step.0 + 1],
    {
        let last: usize = self.angles.len() - 2;
        let at: usize = if place > last {
            last
        } else {
            place
        };
        (at, self.angles[at], self.angles[at + 1])
    }

    /// The bin of an offset. `read` is the bin that the table gives, `exact` the
    /// one of the exact angle, which counts near the boundary of a bin. The
    /// origin lies in the first bin.
    pub fn sector(
        &self,
        dx: i32,
        dy: i32,
        distance_to_boundary: Binary64,
        read: usize,
        exact: usize,
    ) -> (bin: usize)
        requires
            self.wf(),
        ensures
            bin == (if dx == 0 && dy == 0 {
                0
            } else if distance_to_boundary.spec_le(self.spec_guard()) {
                exact as int % self.spec_bins() as int
            } else {
                read as int % self.spec_bins() as int
            }),
            bin < self.spec_bins(),
    {
        if dx == 0 && dy == 0 {
            return 0;
        }
        if distance_to_boundary.le(self.boundary_guard) {
            return exact % self.bins;
        }
        read % self.bins
    }
}

/// The folded direction of an offset: its two distances in ascending order, which
/// of them lies across, and the quadrant of its signs.
pub proof fn law_direction_folds_the_offset(dx: i32, dy: i32)
    ensures
        ({
            let d = direction_of(dx, dy);
            let across = if d.steep {
                d.small as int
            } else {
                d.large as int
            };
            let along = if d.steep {
                d.large as int
            } else {
                d.small as int
            };
            &&& d.small <= d.large
            &&& d.small == d.large ==> !d.steep
            &&& dx == across || dx == -across
            &&& dy == along || dy == -along
            &&& d.quadrant is First <==> dx >= 0 && dy >= 0
            &&& d.quadrant is Second <==> dx < 0 && dy >= 0
            &&& d.quadrant is Third <==> dx < 0 && dy < 0
            &&& d.quadrant is Fourth <==> dx >= 0 && dy < 0
        }),
{
}

} // verus!
