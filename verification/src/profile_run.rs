//! The course of a profile request: what is asked for in turn, and which refusal
//! comes first.
use crate::answers::ProfileFault;
use crate::api::{check_profile_distance, check_profile_target, Radar, RadarRegistry};
use crate::float::Binary64;
use crate::terrain::{is_latitude, is_longitude};
use vstd::prelude::*;

verus! {

/// What a profile request asks for next.
#[derive(Clone, Copy, Debug, PartialEq, Eq, Structural)]
pub enum ProfileStep {
    /// The distance of the target in the projection round the radar.
    Project,
    /// The tiles within the range of the radar.
    Tiles,
    /// The terrain of these tiles.
    Terrain,
    /// The elevations along the path to the target.
    Path,
    /// A grid of these elevations.
    Grid,
    /// The profile over this grid.
    Compute,
    /// Nothing: the profile is there.
    Done,
    Refused(ProfileFault),
}

impl ProfileStep {
    /// The target has been checked, and work on the terrain goes on or is done.
    pub open spec fn is_checked(self) -> bool {
        self is Tiles || self is Terrain || self is Path || self is Grid || self is Compute || self
            is Done
    }

    /// What can go wrong in a step.
    pub open spec fn can_fail(self, fault: ProfileFault) -> bool {
        match self {
            ProfileStep::Tiles => fault is TerrainExtent,
            ProfileStep::Terrain => fault is TerrainPreparation,
            ProfileStep::Path => fault is PathProjection || fault is PathTerrain,
            ProfileStep::Grid => fault is Grid,
            ProfileStep::Compute => fault is Computation,
            _ => false,
        }
    }

    /// The step after one that went well.
    pub open spec fn after(self) -> ProfileStep {
        match self {
            ProfileStep::Tiles => ProfileStep::Terrain,
            ProfileStep::Terrain => ProfileStep::Path,
            ProfileStep::Path => ProfileStep::Grid,
            ProfileStep::Grid => ProfileStep::Compute,
            _ => ProfileStep::Done,
        }
    }
}

/// A profile request on its course.
pub struct ProfileRun {
    radar: Option<Radar>,
    latitude: Binary64,
    longitude: Binary64,
    distance_m: Option<Binary64>,
    step: ProfileStep,
}

impl ProfileRun {
    pub closed spec fn spec_radar(&self) -> Option<Radar> {
        self.radar
    }

    /// The latitude and longitude of the target.
    pub closed spec fn spec_target(&self) -> (Binary64, Binary64) {
        (self.latitude, self.longitude)
    }

    pub closed spec fn spec_distance(&self) -> Option<Binary64> {
        self.distance_m
    }

    pub closed spec fn spec_step(&self) -> ProfileStep {
        self.step
    }

    /// A target is projected only for a radar that is known, and when it lies on
    /// the globe; terrain is asked for only when it lies in range, too.
    pub open spec fn wf(&self) -> bool {
        &&& self.spec_step() is Project || self.spec_step().is_checked() ==> self.spec_radar()
            is Some && is_latitude(self.spec_target().0) && is_longitude(self.spec_target().1)
        &&& self.spec_step().is_checked() ==> (self.spec_distance() matches Some(d)
            && !self.spec_radar()->0.range_m.spec_lt(d))
    }

    /// Another state of the same request.
    pub open spec fn continues(&self, before: &Self) -> bool {
        &&& self.wf()
        &&& self.spec_radar() == before.spec_radar()
        &&& self.spec_target() == before.spec_target()
    }

    /// Takes in a request. An unknown radar is refused first, then a target off
    /// the globe.
    pub fn new(
        registry: &RadarRegistry,
        id: u128,
        latitude: Binary64,
        longitude: Binary64,
    ) -> (run: Self)
        requires
            registry.wf(),
        ensures
            run.wf(),
            run.spec_target() == (latitude, longitude),
            run.spec_radar() is Some <==> registry.contains(id),
            run.spec_radar() matches Some(radar) ==> radar.id == id && registry.has(radar),
            run.spec_step() == (if !registry.contains(id) {
                ProfileStep::Refused(ProfileFault::UnknownRadar)
            } else if !is_latitude(latitude) || !is_longitude(longitude) {
                ProfileStep::Refused(ProfileFault::Target)
            } else {
                ProfileStep::Project
            }),
    {
        match registry.get_radar(id) {
            Err(_) => ProfileRun {
                radar: None,
                latitude,
                longitude,
                distance_m: None,
                step: ProfileStep::Refused(ProfileFault::UnknownRadar),
            },
            Ok(radar) => {
                proof {
                    let i = choose|i: int|
                        0 <= i < registry.spec_radars().len() && registry.spec_radars()[i] == radar;
                    assert(registry.spec_radars()[i].id == id);
                }
                let step = match check_profile_target(latitude, longitude) {
                    Ok(()) => ProfileStep::Project,
                    Err(_) => ProfileStep::Refused(ProfileFault::Target),
                };
                ProfileRun { radar: Some(radar), latitude, longitude, distance_m: None, step }
            },
        }
    }

    pub fn step(&self) -> (step: ProfileStep)
        ensures
            step == self.spec_step(),
    {
        self.step
    }

    pub fn radar(&self) -> (radar: Option<&Radar>)
        ensures
            match radar {
                Some(r) => self.spec_radar() == Some(*r),
                None => self.spec_radar() is None,
            },
    {
        match &self.radar {
            Some(radar) => Some(radar),
            None => None,
        }
    }

    /// Takes in the distance of the target, if it can be projected. A target out of
    /// range is refused.
    pub fn take_distance(&mut self, distance_m: Option<Binary64>)
        requires
            old(self).wf(),
            old(self).spec_step() is Project,
        ensures
            final(self).continues(old(self)),
            final(self).spec_distance() == distance_m,
            final(self).spec_step() == (match distance_m {
                None => ProfileStep::Refused(ProfileFault::Projection),
                Some(d) => if old(self).spec_radar()->0.range_m.spec_lt(d) {
                    ProfileStep::Refused(ProfileFault::OutOfRange)
                } else {
                    ProfileStep::Tiles
                },
            }),
    {
        self.step = match (distance_m, &self.radar) {
            (Some(distance), Some(radar)) => match check_profile_distance(distance, radar.range_m) {
                Ok(()) => ProfileStep::Tiles,
                Err(_) => ProfileStep::Refused(ProfileFault::OutOfRange),
            },
            _ => ProfileStep::Refused(ProfileFault::Projection),
        };
        self.distance_m = distance_m;
    }

    /// Takes in whether a step went well, or what failed in it.
    pub fn advance(&mut self, fault: Option<ProfileFault>)
        requires
            old(self).wf(),
            old(self).spec_step().is_checked(),
            old(self).spec_step() !is Done,
            fault matches Some(f) ==> old(self).spec_step().can_fail(f),
        ensures
            final(self).continues(old(self)),
            final(self).spec_distance() == old(self).spec_distance(),
            final(self).spec_step() == (match fault {
                Some(f) => ProfileStep::Refused(f),
                None => old(self).spec_step().after(),
            }),
    {
        self.step = match fault {
            Some(fault) => ProfileStep::Refused(fault),
            None => match self.step {
                ProfileStep::Tiles => ProfileStep::Terrain,
                ProfileStep::Terrain => ProfileStep::Path,
                ProfileStep::Path => ProfileStep::Grid,
                ProfileStep::Grid => ProfileStep::Compute,
                _ => ProfileStep::Done,
            },
        };
    }
}

/// No tile is asked for, nor any terrain, before the radar, the target and its
/// distance are accepted.
pub proof fn law_terrain_is_for_accepted_targets(run: ProfileRun)
    requires
        run.wf(),
        run.spec_step().is_checked(),
    ensures
        run.spec_radar() matches Some(radar) && (run.spec_distance() matches Some(distance)
            && !radar.range_m.spec_lt(distance)),
        is_latitude(run.spec_target().0),
        is_longitude(run.spec_target().1),
{
}

/// The steps of a request follow each other: terrain before the path, the path
/// before the grid, the grid before the profile, and nothing after that.
pub proof fn law_profile_steps_follow_each_other()
    ensures
        ({
            let terrain = ProfileStep::Tiles.after();
            let path = terrain.after();
            let grid = path.after();
            let compute = grid.after();
            &&& terrain is Terrain && path is Path && grid is Grid && compute is Compute
            &&& compute.after() is Done && compute.after().after() is Done
        }),
{
}

/// A step fails only with a fault of its own: no fault can come from two steps, and
/// none from a request that has ended.
pub proof fn law_fault_tells_the_step(a: ProfileStep, b: ProfileStep, fault: ProfileFault)
    ensures
        a.can_fail(fault) && b.can_fail(fault) ==> a == b,
        a.can_fail(fault) ==> a.is_checked() && a !is Done,
{
}

} // verus!
