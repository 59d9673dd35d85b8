//! The read-only spatial index the core consumes.
//!
//! The wider simulation builds the map; this crate only reads per-lane facts
//! (kind, length, parent road), projects positions between lanes, and looks
//! up routes that the external router has already computed. All of that is
//! held here as plain data: a lane is its length, kind and parent road, and
//! the router is a table from request to path.

use vstd::prelude::*;
use crate::types::{Distance, LaneID, RoadID};

verus! {

/// What a lane is used for. Only parking lanes hold stalls.
#[derive(Clone, Copy, PartialEq, Eq, Structural, Debug)]
pub enum LaneType {
    Driving,
    Parking,
    Sidewalk,
    Biking,
}

/// The per-lane facts the core reads from the map.
#[derive(Clone, Copy, PartialEq, Eq, Structural, Debug)]
pub struct Lane {
    pub lane_type: LaneType,
    pub length: Distance,
    pub parent: RoadID,
}

/// A position along a lane: the lane and the distance from its start.
#[derive(Clone, Copy, PartialEq, Eq, Structural, Debug)]
pub struct Position {
    pub lane: LaneID,
    pub dist_along: Distance,
}

/// What the external router is asked for: a start and an end position.
#[derive(Clone, Copy, PartialEq, Eq, Structural, Debug)]
pub struct PathRequest {
    pub start: Position,
    pub end: Position,
}

/// A route the external router found: the lanes it crosses, in order.
#[derive(PartialEq, Eq, Debug)]
#[verifier::ext_equal]
pub struct Path {
    pub steps: Vec<LaneID>,
}

impl Clone for Path {
    /// An exact copy: the clone crosses the same lanes in the same order.
    fn clone(&self) -> (r: Path)
        ensures
            r.steps@ == self.steps@,
    {
        let mut steps: Vec<LaneID> = Vec::new();
        let n = self.steps.len();
        for i in 0..n
            invariant
                n == self.steps@.len(),
                steps@ == self.steps@.take(i as int),
        {
            proof {
                assert(self.steps@.take(i + 1) =~= self.steps@.take(i as int).push(
                    self.steps@[i as int],
                ));
            }
            steps.push(self.steps[i]);
        }
        proof {
            assert(steps@ =~= self.steps@);
        }
        Path { steps }
    }
}

/// The read-only spatial index: the list of lanes, addressed by `LaneID`,
/// and the routes the external router has resolved, as a lookup table.
pub struct SpatialIndex {
    pub lanes: Vec<Lane>,
    pub paths: Vec<(PathRequest, Path)>,
}

impl Position {
    pub fn new(lane: LaneID, dist_along: Distance) -> (r: Position)
        ensures
            r == (Position { lane, dist_along }),
    {
        Position { lane, dist_along }
    }

    pub fn lane(&self) -> (r: LaneID)
        ensures
            r == self.lane,
    {
        self.lane
    }

    pub fn dist_along(&self) -> (r: Distance)
        ensures
            r == self.dist_along,
    {
        self.dist_along
    }

    /// The equivalent position on another lane of the same road, per the
    /// spatial index's equivalence mapping: the same distance along the
    /// target lane, clamped to the target lane's length. Deterministic:
    /// the same inputs always give the same output.
    pub fn equiv_pos(&self, lane: LaneID, map: &SpatialIndex) -> (r: Position)
        requires
            map.lane_in_bounds(lane),
        ensures
            r == self.spec_equiv_pos(lane, map),
    {
        let len = map.lanes[lane.0].length;
        if self.dist_along <= len {
            Position { lane, dist_along: self.dist_along }
        } else {
            Position { lane, dist_along: len }
        }
    }

    /// What `equiv_pos` returns.
    pub open spec fn spec_equiv_pos(self, lane: LaneID, map: &SpatialIndex) -> Position {
        let len = map.lanes@[lane.0 as int].length;
        Position {
            lane,
            dist_along: if self.dist_along <= len {
                self.dist_along
            } else {
                len
            },
        }
    }
}

impl SpatialIndex {
    /// A fresh index over the given lanes and resolved routes.
    pub fn new(lanes: Vec<Lane>, paths: Vec<(PathRequest, Path)>) -> (r: SpatialIndex)
        ensures
            r.lanes == lanes,
            r.paths == paths,
    {
        SpatialIndex { lanes, paths }
    }

    pub open spec fn lane_in_bounds(&self, l: LaneID) -> bool {
        l.0 < self.lanes@.len()
    }

    pub fn num_lanes(&self) -> (r: usize)
        ensures
            r == self.lanes@.len(),
    {
        self.lanes.len()
    }

    pub fn get_l(&self, l: LaneID) -> (r: &Lane)
        requires
            self.lane_in_bounds(l),
        ensures
            r == self.lanes@[l.0 as int],
    {
        &self.lanes[l.0]
    }

    /// The route the external router found for this request, if it found
    /// one: the first table entry whose request matches.
    pub fn pathfind(&self, req: &PathRequest) -> (r: Option<&Path>)
        ensures
            match r {
                Some(p) => self.spec_pathfind(*req) == Some(*p),
                None => self.spec_pathfind(*req) is None,
            },
    {
        let n = self.paths.len();
        for i in 0..n
            invariant
                n == self.paths@.len(),
                forall|j: int| 0 <= j < i ==> self.paths@[j].0 != *req,
                spec_path_lookup(self.paths@, *req) == self.spec_pathfind(*req),
        {
            if self.paths[i].0 == *req {
                proof {
                    lemma_path_lookup_first(self.paths@, *req, i as int);
                }
                return Some(&self.paths[i].1);
            }
        }
        proof {
            lemma_path_lookup_none(self.paths@, *req);
        }
        None
    }

    /// What `pathfind` returns.
    pub open spec fn spec_pathfind(&self, req: PathRequest) -> Option<Path> {
        spec_path_lookup(self.paths@, req)
    }
}

/// The first path in the table whose request matches, scanning from the
/// front.
pub open spec fn spec_path_lookup(table: Seq<(PathRequest, Path)>, req: PathRequest) -> Option<
    Path,
>
    decreases table.len(),
{
    if table.len() == 0 {
        None
    } else if table.first().0 == req {
        Some(table.first().1)
    } else {
        spec_path_lookup(table.drop_first(), req)
    }
}

proof fn lemma_path_lookup_first(table: Seq<(PathRequest, Path)>, req: PathRequest, i: int)
    requires
        0 <= i < table.len(),
        table[i].0 == req,
        forall|j: int| 0 <= j < i ==> table[j].0 != req,
    ensures
        spec_path_lookup(table, req) == Some(table[i].1),
    decreases i,
{
    if i > 0 {
        lemma_path_lookup_first(table.drop_first(), req, i - 1);
    }
}

proof fn lemma_path_lookup_none(table: Seq<(PathRequest, Path)>, req: PathRequest)
    requires
        forall|j: int| 0 <= j < table.len() ==> table[j].0 != req,
    ensures
        spec_path_lookup(table, req) is None,
    decreases table.len(),
{
    if table.len() > 0 {
        lemma_path_lookup_none(table.drop_first(), req);
    }
}

} // verus!
