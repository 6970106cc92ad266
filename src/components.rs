//! The data an entity may carry, and the scene-wide settings.
use vstd::prelude::*;
use crate::fixed::{in_range, isqrt, sat, saturate, FORCE_BOUND, LIMIT};

verus! {

/// Largest magnitude of a charge.
pub const CHARGE_LIMIT: i64 = 1_000_000;

/// Largest spring stiffness, in thousandths.
pub const STIFFNESS_LIMIT: i64 = 1_000_000;

/// An entity's identity: plain data, looked up through the world.
#[derive(Clone, Copy, Debug, PartialEq, Eq, Structural)]
pub struct Entity {
    pub id: u64,
}

/// A location, in thousandths of a scene unit.
#[derive(Clone, Copy, Debug, PartialEq, Eq, Structural)]
pub struct Position {
    pub x: i64,
    pub y: i64,
}

/// A rate of change, in thousandths of a scene unit per second.
#[derive(Clone, Copy, Debug, PartialEq, Eq, Structural)]
pub struct Velocity {
    pub vx: i64,
    pub vy: i64,
}

/// The offset from one position to another.
#[derive(Clone, Copy, Debug, PartialEq, Eq, Structural)]
pub struct PosDiff {
    pub dx: i64,
    pub dy: i64,
}

/// Charge of an entity that takes part in Coulomb repulsion.
#[derive(Clone, Copy, Debug, PartialEq, Eq, Structural)]
pub struct Repel {
    pub charge: i64,
}

/// Half-size of an entity's footprint, kept inside the arena.
#[derive(Clone, Copy, Debug, PartialEq, Eq, Structural)]
pub struct Collider {
    pub w: i64,
    pub h: i64,
}

/// Marks an entity as pulled toward the pointer.
#[derive(Clone, Copy, Debug, PartialEq, Eq, Structural)]
pub struct MouseAttract;

/// The name under which a renderer knows an entity.
#[derive(Clone, Debug)]
pub struct DomElement {
    pub id: String,
}

/// A spring between two entities, held by identity only.
/// `ideal` is the rest length; `k` the stiffness in thousandths.
#[derive(Clone, Copy, Debug)]
pub struct Edge {
    pub nodes: (Entity, Entity),
    pub ideal: i64,
    pub k: i64,
}

/// Milliseconds that the current tick advances.
#[derive(Clone, Copy, Debug, PartialEq, Eq, Structural)]
pub struct DeltaTime(pub i64);

/// The pointer position, in the units of `Position`.
#[derive(Clone, Copy, Debug)]
pub struct MousePos(pub (i64, i64));

/// Width and height of the arena, in the units of `Position`.
#[derive(Clone, Copy, Debug)]
pub struct ArenaSize(pub (i64, i64));

/// What a caller supplies to create a rendered node.
#[derive(Clone, Debug)]
pub struct EntityArgs {
    pub pos: Option<Position>,
    pub vel: Option<Velocity>,
    pub colds: Option<Collider>,
    pub html: String,
}

impl Position {
    pub open spec fn wf(&self) -> bool {
        in_range(self.x as int) && in_range(self.y as int)
    }

    pub fn diff(&self, other: &Self) -> (r: PosDiff)
        requires
            self.wf(),
            other.wf(),
        ensures
            r.dx == self.x - other.x,
            r.dy == self.y - other.y,
    {
        PosDiff { dx: self.x - other.x, dy: self.y - other.y }
    }
}

impl PosDiff {
    /// Both components of a difference of two in-range positions.
    pub open spec fn wf(&self) -> bool {
        -2 * LIMIT <= self.dx <= 2 * LIMIT && -2 * LIMIT <= self.dy <= 2 * LIMIT
    }

    pub open spec fn dist_sq(&self) -> int {
        self.dx * self.dx + self.dy * self.dy
    }

    pub fn dist_squared(&self) -> (r: i128)
        requires
            self.wf(),
        ensures
            r == self.dist_sq(),
            0 <= r <= 8 * LIMIT * LIMIT,
    {
        let dx = self.dx as i128;
        let dy = self.dy as i128;
        assert(dx * dx <= 4 * LIMIT * LIMIT && dy * dy <= 4 * LIMIT * LIMIT && 0 <= dx * dx && 0
            <= dy * dy) by (nonlinear_arith)
            requires
                -2 * LIMIT <= dx <= 2 * LIMIT,
                -2 * LIMIT <= dy <= 2 * LIMIT,
        ;
        dx * dx + dy * dy
    }

    /// Length of the offset, rounded down.
    pub fn dist(&self) -> (r: i128)
        requires
            self.wf(),
        ensures
            r == crate::fixed::floor_sqrt(self.dist_sq()),
            crate::fixed::is_floor_sqrt(self.dist_sq(), r as int),
            0 <= r <= 0x4_0000_0000_0000,
    {
        let d2 = self.dist_squared();
        isqrt(d2 as u128) as i128
    }
}

impl Velocity {
    pub open spec fn wf(&self) -> bool {
        in_range(self.vx as int) && in_range(self.vy as int)
    }

    /// Adds `(fx, fy)`, saturating each component.
    pub fn apply_force_vector(&mut self, fx: i128, fy: i128)
        requires
            old(self).wf(),
            -FORCE_BOUND <= fx <= FORCE_BOUND,
            -FORCE_BOUND <= fy <= FORCE_BOUND,
        ensures
            final(self).vx == sat(old(self).vx + fx),
            final(self).vy == sat(old(self).vy + fy),
            final(self).wf(),
    {
        self.vx = saturate(self.vx as i128 + fx);
        self.vy = saturate(self.vy as i128 + fy);
    }
}

impl Repel {
    pub open spec fn wf(&self) -> bool {
        -CHARGE_LIMIT <= self.charge <= CHARGE_LIMIT
    }
}

impl Collider {
    pub open spec fn wf(&self) -> bool {
        0 <= self.w <= LIMIT && 0 <= self.h <= LIMIT
    }
}

impl Edge {
    pub open spec fn wf(&self) -> bool {
        0 <= self.ideal <= LIMIT && 0 <= self.k <= STIFFNESS_LIMIT
    }
}

} // verus!
