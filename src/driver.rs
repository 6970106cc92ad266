//! The tick driver and the entry points a host calls between ticks.
use vstd::prelude::*;
use crate::components::{DomElement, Entity, EntityArgs, Repel};
use crate::fixed::sat;
use crate::pipeline::{systems_step, tick_result, tick_span};
use crate::world::{with_spawned, ComponentBundle, World, WorldView};

verus! {

/// Charge given to every node made by `spawn_entity`.
pub const NODE_CHARGE: i64 = 50;

/// Runs the passes of one tick in their fixed order: pointer, springs,
/// repulsion (each unless switched off; broken springs are marked for
/// removal regardless), damping, integration, containment.
pub fn execute_systems(world: &mut World)
    requires
        old(world)@.wf(),
    ensures
        final(world)@ == systems_step(old(world)@),
        final(world)@.wf(),
{
    let switches = world.forces();
    if switches.mouse {
        world.apply_mouse();
    }
    world.apply_springs();
    if switches.repulsion {
        world.apply_repulsion();
    }
    world.apply_damping();
    world.apply_velocity();
    world.apply_walls();
}

/// Advances the world by one tick of `elapsed_ms` milliseconds (a negative
/// time counts as zero), then applies the removals marked during it.
pub fn tick(world: &mut World, elapsed_ms: i64)
    requires
        old(world)@.wf(),
    ensures
        final(world)@ == tick_result(old(world)@, elapsed_ms as int),
        final(world)@.wf(),
{
    world.set_elapsed(elapsed_ms);
    execute_systems(world);
    world.maintain();
}

/// Milliseconds since the previous call, whose clock reading `prev` holds:
/// zero on the first call, otherwise the difference of the two readings (zero
/// if the clock went back, `i64::MAX` if the difference does not fit).
/// Records `now`.
pub fn delta_ms(prev: &mut Option<i64>, now: i64) -> (r: i64)
    ensures
        r == match *old(prev) {
            None => 0,
            Some(t) => if now - t > i64::MAX {
                i64::MAX as int
            } else {
                tick_span(now - t)
            },
        },
        *final(prev) == Some(now),
{
    let r = match *prev {
        None => 0,
        Some(t) => {
            let d = now as i128 - t as i128;
            if d < 0 {
                0
            } else if d > i64::MAX as i128 {
                i64::MAX
            } else {
                d as i64
            }
        },
    };
    *prev = Some(now);
    r
}

/// Moves the pointer that tagged entities are pulled toward.
pub fn update_mouse_position(world: &mut World, x: i64, y: i64)
    requires
        old(world)@.wf(),
    ensures
        final(world)@.wf(),
        final(world)@ == (WorldView { mouse_pos: (sat(x as int), sat(y as int)), ..old(world)@ }),
{
    world.set_mouse_pos(x, y);
}

/// Sets the arena that footprints are kept inside.
pub fn update_arena_size(world: &mut World, w: i64, h: i64)
    requires
        old(world)@.wf(),
    ensures
        final(world)@.wf(),
        final(world)@ == (WorldView { arena: (w as int, h as int), ..old(world)@ }),
{
    world.set_arena_size(w, h);
}

/// The components of a rendered node: its position and footprint if given,
/// its velocity (at rest if none is given), a charge of `NODE_CHARGE`, and
/// the renderer's name for it.
pub open spec fn node_bundle(args: EntityArgs, dom_id: String) -> ComponentBundle {
    ComponentBundle {
        pos: args.pos,
        vel: args.vel,
        charge: Some(Repel { charge: NODE_CHARGE }),
        collider: args.colds,
        mouse: None,
        dom: Some(DomElement { id: dom_id }),
    }
}

/// Creates a rendered node, known to the renderer as `dom_id`.
pub fn spawn_entity(world: &mut World, args: EntityArgs, dom_id: String) -> (e: Entity)
    requires
        old(world)@.wf(),
        old(world)@.next_id < u64::MAX,
        args.pos matches Some(p) ==> p.wf(),
        args.vel matches Some(v) ==> v.wf(),
        args.colds matches Some(c) ==> c.wf(),
    ensures
        final(world)@.wf(),
        e.id == old(world)@.next_id,
        final(world)@ == with_spawned(old(world)@, node_bundle(args, dom_id)),
{
    let bundle = ComponentBundle {
        pos: args.pos,
        vel: args.vel,
        charge: Some(Repel { charge: NODE_CHARGE }),
        collider: args.colds,
        mouse: None,
        dom: Some(DomElement { id: dom_id }),
    };
    world.spawn(bundle)
}

} // verus!
