//! The kinematics of elements: gravity and buoyancy, thresholds, damping,
//! and the sideways scatter of solids, put together with the grid rules of
//! the parent module into the vertical and the sideways steps.
//!
//! Single-precision arithmetic goes through the encodings of `crate::single`:
//! each sum, product or rounding is a named result, and everything decided
//! from those results (comparisons, clamps, sign flips) is stated exactly.
use vstd::prelude::*;

use crate::events::{took_maybe, Event, EventSink};
use crate::physics::{
    abs_int, ballistic_path, can_keep_moving, keeps_moving, lemma_slope_lands, lemma_trace_lands, slope_path, trace, trace_spec,
    unit_of, with_velocity_y, xorshift, Dir, MatterTable, Rng, Step,
};
use crate::single;
use crate::view::{law_report_wakes_only_side_neighbours, lemma_same_places_consistent, tdiv, World, WorldModel, EMPTY};

verus! {

/// `0.06 * 60 * 60`: gravity, in cells per second squared.
pub const GRAVITY: u32 = 0x4358_0000;

/// `60 * -0.36`: the upflow of gases; negative, they go up.
pub const UPFLOW: u32 = 0xc1ac_cccd;

/// What to do with the vertical speed on a hit (`onBlocked`).
#[derive(Clone, Copy, Debug)]
pub enum Blocked {
    /// Nothing: a liquid only splashes, a gas does not even that.
    Silent,
    /// Hand a part of the vertical speed to the side: this is how a solid
    /// starts to spread after a fall. `divisor` is how much smaller the part
    /// is, `spread` a random factor between two bounds.
    Spread { divisor: u32, spread: Option<(u32, u32)> },
}

/// The configuration of vertical movement of a state of matter.
#[derive(Clone, Copy, Debug)]
pub struct Fall {
    pub dir: Dir,
    pub gravity_factor: u32,
    pub max_velocity_y: Option<u32>,
    pub always_allow_diagonal: bool,
    pub blocked: Blocked,
}

/// Encoding of `10.0`.
pub const TEN: u32 = 0x4120_0000;

/// Encoding of `5.0`.
pub const FIVE: u32 = 0x40a0_0000;

/// Encoding of `0.8`.
pub const EIGHT_TENTHS: u32 = 0x3f4c_cccd;

/// Encoding of `1.2`.
pub const TWELVE_TENTHS: u32 = 0x3f99_999a;

/// Encoding of `240.0`: the vertical speed limit of liquids.
pub const TWO_HUNDRED_FORTY: u32 = 0x4370_0000;

pub open spec fn solid_fall_spec() -> Fall {
    Fall {
        dir: Dir::Down,
        gravity_factor: single::ONE,
        max_velocity_y: None,
        always_allow_diagonal: false,
        blocked: Blocked::Spread { divisor: TEN, spread: None },
    }
}

pub open spec fn liquid_fall_spec() -> Fall {
    Fall {
        dir: Dir::Down,
        gravity_factor: single::ONE,
        max_velocity_y: Some(TWO_HUNDRED_FORTY),
        always_allow_diagonal: true,
        blocked: Blocked::Silent,
    }
}

pub open spec fn slushy_fall_spec() -> Fall {
    Fall {
        dir: Dir::Down,
        gravity_factor: single::ONE,
        max_velocity_y: None,
        always_allow_diagonal: false,
        blocked: Blocked::Spread { divisor: FIVE, spread: Some((EIGHT_TENTHS, TWELVE_TENTHS)) },
    }
}

pub open spec fn gas_fall_spec() -> Fall {
    Fall {
        dir: Dir::Up,
        gravity_factor: single::ONE,
        max_velocity_y: None,
        always_allow_diagonal: true,
        blocked: Blocked::Silent,
    }
}

/// Sand, gold, seeds: a hit hands a tenth of the speed to the side.
pub fn solid_fall() -> (f: Fall)
    ensures
        f == solid_fall_spec(),
{
    Fall {
        dir: Dir::Down,
        gravity_factor: single::ONE,
        max_velocity_y: None,
        always_allow_diagonal: false,
        blocked: Blocked::Spread { divisor: TEN, spread: None },
    }
}

/// Liquids slide diagonally always: otherwise they would stand on top of a
/// slope as a column instead of running down it.
pub fn liquid_fall() -> (f: Fall)
    ensures
        f == liquid_fall_spec(),
{
    Fall {
        dir: Dir::Down,
        gravity_factor: single::ONE,
        max_velocity_y: Some(TWO_HUNDRED_FORTY),
        always_allow_diagonal: true,
        blocked: Blocked::Silent,
    }
}

/// Wet sand and residue: a fifth of the speed, scattered between 0.8 and
/// 1.2 of it.
pub fn slushy_fall() -> (f: Fall)
    ensures
        f == slushy_fall_spec(),
{
    Fall {
        dir: Dir::Down,
        gravity_factor: single::ONE,
        max_velocity_y: None,
        always_allow_diagonal: false,
        blocked: Blocked::Spread { divisor: FIVE, spread: Some((EIGHT_TENTHS, TWELVE_TENTHS)) },
    }
}

/// Gases rise and slide diagonally always.
pub fn gas_fall() -> (f: Fall)
    ensures
        f == gas_fall_spec(),
{
    Fall {
        dir: Dir::Up,
        gravity_factor: single::ONE,
        max_velocity_y: None,
        always_allow_diagonal: true,
        blocked: Blocked::Silent,
    }
}

pub open spec fn set_vx(w: WorldModel, slot: int, v: u32) -> WorldModel {
    WorldModel {
        elements: crate::view::ElementsModel {
            velocity_x: w.elements.velocity_x.update(slot, v),
            ..w.elements
        },
        ..w
    }
}

pub open spec fn set_tx(w: WorldModel, slot: int, v: u32) -> WorldModel {
    WorldModel {
        elements: crate::view::ElementsModel {
            threshold_x: w.elements.threshold_x.update(slot, v),
            ..w.elements
        },
        ..w
    }
}

pub open spec fn set_ty(w: WorldModel, slot: int, v: u32) -> WorldModel {
    WorldModel {
        elements: crate::view::ElementsModel {
            threshold_y: w.elements.threshold_y.update(slot, v),
            ..w.elements
        },
        ..w
    }
}

pub open spec fn set_falling(w: WorldModel, slot: int, v: u8) -> WorldModel {
    WorldModel {
        elements: crate::view::ElementsModel {
            is_free_falling: w.elements.is_free_falling.update(slot, v),
            ..w.elements
        },
        ..w
    }
}

/// `X` of the game: a hit hands a part of the vertical speed to the side,
/// in the direction the element was already going (a random one if it was
/// not going sideways). Only for an element that was falling freely. The
/// result is the world and the state of the generator.
pub open spec fn on_blocked_spec(w: WorldModel, rng: u32, slot: int, blocked: Blocked) -> (WorldModel, u32) {
    match blocked {
        Blocked::Silent => (w, rng),
        Blocked::Spread { divisor, spread } => {
            if w.elements.is_free_falling[slot] != 1 {
                (w, rng)
            } else {
                let e0 = single::quotient(single::abs(w.elements.velocity_y[slot]), divisor);
                let e = match spread {
                    Some((lo, hi)) => single::product(
                        e0,
                        single::sum(lo, single::product(unit_of(rng), single::difference(hi, lo))),
                    ),
                    None => e0,
                };
                let r1 = match spread {
                    Some(_) => xorshift(rng),
                    None => rng,
                };
                let vx = w.elements.velocity_x[slot];
                let vx1 = if single::eq(vx, single::ZERO) {
                    if single::ge(unit_of(r1), single::HALF) {
                        single::ONE
                    } else {
                        single::MINUS_ONE
                    }
                } else {
                    vx
                };
                let r2 = if single::eq(vx, single::ZERO) {
                    xorshift(r1)
                } else {
                    r1
                };
                (set_vx(w, slot, if single::lt(vx1, single::ZERO) { single::neg(e) } else { e }), r2)
            }
        },
    }
}

/// `X` of the game (export `hO`): all sideways movement of solids comes
/// from here.
pub fn on_blocked(world: &mut World, rng: &mut Rng, slot: usize, blocked: Blocked)
    requires
        old(world)@.wf(),
        slot < old(world)@.elements.len(),
    ensures
        final(world)@.elements.duration_left == old(world)@.elements.duration_left,
        (final(world)@, final(rng).state()) == on_blocked_spec(old(world)@, old(rng).state(), slot as int, blocked),
{
    let (divisor, spread) = match blocked {
        Blocked::Silent => {
            return;
        },
        Blocked::Spread { divisor, spread } => (divisor, spread),
    };
    if world.elements.is_free_falling[slot] != 1 {
        return;
    }
    let mut e = single::over(single::absolute(world.elements.velocity_y[slot]), divisor);
    if let Some((lo, hi)) = spread {
        let u = rng.unit();
        e = single::times(e, single::plus(lo, single::times(u, single::minus(hi, lo))));
    }
    if single::is_zero(world.elements.velocity_x[slot]) {
        let u = rng.unit();
        world.elements.velocity_x.set(
            slot,
            if single::greater_or_equal(u, single::HALF) {
                single::ONE
            } else {
                single::MINUS_ONE
            },
        );
    }
    let vx = world.elements.velocity_x[slot];
    world.elements.velocity_x.set(
        slot,
        if single::is_negative(vx) {
            single::negate(e)
        } else {
            e
        },
    );
}

/// The vertical speed after a frame of acceleration along the direction of
/// fall, held at the limit of the configuration if it has one.
pub open spec fn accelerated(w: WorldModel, slot: int, dt: u32, fall: Fall) -> u32 {
    let base = if fall.dir == Dir::Up {
        UPFLOW
    } else {
        GRAVITY
    };
    let accel = single::product(base, fall.gravity_factor);
    let vy = single::sum(w.elements.velocity_y[slot], single::product(accel, dt));
    match fall.max_velocity_y {
        Some(max) => if fall.dir == Dir::Up {
            if single::lt(vy, single::neg(max)) {
                single::neg(max)
            } else {
                vy
            }
        } else {
            if single::gt(vy, max) {
                max
            } else {
                vy
            }
        },
        None => vy,
    }
}

/// After a blocked fall: the vertical speed is held to the element's own
/// minimum, a body still faster than 60 cells a second keeps its chunk
/// awake, and the element is no longer falling freely.
pub open spec fn landed(w: WorldModel, slot: int, x: int, y: int, dir: Dir) -> WorldModel {
    let vy = w.elements.velocity_y[slot];
    let min = w.elements.min_velocity_y[slot];
    let up = dir == Dir::Up;
    let vy1 = if up {
        if single::gt(vy, min) {
            min
        } else {
            vy
        }
    } else {
        if single::lt(vy, min) {
            min
        } else {
            vy
        }
    };
    let w1 = with_velocity_y(w, slot, vy1);
    let fast = if up {
        single::lt(vy1, single::MINUS_SIXTY)
    } else {
        single::gt(vy1, single::SIXTY)
    };
    let w2 = if fast {
        w1.report(x, y)
    } else {
        w1
    };
    set_falling(w2, slot, 0)
}

/// Everything a vertical step comes to.
pub struct Fell {
    pub world: WorldModel,
    pub rng: u32,
    pub end: Step,
    pub event: Option<Event>,
}

/// `D` of the game: accelerate, add the speed to the vertical threshold,
/// and once a whole cell is reached, trace the fall over the whole cells and
/// keep the fraction. Short of a whole cell, the element stays, and its
/// chunk stays awake while it is falling or has somewhere to go. A blocked
/// fall hands speed to the side and lands the element; an unblocked one
/// makes it fall freely.
#[verifier::opaque]
pub open spec fn vertical_spec(
    w: WorldModel,
    table: MatterTable,
    rng: u32,
    slot: int,
    kind: u8,
    x: int,
    y: int,
    dt: u32,
    fall: Fall,
) -> Fell {
    let up = fall.dir == Dir::Up;
    let vy = accelerated(w, slot, dt, fall);
    let ty = single::sum(w.elements.threshold_y[slot], single::product(vy, dt));
    let w1 = set_ty(with_velocity_y(w, slot, vy), slot, ty);
    let reached = if up {
        single::le(ty, single::MINUS_ONE)
    } else {
        single::ge(ty, single::ONE)
    };
    if !reached {
        let falling = w1.elements.is_free_falling[slot];
        if falling == 1 || keeps_moving(w1, slot, x, y, fall.dir, fall.always_allow_diagonal) {
            let w2 = if falling == 0 {
                set_falling(w1, slot, 1)
            } else {
                w1
            };
            Fell { world: w2.report(x, y), rng, end: Step::Stay, event: None }
        } else {
            Fell { world: w1, rng, end: Step::Stay, event: None }
        }
    } else {
        let whole = if up {
            single::ceil_of(ty)
        } else {
            single::floor_of(ty)
        };
        let delta = single::int_of(whole);
        let w2 = set_ty(w1, slot, single::fmod_of(ty, single::ONE));
        let t = trace_spec(
            w2,
            table,
            slot,
            kind,
            x,
            y,
            abs_int(delta as int),
            x,
            y,
            fall.dir,
            fall.always_allow_diagonal,
            single::product(vy, single::NINE_TENTHS),
        );
        if t.end == Step::Consumed {
            Fell { world: t.world, rng, end: Step::Consumed, event: t.event }
        } else if t.blocked {
            let (w3, r3) = on_blocked_spec(t.world, rng, slot, fall.blocked);
            Fell { world: landed(w3, slot, x, y, fall.dir), rng: r3, end: t.end, event: None }
        } else {
            let w3 = if t.world.elements.is_free_falling[slot] == 0 {
                set_falling(t.world, slot, 1)
            } else {
                t.world
            };
            Fell { world: w3, rng, end: t.end, event: None }
        }
    }
}

/// An element that does not reach a whole cell in this frame but is falling,
/// or has somewhere to go, keeps its chunk awake for the next frame:
/// otherwise a grain would gather speed in a sleeping chunk, and the world
/// would move in jerks.
pub proof fn law_falling_element_wakes_its_chunk(
    w: WorldModel,
    table: MatterTable,
    rng: u32,
    slot: int,
    kind: u8,
    x: int,
    y: int,
    dt: u32,
    fall: Fall,
)
    requires
        w.chunk_size > 0,
        0 <= slot < w.elements.len(),
        w.elements.wf(),
        w.chunk_in_range(tdiv(x, w.chunk_size as int), tdiv(y, w.chunk_size as int)),
        w.chunk_slot(tdiv(x, w.chunk_size as int), tdiv(y, w.chunk_size as int)) < w.chunk_dirty_next.len(),
        ({
            let vy = accelerated(w, slot, dt, fall);
            let ty = single::sum(w.elements.threshold_y[slot], single::product(vy, dt));
            let w1 = set_ty(with_velocity_y(w, slot, vy), slot, ty);
            &&& !(if fall.dir == Dir::Up {
                single::le(ty, single::MINUS_ONE)
            } else {
                single::ge(ty, single::ONE)
            })
            &&& w.elements.is_free_falling[slot] == 1 || keeps_moving(w1, slot, x, y, fall.dir, fall.always_allow_diagonal)
        }),
    ensures
        ({
            let f = vertical_spec(w, table, rng, slot, kind, x, y, dt, fall);
            let cs = w.chunk_size as int;
            &&& f.end == Step::Stay
            &&& f.world.chunk_dirty_next[w.chunk_slot(tdiv(x, cs), tdiv(y, cs))] == 1
        }),
{
    reveal(vertical_spec);
    let vy = accelerated(w, slot, dt, fall);
    let ty = single::sum(w.elements.threshold_y[slot], single::product(vy, dt));
    let w1 = set_ty(with_velocity_y(w, slot, vy), slot, ty);
    let w2 = if w1.elements.is_free_falling[slot] == 0 {
        set_falling(w1, slot, 1)
    } else {
        w1
    };
    let cs = w.chunk_size as int;
    law_report_wakes_only_side_neighbours(w2, x, y, w.chunk_slot(tdiv(x, cs), tdiv(y, cs)));
}

/// A blocked fall: speed to the side (`on_blocked`), then the landing.
fn land(world: &mut World, rng: &mut Rng, slot: usize, x: i32, y: i32, fall: &Fall)
    requires
        old(world)@.wf(),
        slot < old(world)@.elements.len(),
        i32::MIN < x < i32::MAX,
        i32::MIN < y < i32::MAX,
    ensures
        final(world)@.elements.duration_left == old(world)@.elements.duration_left,
        ({
            let (w3, r3) = on_blocked_spec(old(world)@, old(rng).state(), slot as int, fall.blocked);
            &&& final(world)@ == landed(w3, slot as int, x as int, y as int, fall.dir)
            &&& final(rng).state() == r3
        }),
        final(world)@.cells == old(world)@.cells,
        final(world)@.same_places(old(world)@),
        final(world)@.wf(),
        final(world)@.elements.len() == old(world)@.elements.len(),
        final(world)@.same_shape(old(world)@),
{
    let up = fall.dir.is_up();
    on_blocked(world, rng, slot, fall.blocked);
    let ghost w3 = world@;
    let min = world.elements.min_velocity_y[slot];
    if up {
        if single::greater(world.elements.velocity_y[slot], min) {
            world.elements.velocity_y.set(slot, min);
        }
    } else {
        if single::less(world.elements.velocity_y[slot], min) {
            world.elements.velocity_y.set(slot, min);
        }
    }
    let ghost w4 = world@;
    assert(w4 =~= with_velocity_y(w3, slot as int, w4.elements.velocity_y[slot as int]));
    let fast = if up {
        single::less(world.elements.velocity_y[slot], single::MINUS_SIXTY)
    } else {
        single::greater(world.elements.velocity_y[slot], single::SIXTY)
    };
    if fast {
        world.report_to_chunk(x, y);
    }
    proof {
        w4.lemma_report_frame(x as int, y as int);
    }
    let ghost w5 = world@;
    world.elements.is_free_falling.set(slot, 0);
    assert(world@ =~= set_falling(w5, slot as int, 0));
}

/// `D` of the game (export `hX`): acceleration and the vertical step.
pub fn vertical<S: EventSink>(
    world: &mut World,
    table: &MatterTable,
    sink: &mut S,
    rng: &mut Rng,
    slot: usize,
    kind: u8,
    x: i32,
    y: i32,
    dt: u32,
    fall: &Fall,
) -> (r: Step)
    requires
        old(world)@.wf(),
        table.wf(),
        slot < old(world)@.elements.len(),
        i32::MIN < x < i32::MAX,
        i32::MIN < y < i32::MAX,
    ensures
        final(world)@.elements.duration_left == old(world)@.elements.duration_left,
        ({
            let f = vertical_spec(old(world)@, *table, old(rng).state(), slot as int, kind, x as int, y as int, dt, *fall);
            &&& final(world)@ == f.world
            &&& r == f.end
            &&& final(rng).state() == f.rng
            &&& took_maybe(*old(sink), f.event, *final(sink))
            &&& (f.end != Step::Consumed ==> f.event is None)
        }),
        r matches Step::Moved(a, b) ==> old(world)@.in_bounds(a as int, b as int) && x - 1 <= a <= x
            + 1 && b != y && final(world)@.cell(a as int, b as int) == EMPTY,
        old(world)@.holds(slot as int, x as int, y as int) ==> {
            &&& final(world)@.consistent()
            &&& final(world)@.cells.to_multiset() == old(world)@.cells.to_multiset()
            &&& r != Step::Consumed ==> final(world)@.same_places(old(world)@)
        },
        final(world)@.wf(),
        final(world)@.elements.len() == old(world)@.elements.len(),
        final(world)@.same_shape(old(world)@),
{
    proof {
        reveal(vertical_spec);
    }
    let ghost w0 = world@;
    let up = fall.dir.is_up();
    let base = if up {
        UPFLOW
    } else {
        GRAVITY
    };
    let accel = single::times(base, fall.gravity_factor);
    let mut vy = single::plus(world.elements.velocity_y[slot], single::times(accel, dt));
    if let Some(max) = fall.max_velocity_y {
        if up {
            let limit = single::negate(max);
            if single::less(vy, limit) {
                vy = limit;
            }
        } else if single::greater(vy, max) {
            vy = max;
        }
    }
    assert(vy == accelerated(w0, slot as int, dt, *fall));
    world.elements.velocity_y.set(slot, vy);
    let ty = single::plus(world.elements.threshold_y[slot], single::times(vy, dt));
    world.elements.threshold_y.set(slot, ty);
    let ghost w1 = world@;
    assert(w1 =~= set_ty(with_velocity_y(w0, slot as int, vy), slot as int, ty));
    let reached = if up {
        single::less_or_equal(ty, single::MINUS_ONE)
    } else {
        single::greater_or_equal(ty, single::ONE)
    };
    if !reached {
        if world.elements.is_free_falling[slot] == 1 || can_keep_moving(
            world,
            slot,
            x,
            y,
            fall.dir,
            fall.always_allow_diagonal,
        ) {
            if world.elements.is_free_falling[slot] == 0 {
                world.elements.is_free_falling.set(slot, 1);
                assert(world@ =~= set_falling(w1, slot as int, 1));
            }
            world.report_to_chunk(x, y);
        }
        proof {
            if w0.holds(slot as int, x as int, y as int) {
                assert(world@.same_places(w0));
                lemma_same_places_consistent(world@, w0);
            }
        }
        return Step::Stay;
    }
    let whole = if up {
        single::ceil(ty)
    } else {
        single::floor(ty)
    };
    let delta = single::to_int(whole);
    world.elements.threshold_y.set(slot, single::fmod(ty, single::ONE));
    let ghost w2 = world@;
    assert(w2 =~= set_ty(w1, slot as int, single::fmod_of(ty, single::ONE)));
    let damped = single::times(vy, single::NINE_TENTHS);
    proof {
        lemma_trace_lands(w2, *table, slot as int, kind, x as int, y as int, abs_int(delta as int), x as int, y as int, fall.dir, fall.always_allow_diagonal, damped);
        if w0.holds(slot as int, x as int, y as int) {
            assert(w2.same_places(w0));
            lemma_same_places_consistent(w2, w0);
        }
    }
    let (outcome, blocked) = trace(
        world,
        table,
        sink,
        slot,
        kind,
        x,
        y,
        delta,
        fall.dir,
        fall.always_allow_diagonal,
        damped,
    );
    if outcome == Step::Consumed {
        return Step::Consumed;
    }
    let ghost w3 = world@;
    if blocked {
        land(world, rng, slot, x, y, fall);
    } else if world.elements.is_free_falling[slot] == 0 {
        world.elements.is_free_falling.set(slot, 1);
        assert(world@ =~= set_falling(w3, slot as int, 1));
    }
    proof {
        assert(world@.same_places(w3));
        if w0.holds(slot as int, x as int, y as int) {
            lemma_same_places_consistent(world@, w0);
        }
    }
    outcome
}

/// `N` of the game (export `Ti`): the sideways flight of a landed solid.
/// The threshold gathers the speed of the frame, and the speed fades by the
/// frame's `damping`. Below six cells a second the flight is over (grains
/// would tremble in place forever otherwise); short of a whole cell the
/// element waits with its chunk awake; else it runs the whole cells down the
/// slope and keeps the fraction. A falling element does not fly sideways.
#[verifier::opaque]
pub open spec fn ballistic_spec(w: WorldModel, slot: int, x: int, y: int, dt: u32, damping: u32) -> (WorldModel, Step) {
    if w.elements.is_free_falling[slot] != 0 {
        (w, Step::Stay)
    } else {
        let vx0 = w.elements.velocity_x[slot];
        let tx = single::sum(w.elements.threshold_x[slot], single::product(vx0, dt));
        let vx = single::product(vx0, damping);
        let w1 = set_vx(set_tx(w, slot, tx), slot, vx);
        if single::lt(vx, single::SIX) && single::gt(vx, single::MINUS_SIX) {
            (set_tx(set_vx(w1, slot, single::ZERO), slot, single::ZERO), Step::Stay)
        } else if single::lt(tx, single::ONE) && single::gt(tx, single::MINUS_ONE) {
            (w1.report(x, y), Step::Stay)
        } else {
            let whole = if single::lt(tx, single::ZERO) {
                single::ceil_of(tx)
            } else {
                single::floor_of(tx)
            };
            let steps = single::int_of(whole);
            let w2 = set_tx(w1, slot, single::fmod_of(tx, single::ONE));
            let dir = if steps < 0 {
                -1
            } else {
                1
            };
            match slope_path(w2, x, y, abs_int(steps as int), dir, None) {
                Some((lx, ly)) => (w2, Step::Moved(lx as i32, ly as i32)),
                None => (w2, Step::Stay),
            }
        }
    }
}

/// `N` of the game: the ballistic sideways step of solids and slushes.
/// `damping` is what remains of the sideways speed after this frame.
pub fn horizontal_ballistic(world: &mut World, slot: usize, x: i32, y: i32, dt: u32, damping: u32) -> (r: Step)
    requires
        old(world)@.wf(),
        slot < old(world)@.elements.len(),
        i32::MIN < x < i32::MAX,
        i32::MIN < y < i32::MAX,
    ensures
        final(world)@.elements.duration_left == old(world)@.elements.duration_left,
        (final(world)@, r) == ballistic_spec(old(world)@, slot as int, x as int, y as int, dt, damping),
        final(world)@.cells == old(world)@.cells,
        final(world)@.same_places(old(world)@),
        r matches Step::Moved(a, b) ==> final(world)@.cell(a as int, b as int) == EMPTY,
        final(world)@.wf(),
        final(world)@.same_shape(old(world)@),
        final(world)@.elements.len() == old(world)@.elements.len(),
{
    proof {
        reveal(ballistic_spec);
    }
    if world.elements.is_free_falling[slot] != 0 {
        return Step::Stay;
    }
    let ghost w0 = world@;
    let vx0 = world.elements.velocity_x[slot];
    let tx = single::plus(world.elements.threshold_x[slot], single::times(vx0, dt));
    world.elements.threshold_x.set(slot, tx);
    let vx = single::times(vx0, damping);
    world.elements.velocity_x.set(slot, vx);
    let ghost w1 = world@;
    assert(w1 =~= set_vx(set_tx(w0, slot as int, tx), slot as int, vx));
    if single::less(vx, single::SIX) && single::greater(vx, single::MINUS_SIX) {
        world.elements.velocity_x.set(slot, single::ZERO);
        world.elements.threshold_x.set(slot, single::ZERO);
        assert(world@ =~= set_tx(set_vx(w1, slot as int, single::ZERO), slot as int, single::ZERO));
        return Step::Stay;
    }
    if single::less(tx, single::ONE) && single::greater(tx, single::MINUS_ONE) {
        world.report_to_chunk(x, y);
        proof {
            w1.lemma_report_frame(x as int, y as int);
        }
        return Step::Stay;
    }
    let whole = if single::is_negative(tx) {
        single::ceil(tx)
    } else {
        single::floor(tx)
    };
    let steps = single::to_int(whole);
    world.elements.threshold_x.set(slot, single::fmod(tx, single::ONE));
    assert(world@ =~= set_tx(w1, slot as int, single::fmod_of(tx, single::ONE)));
    proof {
        lemma_slope_lands(world@, x as int, y as int, abs_int(steps as int), if steps < 0 { -1 } else { 1 }, None);
    }
    match ballistic_path(world, x, y, steps) {
        Some((lx, ly)) => Step::Moved(lx, ly),
        None => Step::Stay,
    }
}

} // verus!
