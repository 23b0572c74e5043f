//! The drivers: one cell with an element, by its state of matter, and a
//! rectangle of cells swept row by row.
//!
//! The per-cell rules decide, in this order: an element taken by a machine
//! is left alone; a running timer ticks down and an expired one goes to the
//! game; inert matter stands, unknown matter goes to the game; an element
//! packed among its own kind only gathers speed; the rest falls, and then
//! flies, walks or stays by its matter.
use vstd::prelude::*;

use crate::events::{
    lemma_took_none, lemma_took_one_more, took_all, took_maybe, Event, EventSink, Why,
};
use crate::physics::motion::{
    ballistic_spec, gas_fall, gas_fall_spec, horizontal_ballistic, liquid_fall, liquid_fall_spec,
    set_falling, set_tx, set_ty, slushy_fall, slushy_fall_spec, solid_fall, solid_fall_spec,
    vertical, vertical_spec, Fall, GRAVITY, UPFLOW,
};
use crate::physics::{
    can_process, commit, gas_walk, horizontal_walk, is_packed, liquid_walk, packed, processable,
    walk_spec, with_velocity_y, xorshift, Marks, Matter, MatterTable, Rng, Step, Walk,
    STAGNANT_LIMIT,
};
use crate::single;
use crate::view::{
    element_id, element_index, is_element, lemma_same_places_consistent, skip, CellId, ElementsModel, World,
    WorldModel, ELEMENT_MIN, EMPTY,
};

verus! {

/// Encoding of `1/60`: the length of a frame at sixty frames a second.
pub const SIXTIETH: u32 = 0x3c88_8889;

/// Encoding of `0.95`: what the sideways speed of a slush keeps over a
/// sixtieth of a second.
pub const NINETEEN_TWENTIETHS: u32 = 0x3f73_3333;

/// The clock of one frame: its length in seconds, and what the sideways
/// speed of solids and of slushes keeps over it (`0.9` and `0.95` raised to
/// the frame's length in sixtieths of a second).
#[derive(Clone, Copy, Debug)]
pub struct Frame {
    pub dt: u32,
    pub solid_damping: u32,
    pub slushy_damping: u32,
}

impl Frame {
    /// A frame of a sixtieth of a second, the game's own.
    pub fn sixtieth() -> (f: Frame)
        ensures
            f.dt == SIXTIETH,
            f.solid_damping == single::NINE_TENTHS,
            f.slushy_damping == NINETEEN_TWENTIETHS,
    {
        Frame { dt: SIXTIETH, solid_damping: single::NINE_TENTHS, slushy_damping: NINETEEN_TWENTIETHS }
    }
}

/// Everything the simulation of one cell comes to: the world, the state of
/// the generator, whether the element moved, and the event for the game.
pub struct Updated {
    pub world: WorldModel,
    pub rng: u32,
    pub moved: bool,
    pub event: Option<Event>,
}

/// The event that hands the cell `(x, y)` back to the game.
pub open spec fn needs_js(x: int, y: int, why: Why) -> Event {
    Event::NeedsJs { x: x as i32, y: y as i32, why }
}

/// Where a step leaves the element: the cell it moved to, else where it was.
pub open spec fn reached(end: Step, x: int, y: int) -> (int, int) {
    match end {
        Step::Moved(a, b) => (a as int, b as int),
        _ => (x, y),
    }
}

/// The common tail of all matters: an element that ended elsewhere is
/// carried there and marked as simulated.
pub open spec fn settle(w: WorldModel, rng: u32, slot: int, x: int, y: int, to: (int, int), event: Option<Event>) -> Updated {
    if to == (x, y) {
        Updated { world: w, rng, moved: false, event }
    } else {
        Updated {
            world: w.move_element(slot, x, y, to.0, to.1).mark_updated(slot),
            rng,
            moved: true,
            event,
        }
    }
}

/// The element of `slot`, which stood in `(x, y)` before, is no longer there:
/// an exchange by density took it elsewhere.
pub open spec fn left_cell(before: WorldModel, after: WorldModel, slot: int, x: int, y: int) -> bool {
    before.cell(x, y) == ELEMENT_MIN + slot && after.cell(x, y) != ELEMENT_MIN + slot
}

/// A turn that a collision ended: an element that an exchange took out of
/// its cell has moved, and is marked as simulated, so that it is not
/// simulated again where it landed; after a reaction it stays.
pub open spec fn ended(before: WorldModel, after: WorldModel, rng: u32, slot: int, x: int, y: int, event: Option<Event>) -> Updated {
    if left_cell(before, after, slot, x, y) {
        Updated { world: after.mark_updated(slot), rng, moved: true, event }
    } else {
        Updated { world: after, rng, moved: false, event }
    }
}

/// Where the element of `slot` stood in its own cell `(x, y)` of a consistent
/// world whose cells all have coordinates that the position fields hold, a
/// turn keeps the world consistent and the multiset of identifiers in the
/// grid (elements change places, they are never created, copied or lost),
/// and it reports a move exactly when the element left its cell.
pub open spec fn keeps_consistent(before: WorldModel, after: WorldModel, slot: int, x: int, y: int, moved: bool) -> bool {
    before.holds(slot, x, y) && before.positions_fit() ==> {
        &&& after.consistent()
        &&& after.cells.to_multiset() == before.cells.to_multiset()
        &&& moved == (after.cell(x, y) != before.cell(x, y))
    }
}

/// A turn that only changed fields other than the grid and the positions
/// passes on what a later turn keeps.
proof fn lemma_keeps_after_places(a: WorldModel, b: WorldModel, c: WorldModel, slot: int, x: int, y: int, moved: bool)
    requires
        b.same_places(a),
        keeps_consistent(b, c, slot, x, y, moved),
    ensures
        keeps_consistent(a, c, slot, x, y, moved),
{
    lemma_same_places_consistent(b, a);
}

/// The fall of a solid: with the type's own speed limit, where it has one.
pub open spec fn solid_fall_of(table: MatterTable, kind: u8) -> Fall {
    let personal = table.max_velocity_y_of(kind);
    Fall {
        max_velocity_y: if single::gt(personal, single::ZERO) {
            Some(personal)
        } else {
            None
        },
        ..solid_fall_spec()
    }
}

/// Solids and slushes: fall, then fly sideways once landed.
pub open spec fn granular_spec(
    w: WorldModel,
    table: MatterTable,
    rng: u32,
    slot: int,
    kind: u8,
    x: int,
    y: int,
    dt: u32,
    fall: Fall,
    damping: u32,
) -> Updated {
    if !processable(w, slot, x, y) {
        Updated { world: w, rng, moved: false, event: None }
    } else {
        let f = vertical_spec(w, table, rng, slot, kind, x, y, dt, fall);
        if f.end == Step::Consumed {
            ended(w, f.world, f.rng, slot, x, y, f.event)
        } else {
            let p = reached(f.end, x, y);
            let (w2, s2) = ballistic_spec(f.world, slot, p.0, p.1, dt, damping);
            if s2 == Step::Consumed {
                Updated { world: w2, rng: f.rng, moved: false, event: None }
            } else {
                settle(w2, f.rng, slot, x, y, reached(s2, p.0, p.1), None)
            }
        }
    }
}

/// The sideways walk of a liquid or gas that stands at `p` after its fall,
/// and the tail of its turn.
pub open spec fn stroll(
    w: WorldModel,
    table: MatterTable,
    rng: u32,
    slot: int,
    kind: u8,
    x: int,
    y: int,
    p: (int, int),
    walk: Walk,
) -> Updated {
    let t = walk_spec(w, table, rng, slot, kind, x, y, p.0, p.1, walk);
    let r1 = if w.elements.is_free_falling[slot] != 0 {
        rng
    } else {
        xorshift(rng)
    };
    if t.end == Step::Consumed {
        ended(w, t.world, r1, slot, x, y, t.event)
    } else {
        settle(t.world, r1, slot, x, y, reached(t.end, p.0, p.1), t.event)
    }
}

/// Slow liquids (lava) walk only once their sideways threshold fills by the
/// type's `horizontalSpeed` a frame; until then they wait with the chunk
/// awake. The result is the world and whether the liquid may walk.
pub open spec fn paced(w: WorldModel, table: MatterTable, slot: int, kind: u8, x: int, y: int) -> (WorldModel, bool) {
    let speed = table.horizontal_speed_of(kind);
    if single::lt(speed, single::ONE) && w.elements.is_free_falling[slot] == 0 {
        let tx = single::sum(w.elements.threshold_x[slot], speed);
        let w1 = set_tx(w, slot, tx);
        if single::lt(tx, single::ONE) {
            (w1.report(x, y), false)
        } else {
            (set_tx(w1, slot, single::difference(tx, single::ONE)), true)
        }
    } else {
        (w, true)
    }
}

/// The walk of a liquid: swaps by density.
pub open spec fn liquid_walk_spec() -> Walk {
    Walk { swap_by_density: true, swap_matter: None }
}

/// The walk of a gas: dives through liquids.
pub open spec fn gas_walk_spec() -> Walk {
    Walk { swap_by_density: false, swap_matter: Some(Matter::Liquid) }
}

/// Liquids: a stagnant one goes to the game (evaporation is economy);
/// else fall, then walk sideways at the type's pace.
pub open spec fn liquid_spec(
    w: WorldModel,
    table: MatterTable,
    rng: u32,
    slot: int,
    kind: u8,
    x: int,
    y: int,
    dt: u32,
) -> Updated {
    if !processable(w, slot, x, y) {
        Updated { world: w, rng, moved: false, event: None }
    } else if w.elements.moves_y_axis_count[slot] > STAGNANT_LIMIT {
        Updated { world: w, rng, moved: false, event: Some(needs_js(x, y, Why::Stagnant)) }
    } else {
        let f = vertical_spec(w, table, rng, slot, kind, x, y, dt, liquid_fall_spec());
        if f.end == Step::Consumed {
            ended(w, f.world, f.rng, slot, x, y, f.event)
        } else {
            let p = reached(f.end, x, y);
            let (w2, may_walk) = paced(f.world, table, slot, kind, p.0, p.1);
            if may_walk {
                stroll(w2, table, f.rng, slot, kind, x, y, p, liquid_walk_spec())
            } else {
                settle(w2, f.rng, slot, x, y, p, None)
            }
        }
    }
}

/// Gases: a stagnant one goes to the game; else rise, then walk sideways.
pub open spec fn gas_spec(
    w: WorldModel,
    table: MatterTable,
    rng: u32,
    slot: int,
    kind: u8,
    x: int,
    y: int,
    dt: u32,
) -> Updated {
    if !processable(w, slot, x, y) {
        Updated { world: w, rng, moved: false, event: None }
    } else if w.elements.moves_y_axis_count[slot] > STAGNANT_LIMIT {
        Updated { world: w, rng, moved: false, event: Some(needs_js(x, y, Why::Stagnant)) }
    } else {
        let f = vertical_spec(w, table, rng, slot, kind, x, y, dt, gas_fall_spec());
        if f.end == Step::Consumed {
            ended(w, f.world, f.rng, slot, x, y, f.event)
        } else {
            stroll(f.world, table, f.rng, slot, kind, x, y, reached(f.end, x, y), gas_walk_spec())
        }
    }
}

/// An element packed among its own kind, once per frame and in an awake
/// chunk, only gathers speed: it stops falling freely, accelerates, and
/// when its threshold passes a whole cell, keeps the fraction and loses a
/// tenth of its speed, never below its own minimum.
pub open spec fn gathered(w: WorldModel, slot: int, x: int, y: int, gas: bool, dt: u32) -> WorldModel {
    if w.elements.has_been_updated[slot] == 1 || !w.cell_chunk_active(x, y) {
        w
    } else {
        let accel = if gas {
            UPFLOW
        } else {
            GRAVITY
        };
        let vy = single::sum(w.elements.velocity_y[slot], single::product(accel, dt));
        let ty = single::sum(w.elements.threshold_y[slot], single::product(vy, dt));
        let w1 = set_ty(with_velocity_y(set_falling(w, slot, 0), slot, vy), slot, ty);
        if single::ge(ty, single::ONE) || single::le(ty, single::MINUS_ONE) {
            let vy2 = single::product(vy, single::NINE_TENTHS);
            let min = w.elements.min_velocity_y[slot];
            let past = if gas {
                single::gt(vy2, min)
            } else {
                single::lt(vy2, min)
            };
            set_ty(
                with_velocity_y(
                    w1,
                    slot,
                    if past {
                        min
                    } else {
                        vy2
                    },
                ),
                slot,
                single::fmod_of(ty, single::ONE),
            )
        } else {
            w1
        }
    }
}

/// The world with the timer of a slot replaced.
pub open spec fn with_duration_left(w: WorldModel, slot: int, v: u32) -> WorldModel {
    WorldModel {
        elements: ElementsModel { duration_left: w.elements.duration_left.update(slot, v), ..w.elements },
        ..w
    }
}

/// One cell with an element, by its state of matter (`ce` of the game).
pub open spec fn cell_spec(
    w: WorldModel,
    table: MatterTable,
    rng: u32,
    slot: int,
    x: int,
    y: int,
    frame: Frame,
) -> Updated {
    let e = w.elements;
    let kind = e.kind[slot];
    if e.skip_physics[slot] >= skip::AGGRESSIVE {
        Updated { world: w, rng, moved: false, event: None }
    } else {
        let ticking = e.has_duration[slot] == 1;
        let left = single::difference(e.duration_left[slot], frame.dt);
        let w1 = if ticking {
            let t = with_duration_left(w, slot, left);
            if single::gt(left, single::ZERO) {
                t.report(x, y)
            } else {
                t
            }
        } else {
            w
        };
        let still = Updated { world: w1, rng, moved: false, event: None };
        if ticking && !single::gt(left, single::ZERO) {
            Updated { world: w1, rng, moved: false, event: Some(needs_js(x, y, Why::Duration)) }
        } else {
            let matter = table.matter_of(kind);
            if matter == Matter::Inert {
                still
            } else if matter == Matter::Other {
                Updated { world: w1, rng, moved: false, event: Some(needs_js(x, y, Why::UnknownMatter)) }
            } else if e.skip_physics[slot] >= skip::SKIP {
                still
            } else if packed(
                w1,
                x,
                y,
                if matter == Matter::Gas {
                    -1
                } else {
                    1
                },
                kind,
            ) {
                Updated { world: gathered(w1, slot, x, y, matter == Matter::Gas, frame.dt), rng, moved: false, event: None }
            } else if matter == Matter::Solid {
                granular_spec(w1, table, rng, slot, kind, x, y, frame.dt, solid_fall_of(table, kind), frame.solid_damping)
            } else if matter == Matter::Slushy {
                granular_spec(w1, table, rng, slot, kind, x, y, frame.dt, slushy_fall_spec(), frame.slushy_damping)
            } else if matter == Matter::Liquid {
                liquid_spec(w1, table, rng, slot, kind, x, y, frame.dt)
            } else {
                gas_spec(w1, table, rng, slot, kind, x, y, frame.dt)
            }
        }
    }
}

/// The end of a turn that a collision consumed: if the exchange took the
/// element out of `(x, y)`, which held `here` before, mark it as simulated.
/// Returns whether it moved.
fn end_turn(world: &mut World, marks: &mut Marks, slot: usize, x: i32, y: i32, here: CellId) -> (r: bool)
    requires
        old(world)@.wf(),
        slot < old(world)@.elements.len(),
    ensures
        final(world)@.elements.duration_left == old(world)@.elements.duration_left,
        r == (here == ELEMENT_MIN + slot && old(world)@.cell(x as int, y as int) != ELEMENT_MIN + slot),
        final(world)@ == if r {
            old(world)@.mark_updated(slot as int)
        } else {
            old(world)@
        },
        final(marks).listed() == if r {
            old(marks).listed().push(slot as u32)
        } else {
            old(marks).listed()
        },
        final(world)@.wf(),
        final(world)@.elements.len() == old(world)@.elements.len(),
        final(world)@.same_shape(old(world)@),
        final(world)@.same_places(old(world)@),
        r ==> final(world)@.elements.has_been_updated[slot as int] == 1,
{
    let now = world.cell(x, y);
    if here >= ELEMENT_MIN && (here - ELEMENT_MIN) as usize == slot && now != here {
        marks.mark(world, slot);
        true
    } else {
        false
    }
}

/// Solids and slushes: fall, then fly sideways.
fn update_granular<S: EventSink>(
    world: &mut World,
    table: &MatterTable,
    sink: &mut S,
    rng: &mut Rng,
    marks: &mut Marks,
    slot: usize,
    kind: u8,
    x: i32,
    y: i32,
    dt: u32,
    fall: &Fall,
    damping: u32,
) -> (r: bool)
    requires
        old(world)@.wf(),
        table.wf(),
        slot < old(world)@.elements.len(),
        old(world)@.chunk_should_update.len() > 0 ==> old(world)@.chunk_size != 0,
        i32::MIN + 2 < x < i32::MAX - 2,
        i32::MIN + 2 < y < i32::MAX - 2,
    ensures
        final(world)@.elements.duration_left == old(world)@.elements.duration_left,
        ({
            let u = granular_spec(old(world)@, *table, old(rng).state(), slot as int, kind, x as int, y as int, dt, *fall, damping);
            &&& final(world)@ == u.world
            &&& final(rng).state() == u.rng
            &&& r == u.moved
            &&& took_maybe(*old(sink), u.event, *final(sink))
            &&& final(marks).listed() == if u.moved {
                old(marks).listed().push(slot as u32)
            } else {
                old(marks).listed()
            }
        }),
        keeps_consistent(old(world)@, final(world)@, slot as int, x as int, y as int, r),
        final(world)@.wf(),
        final(world)@.elements.len() == old(world)@.elements.len(),
        final(world)@.same_shape(old(world)@),
        r ==> final(world)@.elements.has_been_updated[slot as int] == 1,
{
    if !can_process(world, slot, x, y) {
        return false;
    }
    let here = world.cell(x, y);
    let ghost w0 = world@;
    let mut px = x;
    let mut py = y;
    match vertical(world, table, sink, rng, slot, kind, x, y, dt, fall) {
        Step::Consumed => {
            let ghost wv = world@;
            let r = end_turn(world, marks, slot, x, y, here);
            proof {
                lemma_same_places_consistent(world@, wv);
            }
            return r;
        },
        Step::Moved(nx, ny) => {
            px = nx;
            py = ny;
        },
        Step::Stay => {},
    }
    match horizontal_ballistic(world, slot, px, py, dt, damping) {
        Step::Consumed => {
            proof {
                if w0.holds(slot as int, x as int, y as int) {
                    if w0.holds(slot as int, x as int, y as int) {
            lemma_same_places_consistent(world@, w0);
        }
                }
            }
            return false;
        },
        Step::Moved(nx, ny) => {
            px = nx;
            py = ny;
        },
        Step::Stay => {},
    }
    proof {
        if w0.holds(slot as int, x as int, y as int) {
            lemma_same_places_consistent(world@, w0);
        }
    }
    commit(world, marks, slot, (x, y), (px, py))
}

/// Sand, gold, seeds (`disableHorizontalMovement_96509.js` → `y`): a type
/// with its own speed limit falls no faster than that.
fn update_solid<S: EventSink>(
    world: &mut World,
    table: &MatterTable,
    sink: &mut S,
    rng: &mut Rng,
    marks: &mut Marks,
    slot: usize,
    kind: u8,
    x: i32,
    y: i32,
    dt: u32,
    damping: u32,
) -> (r: bool)
    requires
        old(world)@.wf(),
        table.wf(),
        slot < old(world)@.elements.len(),
        old(world)@.chunk_should_update.len() > 0 ==> old(world)@.chunk_size != 0,
        i32::MIN + 2 < x < i32::MAX - 2,
        i32::MIN + 2 < y < i32::MAX - 2,
    ensures
        final(world)@.elements.duration_left == old(world)@.elements.duration_left,
        ({
            let u = granular_spec(old(world)@, *table, old(rng).state(), slot as int, kind, x as int, y as int, dt, solid_fall_of(*table, kind), damping);
            &&& final(world)@ == u.world
            &&& final(rng).state() == u.rng
            &&& r == u.moved
            &&& took_maybe(*old(sink), u.event, *final(sink))
            &&& final(marks).listed() == if u.moved {
                old(marks).listed().push(slot as u32)
            } else {
                old(marks).listed()
            }
        }),
        keeps_consistent(old(world)@, final(world)@, slot as int, x as int, y as int, r),
        final(world)@.wf(),
        final(world)@.elements.len() == old(world)@.elements.len(),
        final(world)@.same_shape(old(world)@),
        r ==> final(world)@.elements.has_been_updated[slot as int] == 1,
{
    let mut fall = solid_fall();
    let personal = table.max_velocity_y(kind);
    if single::greater(personal, single::ZERO) {
        fall.max_velocity_y = Some(personal);
    }
    assert(fall == solid_fall_of(*table, kind));
    update_granular(world, table, sink, rng, marks, slot, kind, x, y, dt, &fall, damping)
}

/// Wet sand and residue: a solid with a weaker, scattered bounce and a
/// slower fading of the sideways speed.
fn update_slushy<S: EventSink>(
    world: &mut World,
    table: &MatterTable,
    sink: &mut S,
    rng: &mut Rng,
    marks: &mut Marks,
    slot: usize,
    kind: u8,
    x: i32,
    y: i32,
    dt: u32,
    damping: u32,
) -> (r: bool)
    requires
        old(world)@.wf(),
        table.wf(),
        slot < old(world)@.elements.len(),
        old(world)@.chunk_should_update.len() > 0 ==> old(world)@.chunk_size != 0,
        i32::MIN + 2 < x < i32::MAX - 2,
        i32::MIN + 2 < y < i32::MAX - 2,
    ensures
        final(world)@.elements.duration_left == old(world)@.elements.duration_left,
        ({
            let u = granular_spec(old(world)@, *table, old(rng).state(), slot as int, kind, x as int, y as int, dt, slushy_fall_spec(), damping);
            &&& final(world)@ == u.world
            &&& final(rng).state() == u.rng
            &&& r == u.moved
            &&& took_maybe(*old(sink), u.event, *final(sink))
            &&& final(marks).listed() == if u.moved {
                old(marks).listed().push(slot as u32)
            } else {
                old(marks).listed()
            }
        }),
        keeps_consistent(old(world)@, final(world)@, slot as int, x as int, y as int, r),
        final(world)@.wf(),
        final(world)@.elements.len() == old(world)@.elements.len(),
        final(world)@.same_shape(old(world)@),
        r ==> final(world)@.elements.has_been_updated[slot as int] == 1,
{
    let fall = slushy_fall();
    update_granular(world, table, sink, rng, marks, slot, kind, x, y, dt, &fall, damping)
}

/// The sideways walk of a fluid that stands at `(px, py)` after its fall,
/// and the tail of its turn.
fn walk_and_settle<S: EventSink>(
    world: &mut World,
    table: &MatterTable,
    sink: &mut S,
    rng: &mut Rng,
    marks: &mut Marks,
    slot: usize,
    kind: u8,
    x: i32,
    y: i32,
    px: i32,
    py: i32,
    walk: &Walk,
) -> (r: bool)
    requires
        old(world)@.wf(),
        table.wf(),
        slot < old(world)@.elements.len(),
        i32::MIN + 1 < px < i32::MAX - 1,
        i32::MIN < py < i32::MAX,
        py == y ==> px == x,
        px != x || py != y ==> old(world)@.cell(px as int, py as int) == EMPTY,
    ensures
        final(world)@.elements.duration_left == old(world)@.elements.duration_left,
        ({
            let u = stroll(old(world)@, *table, old(rng).state(), slot as int, kind, x as int, y as int, (px as int, py as int), *walk);
            &&& final(world)@ == u.world
            &&& final(rng).state() == u.rng
            &&& r == u.moved
            &&& took_maybe(*old(sink), u.event, *final(sink))
            &&& final(marks).listed() == if u.moved {
                old(marks).listed().push(slot as u32)
            } else {
                old(marks).listed()
            }
        }),
        keeps_consistent(old(world)@, final(world)@, slot as int, x as int, y as int, r),
        final(world)@.wf(),
        final(world)@.elements.len() == old(world)@.elements.len(),
        final(world)@.same_shape(old(world)@),
        r ==> final(world)@.elements.has_been_updated[slot as int] == 1,
{
    let here = world.cell(x, y);
    let ghost w0 = world@;
    let mut qx = px;
    let mut qy = py;
    match horizontal_walk(world, table, sink, rng, slot, kind, x, y, px, py, walk) {
        Step::Consumed => {
            let ghost wv = world@;
            let r = end_turn(world, marks, slot, x, y, here);
            proof {
                lemma_same_places_consistent(world@, wv);
            }
            return r;
        },
        Step::Moved(nx, ny) => {
            qx = nx;
            qy = ny;
        },
        Step::Stay => {},
    }
    proof {
        if w0.holds(slot as int, x as int, y as int) {
            lemma_same_places_consistent(world@, w0);
        }
    }
    commit(world, marks, slot, (x, y), (qx, qy))
}

/// The pace of a slow liquid: whether it may walk sideways this frame.
fn pace(world: &mut World, table: &MatterTable, slot: usize, kind: u8, x: i32, y: i32) -> (r: bool)
    requires
        old(world)@.wf(),
        table.wf(),
        slot < old(world)@.elements.len(),
        i32::MIN < x < i32::MAX,
        i32::MIN < y < i32::MAX,
    ensures
        (final(world)@, r) == paced(old(world)@, *table, slot as int, kind, x as int, y as int),
        final(world)@.cells == old(world)@.cells,
        final(world)@.same_places(old(world)@),
        final(world)@.elements.duration_left == old(world)@.elements.duration_left,
        final(world)@.wf(),
        final(world)@.elements.len() == old(world)@.elements.len(),
        final(world)@.same_shape(old(world)@),
{
    let ghost w1 = world@;
    let speed = table.horizontal_speed(kind);
    if single::less(speed, single::ONE) && world.elements.is_free_falling[slot] == 0 {
        let tx = single::plus(world.elements.threshold_x[slot], speed);
        world.elements.threshold_x.set(slot, tx);
        assert(world@ =~= set_tx(w1, slot as int, tx));
        if single::less(tx, single::ONE) {
            let ghost w2 = world@;
            world.report_to_chunk(x, y);
            proof {
                w2.lemma_report_frame(x as int, y as int);
            }
            false
        } else {
            let ghost w2 = world@;
            world.elements.threshold_x.set(slot, single::minus(tx, single::ONE));
            assert(world@ =~= set_tx(w2, slot as int, single::difference(tx, single::ONE)));
            true
        }
    } else {
        true
    }
}

/// Liquids: a stagnant one goes back to the game, since evaporation is
/// economy; slow ones (lava) walk sideways only at their pace.
fn update_liquid<S: EventSink>(
    world: &mut World,
    table: &MatterTable,
    sink: &mut S,
    rng: &mut Rng,
    marks: &mut Marks,
    slot: usize,
    kind: u8,
    x: i32,
    y: i32,
    dt: u32,
) -> (r: bool)
    requires
        old(world)@.wf(),
        table.wf(),
        slot < old(world)@.elements.len(),
        old(world)@.chunk_should_update.len() > 0 ==> old(world)@.chunk_size != 0,
        i32::MIN + 2 < x < i32::MAX - 2,
        i32::MIN + 2 < y < i32::MAX - 2,
    ensures
        final(world)@.elements.duration_left == old(world)@.elements.duration_left,
        ({
            let u = liquid_spec(old(world)@, *table, old(rng).state(), slot as int, kind, x as int, y as int, dt);
            &&& final(world)@ == u.world
            &&& final(rng).state() == u.rng
            &&& r == u.moved
            &&& took_maybe(*old(sink), u.event, *final(sink))
            &&& final(marks).listed() == if u.moved {
                old(marks).listed().push(slot as u32)
            } else {
                old(marks).listed()
            }
        }),
        keeps_consistent(old(world)@, final(world)@, slot as int, x as int, y as int, r),
        final(world)@.wf(),
        final(world)@.elements.len() == old(world)@.elements.len(),
        final(world)@.same_shape(old(world)@),
        r ==> final(world)@.elements.has_been_updated[slot as int] == 1,
{
    if !can_process(world, slot, x, y) {
        return false;
    }
    if world.elements.moves_y_axis_count[slot] > STAGNANT_LIMIT {
        sink.push(Event::NeedsJs { x, y, why: Why::Stagnant });
        return false;
    }
    let here = world.cell(x, y);
    let fall = liquid_fall();
    let mut px = x;
    let mut py = y;
    let ghost w0 = world@;
    match vertical(world, table, sink, rng, slot, kind, x, y, dt, &fall) {
        Step::Consumed => {
            let ghost wv = world@;
            let r = end_turn(world, marks, slot, x, y, here);
            proof {
                lemma_same_places_consistent(world@, wv);
            }
            return r;
        },
        Step::Moved(nx, ny) => {
            px = nx;
            py = ny;
        },
        Step::Stay => {},
    }
    let may_walk = pace(world, table, slot, kind, px, py);
    let ghost wm = world@;
    proof {
        if w0.holds(slot as int, x as int, y as int) {
            lemma_same_places_consistent(wm, w0);
        }
    }
    if may_walk {
        let walk = liquid_walk();
        assert(walk == liquid_walk_spec());
        let r = walk_and_settle(world, table, sink, rng, marks, slot, kind, x, y, px, py, &walk);
        proof {
            if w0.holds(slot as int, x as int, y as int) {
                if w0.holds(slot as int, x as int, y as int) {
            lemma_keeps_after_places(w0, wm, world@, slot as int, x as int, y as int, r);
        }
            }
        }
        r
    } else {
        commit(world, marks, slot, (x, y), (px, py))
    }
}

/// Gases: a stagnant one goes back to the game; else rise and walk.
fn update_gas<S: EventSink>(
    world: &mut World,
    table: &MatterTable,
    sink: &mut S,
    rng: &mut Rng,
    marks: &mut Marks,
    slot: usize,
    kind: u8,
    x: i32,
    y: i32,
    dt: u32,
) -> (r: bool)
    requires
        old(world)@.wf(),
        table.wf(),
        slot < old(world)@.elements.len(),
        old(world)@.chunk_should_update.len() > 0 ==> old(world)@.chunk_size != 0,
        i32::MIN + 2 < x < i32::MAX - 2,
        i32::MIN + 2 < y < i32::MAX - 2,
    ensures
        final(world)@.elements.duration_left == old(world)@.elements.duration_left,
        ({
            let u = gas_spec(old(world)@, *table, old(rng).state(), slot as int, kind, x as int, y as int, dt);
            &&& final(world)@ == u.world
            &&& final(rng).state() == u.rng
            &&& r == u.moved
            &&& took_maybe(*old(sink), u.event, *final(sink))
            &&& final(marks).listed() == if u.moved {
                old(marks).listed().push(slot as u32)
            } else {
                old(marks).listed()
            }
        }),
        keeps_consistent(old(world)@, final(world)@, slot as int, x as int, y as int, r),
        final(world)@.wf(),
        final(world)@.elements.len() == old(world)@.elements.len(),
        final(world)@.same_shape(old(world)@),
        r ==> final(world)@.elements.has_been_updated[slot as int] == 1,
{
    if !can_process(world, slot, x, y) {
        return false;
    }
    if world.elements.moves_y_axis_count[slot] > STAGNANT_LIMIT {
        sink.push(Event::NeedsJs { x, y, why: Why::Stagnant });
        return false;
    }
    let here = world.cell(x, y);
    let fall = gas_fall();
    let mut px = x;
    let mut py = y;
    let ghost w0 = world@;
    match vertical(world, table, sink, rng, slot, kind, x, y, dt, &fall) {
        Step::Consumed => {
            let ghost wv = world@;
            let r = end_turn(world, marks, slot, x, y, here);
            proof {
                lemma_same_places_consistent(world@, wv);
            }
            return r;
        },
        Step::Moved(nx, ny) => {
            px = nx;
            py = ny;
        },
        Step::Stay => {},
    }
    let walk = gas_walk();
    assert(walk == gas_walk_spec());
    let ghost wm = world@;
    let r = walk_and_settle(world, table, sink, rng, marks, slot, kind, x, y, px, py, &walk);
    proof {
        if w0.holds(slot as int, x as int, y as int) {
            lemma_keeps_after_places(w0, wm, world@, slot as int, x as int, y as int, r);
        }
    }
    r
}

/// An element packed among its own kind only gathers speed.
fn gather_speed(world: &mut World, slot: usize, x: i32, y: i32, gas: bool, dt: u32)
    requires
        old(world)@.wf(),
        slot < old(world)@.elements.len(),
        old(world)@.chunk_should_update.len() > 0 ==> old(world)@.chunk_size != 0,
        i32::MIN < x,
        i32::MIN < y,
    ensures
        final(world)@.elements.duration_left == old(world)@.elements.duration_left,
        final(world)@ == gathered(old(world)@, slot as int, x as int, y as int, gas, dt),
        final(world)@.same_places(old(world)@),
        final(world)@.wf(),
        final(world)@.elements.len() == old(world)@.elements.len(),
        final(world)@.same_shape(old(world)@),
{
    if world.elements.has_been_updated[slot] == 1 {
        return;
    }
    if !world.cell_chunk_active(x, y) {
        return;
    }
    let ghost w0 = world@;
    world.elements.is_free_falling.set(slot, 0);
    let accel = if gas {
        UPFLOW
    } else {
        GRAVITY
    };
    let vy = single::plus(world.elements.velocity_y[slot], single::times(accel, dt));
    world.elements.velocity_y.set(slot, vy);
    let ty = single::plus(world.elements.threshold_y[slot], single::times(vy, dt));
    world.elements.threshold_y.set(slot, ty);
    let ghost w1 = world@;
    assert(w1 =~= set_ty(with_velocity_y(set_falling(w0, slot as int, 0), slot as int, vy), slot as int, ty));
    if single::greater_or_equal(ty, single::ONE) || single::less_or_equal(ty, single::MINUS_ONE) {
        world.elements.threshold_y.set(slot, single::fmod(ty, single::ONE));
        let vy2 = single::times(vy, single::NINE_TENTHS);
        let min = world.elements.min_velocity_y[slot];
        let past = if gas {
            single::greater(vy2, min)
        } else {
            single::less(vy2, min)
        };
        world.elements.velocity_y.set(
            slot,
            if past {
                min
            } else {
                vy2
            },
        );
        assert(world@ =~= set_ty(
            with_velocity_y(
                w1,
                slot as int,
                if past {
                    min
                } else {
                    vy2
                },
            ),
            slot as int,
            single::fmod_of(ty, single::ONE),
        ));
    }
}

/// `ce` of the game (export `cJ`): simulate the element of `slot`, which
/// stands at `(x, y)`, for one frame. Returns whether it moved: whether it
/// left its cell, by a move into a free cell or by an exchange by density,
/// and such an element is marked as simulated. In a consistent world the
/// position fields follow every element, and no element is created, copied
/// or lost.
pub fn update_element_cell<S: EventSink>(
    world: &mut World,
    table: &MatterTable,
    sink: &mut S,
    rng: &mut Rng,
    marks: &mut Marks,
    slot: usize,
    x: i32,
    y: i32,
    frame: Frame,
) -> (r: bool)
    requires
        old(world)@.wf(),
        table.wf(),
        slot < old(world)@.elements.len(),
        old(world)@.chunk_should_update.len() > 0 ==> old(world)@.chunk_size != 0,
        i32::MIN + 2 < x < i32::MAX - 2,
        i32::MIN + 2 < y < i32::MAX - 2,
    ensures
        ({
            let u = cell_spec(old(world)@, *table, old(rng).state(), slot as int, x as int, y as int, frame);
            &&& final(world)@ == u.world
            &&& final(rng).state() == u.rng
            &&& r == u.moved
            &&& took_maybe(*old(sink), u.event, *final(sink))
            &&& final(marks).listed() == if u.moved {
                old(marks).listed().push(slot as u32)
            } else {
                old(marks).listed()
            }
        }),
        final(world)@.wf(),
        final(world)@.elements.len() == old(world)@.elements.len(),
        final(world)@.same_shape(old(world)@),
        r ==> final(world)@.elements.has_been_updated[slot as int] == 1,
        final(world)@.elements.duration_left == if old(world)@.elements.skip_physics[slot as int] < skip::AGGRESSIVE
            && old(world)@.elements.has_duration[slot as int] == 1 {
            old(world)@.elements.duration_left.update(
                slot as int,
                single::difference(old(world)@.elements.duration_left[slot as int], frame.dt),
            )
        } else {
            old(world)@.elements.duration_left
        },
        keeps_consistent(old(world)@, final(world)@, slot as int, x as int, y as int, r),
{
    let kind = world.elements.kind[slot];
    if world.elements.skip_physics[slot] >= skip::AGGRESSIVE {
        return false;
    }
    if world.elements.has_duration[slot] == 1 {
        let left = single::minus(world.elements.duration_left[slot], frame.dt);
        let ghost w0 = world@;
        world.elements.duration_left.set(slot, left);
        assert(world@ =~= with_duration_left(w0, slot as int, left));
        if single::greater(left, single::ZERO) {
            let ghost w1 = world@;
            world.report_to_chunk(x, y);
            proof {
                w1.lemma_report_frame(x as int, y as int);
            }
        } else {
            proof {
                lemma_same_places_consistent(world@, old(world)@);
            }
            sink.push(Event::NeedsJs { x, y, why: Why::Duration });
            return false;
        }
    }
    let ghost wd = world@;
    proof {
        assert(wd.same_places(old(world)@));
        lemma_same_places_consistent(wd, old(world)@);
    }
    let matter = table.matter(kind);
    match matter {
        Matter::Inert => {
            return false;
        },
        Matter::Other => {
            sink.push(Event::NeedsJs { x, y, why: Why::UnknownMatter });
            return false;
        },
        _ => {},
    }
    if world.elements.skip_physics[slot] >= skip::SKIP {
        return false;
    }
    let gas = matter == Matter::Gas;
    let below: i32 = if gas {
        -1
    } else {
        1
    };
    if is_packed(world, x, y, below, kind) {
        gather_speed(world, slot, x, y, gas, frame.dt);
        proof {
            lemma_same_places_consistent(world@, old(world)@);
        }
        return false;
    }
    let r = match matter {
        Matter::Solid => update_solid(world, table, sink, rng, marks, slot, kind, x, y, frame.dt, frame.solid_damping),
        Matter::Slushy => update_slushy(world, table, sink, rng, marks, slot, kind, x, y, frame.dt, frame.slushy_damping),
        Matter::Liquid => update_liquid(world, table, sink, rng, marks, slot, kind, x, y, frame.dt),
        _ => update_gas(world, table, sink, rng, marks, slot, kind, x, y, frame.dt),
    };
    proof {
        lemma_keeps_after_places(old(world)@, wd, world@, slot as int, x as int, y as int, r);
    }
    r
}

/// An element taken by a machine or a conveyor is left alone: nothing
/// changes, nothing is reported.
pub proof fn law_machine_element_is_left_alone(
    w: WorldModel,
    table: MatterTable,
    rng: u32,
    slot: int,
    x: int,
    y: int,
    frame: Frame,
)
    requires
        0 <= slot < w.elements.len(),
        w.elements.wf(),
        w.elements.skip_physics[slot] >= skip::AGGRESSIVE,
    ensures
        cell_spec(w, table, rng, slot, x, y, frame) == (Updated { world: w, rng, moved: false, event: None }),
{
}

/// An element with a free cell beside it is never taken for packed among
/// its own kind: it moves by its state of matter (a liquid resting on its
/// own kind spreads sideways), whatever lies below it.
pub proof fn law_open_side_moves_by_its_matter(
    w: WorldModel,
    table: MatterTable,
    rng: u32,
    slot: int,
    x: int,
    y: int,
    frame: Frame,
)
    requires
        0 <= slot < w.elements.len(),
        w.elements.wf(),
        w.elements.skip_physics[slot] < skip::SKIP,
        w.elements.has_duration[slot] != 1,
        w.cell(x - 1, y) == EMPTY || w.cell(x + 1, y) == EMPTY,
    ensures
        ({
            let kind = w.elements.kind[slot];
            let u = cell_spec(w, table, rng, slot, x, y, frame);
            match table.matter_of(kind) {
                Matter::Solid => u == granular_spec(
                    w,
                    table,
                    rng,
                    slot,
                    kind,
                    x,
                    y,
                    frame.dt,
                    solid_fall_of(table, kind),
                    frame.solid_damping,
                ),
                Matter::Slushy => u == granular_spec(
                    w,
                    table,
                    rng,
                    slot,
                    kind,
                    x,
                    y,
                    frame.dt,
                    slushy_fall_spec(),
                    frame.slushy_damping,
                ),
                Matter::Liquid => u == liquid_spec(w, table, rng, slot, kind, x, y, frame.dt),
                Matter::Gas => u == gas_spec(w, table, rng, slot, kind, x, y, frame.dt),
                _ => true,
            }
        }),
{
    let kind = w.elements.kind[slot];
    let below: int = if table.matter_of(kind) == Matter::Gas {
        -1
    } else {
        1
    };
    crate::physics::law_open_side_is_not_packed(w, x, y, below, kind);
}

/// An element that was simulated already in this frame, or whose chunk is
/// asleep, does not move: the grid, its fields and every other element stay
/// as they are, but for the tick of its timer, and the generator is not
/// drawn from. Simulating it twice in one tick would carry it twice as far.
pub proof fn law_simulated_or_asleep_stays(
    w: WorldModel,
    table: MatterTable,
    rng: u32,
    slot: int,
    x: int,
    y: int,
    frame: Frame,
)
    requires
        w.wf(),
        0 <= slot < w.elements.len(),
        !processable(w, slot, x, y),
    ensures
        ({
            let u = cell_spec(w, table, rng, slot, x, y, frame);
            &&& !u.moved
            &&& u.rng == rng
            &&& u.world.cells == w.cells
            &&& u.world.elements == (ElementsModel { duration_left: u.world.elements.duration_left, ..w.elements })
            &&& u.event is None || u.event == Some(needs_js(x, y, Why::Duration)) || u.event == Some(
                needs_js(x, y, Why::UnknownMatter),
            )
        }),
{
    let e = w.elements;
    let left = single::difference(e.duration_left[slot], frame.dt);
    let t = with_duration_left(w, slot, left);
    t.lemma_report_frame(x, y);
    w.lemma_report_frame(x, y);
}

/// A state of matter that is not known goes back to the game, and the cell
/// stays as it is.
pub proof fn law_unknown_matter_goes_back(
    w: WorldModel,
    table: MatterTable,
    rng: u32,
    slot: int,
    x: int,
    y: int,
    frame: Frame,
)
    requires
        w.wf(),
        0 <= slot < w.elements.len(),
        w.elements.skip_physics[slot] < skip::AGGRESSIVE,
        w.elements.has_duration[slot] != 1,
        table.matter_of(w.elements.kind[slot]) == Matter::Other,
    ensures
        cell_spec(w, table, rng, slot, x, y, frame) == (Updated {
            world: w,
            rng,
            moved: false,
            event: Some(needs_js(x, y, Why::UnknownMatter)),
        }),
{
}

/// A timer that runs out in this frame hands the element back to the game,
/// which owns what follows (a seed that grows, a fire that dies, a score);
/// the element does not move, and only its timer is written.
pub proof fn law_expired_timer_goes_back(
    w: WorldModel,
    table: MatterTable,
    rng: u32,
    slot: int,
    x: int,
    y: int,
    frame: Frame,
)
    requires
        w.wf(),
        0 <= slot < w.elements.len(),
        w.elements.skip_physics[slot] < skip::AGGRESSIVE,
        w.elements.has_duration[slot] == 1,
        !single::gt(single::difference(w.elements.duration_left[slot], frame.dt), single::ZERO),
    ensures
        cell_spec(w, table, rng, slot, x, y, frame) == (Updated {
            world: with_duration_left(w, slot, single::difference(w.elements.duration_left[slot], frame.dt)),
            rng,
            moved: false,
            event: Some(needs_js(x, y, Why::Duration)),
        }),
{
}

/// The state of a sweep over cells: the world, the generator, the events
/// handed to the game, the slots marked as moved, and how many cells with
/// an element were simulated.
pub struct Swept {
    pub world: WorldModel,
    pub rng: u32,
    pub events: Seq<Event>,
    pub marked: Seq<u32>,
    pub touched: nat,
}

/// One cell of a sweep: a cell that names a live element (a slot in range,
/// of a type other than zero) is simulated; every other cell is passed.
pub open spec fn visit(s: Swept, table: MatterTable, x: int, y: int, frame: Frame) -> Swept {
    let id = s.world.cell(x, y);
    let slot = id - ELEMENT_MIN;
    if element_id(id) && slot < s.world.elements.len() && s.world.elements.kind[slot] != 0 {
        let u = cell_spec(s.world, table, s.rng, slot, x, y, frame);
        Swept {
            world: u.world,
            rng: u.rng,
            events: match u.event {
                Some(e) => s.events.push(e),
                None => s.events,
            },
            marked: if u.moved {
                s.marked.push(slot as u32)
            } else {
                s.marked
            },
            touched: s.touched + 1,
        }
    } else {
        s
    }
}

/// `n` cells of row `y`, from column `x` on, in steps of `step`.
pub open spec fn sweep_row(s: Swept, table: MatterTable, y: int, x: int, n: nat, step: int, frame: Frame) -> Swept
    decreases n,
{
    if n == 0 {
        s
    } else {
        sweep_row(visit(s, table, x, y, frame), table, y, x + step, (n - 1) as nat, step, frame)
    }
}

/// The `n` rows above row `y`, from the bottom up, each between columns `x0`
/// and `x1`: left to right, or right to left.
pub open spec fn sweep_rows(
    s: Swept,
    table: MatterTable,
    x0: int,
    x1: int,
    y: int,
    n: nat,
    left_to_right: bool,
    frame: Frame,
) -> Swept
    decreases n,
{
    if n == 0 {
        s
    } else {
        let cols = if x1 > x0 {
            (x1 - x0) as nat
        } else {
            0
        };
        let row = if left_to_right {
            sweep_row(s, table, y - 1, x0, cols, 1, frame)
        } else {
            sweep_row(s, table, y - 1, x1 - 1, cols, -1, frame)
        };
        sweep_rows(row, table, x0, x1, y - 1, (n - 1) as nat, left_to_right, frame)
    }
}

/// A sweep of the rectangle `[x0, x1) x [y0, y1)`: rows from the bottom up,
/// each in the direction given, starting from the world and generator given.
pub open spec fn region_spec(
    w: WorldModel,
    table: MatterTable,
    rng: u32,
    x0: int,
    y0: int,
    x1: int,
    y1: int,
    left_to_right: bool,
    frame: Frame,
) -> Swept {
    let start = Swept { world: w, rng, events: Seq::empty(), marked: Seq::empty(), touched: 0 };
    let rows = if y1 > y0 {
        (y1 - y0) as nat
    } else {
        0
    };
    sweep_rows(start, table, x0, x1, y1, rows, left_to_right, frame)
}

/// The exec state of a sweep agrees with its model.
pub open spec fn tracks<S: EventSink>(
    s: Swept,
    world: WorldModel,
    rng: u32,
    sink0: S,
    sink: S,
    marks0: Seq<u32>,
    marks: Seq<u32>,
) -> bool {
    &&& world == s.world
    &&& rng == s.rng
    &&& took_all(sink0, s.events, sink)
    &&& marks == marks0 + s.marked
}

proof fn lemma_rows_fit(done: int, cols: int, rows: int, width: int, height: int)
    requires
        0 <= done < rows,
        0 <= cols <= width,
        rows <= height,
        width * height <= i32::MAX,
    ensures
        done * cols + cols <= i32::MAX,
        done * cols >= 0,
{
    assert(done * cols + cols == (done + 1) * cols) by (nonlinear_arith);
    assert((done + 1) * cols <= height * width) by (nonlinear_arith)
        requires
            0 <= done + 1 <= height,
            0 <= cols <= width,
    ;
    assert(done * cols >= 0) by (nonlinear_arith)
        requires
            done >= 0,
            cols >= 0,
    ;
}

/// The sweep over a rectangle of cells (the loops `E` and `k` of
/// `cellOps`): rows from the bottom up, and along each row in the direction
/// that the game flips every tick, since a fixed one makes sand drift to
/// one side visibly. Returns how many cells with an element were simulated;
/// the slots that moved are added to `marks`, one per move.
/// A sweep keeps a consistent world consistent, with the same multiset of
/// identifiers in its cells, and it simulates each cell of the rectangle at
/// most once.
pub fn update_region<S: EventSink>(
    world: &mut World,
    table: &MatterTable,
    sink: &mut S,
    rng: &mut Rng,
    marks: &mut Marks,
    x0: i32,
    y0: i32,
    x1: i32,
    y1: i32,
    left_to_right: bool,
    frame: Frame,
) -> (r: usize)
    requires
        old(world)@.wf(),
        table.wf(),
        old(world)@.chunk_should_update.len() > 0 ==> old(world)@.chunk_size != 0,
        y0 < y1 ==> 0 <= x0 <= x1 <= old(world)@.width && 0 <= y0 && y1 <= old(world)@.height,
        y0 < y1 ==> x1 <= i32::MAX - 2 && y1 <= i32::MAX - 2,
    ensures
        ({
            let s = region_spec(old(world)@, *table, old(rng).state(), x0 as int, y0 as int, x1 as int, y1 as int, left_to_right, frame);
            &&& tracks(s, final(world)@, final(rng).state(), *old(sink), *final(sink), old(marks).listed(), final(marks).listed())
            &&& r == s.touched
        }),
        y0 < y1 ==> r <= (x1 - x0) * (y1 - y0),
        y1 <= y0 ==> r == 0,
        old(world)@.consistent() && old(world)@.positions_fit() ==> {
            &&& final(world)@.consistent()
            &&& final(world)@.cells.to_multiset() == old(world)@.cells.to_multiset()
        },
        final(world)@.wf(),
        final(world)@.elements.len() == old(world)@.elements.len(),
        final(world)@.same_shape(old(world)@),
{
    let ghost w0 = world@;
    let ghost start = Swept { world: world@, rng: rng.state(), events: Seq::empty(), marked: Seq::empty(), touched: 0 };
    let ghost goal = region_spec(w0, *table, rng.state(), x0 as int, y0 as int, x1 as int, y1 as int, left_to_right, frame);
    let ghost mut cur = start;
    proof {
        lemma_took_none(*sink);
        assert(old(marks).listed() + Seq::<u32>::empty() =~= old(marks).listed());
    }
    let mut touched: usize = 0;
    let mut y = y1;
    if y1 <= y0 {
        return touched;
    }
    let ghost cols: nat = (x1 - x0) as nat;
    while y > y0
        invariant
            y0 < y1,
            y0 <= y <= y1,
            0 <= x0 <= x1 <= w0.width,
            0 <= y0,
            y1 <= w0.height,
            x1 <= i32::MAX - 2,
            y1 <= i32::MAX - 2,
            cols == x1 - x0,
            w0.wf(),
            table.wf(),
            w0.chunk_should_update.len() > 0 ==> w0.chunk_size != 0,
            world@.wf(),
            world@.same_shape(w0),
            world@.elements.len() == w0.elements.len(),
            tracks(cur, world@, rng.state(), *old(sink), *sink, old(marks).listed(), marks.listed()),
            touched as int == cur.touched,
            cur.touched <= (y1 - y) * cols,
            w0.consistent() && w0.positions_fit() ==> {
                &&& world@.consistent()
                &&& world@.cells.to_multiset() == w0.cells.to_multiset()
            },
            goal == sweep_rows(cur, *table, x0 as int, x1 as int, y as int, (y - y0) as nat, left_to_right, frame),
        decreases y - y0,
    {
        let row_y = y - 1;
        proof {
            lemma_rows_fit(y1 - y, cols as int, y1 - y0, w0.width as int, w0.height as int);
        }
        let from = if left_to_right {
            x0
        } else {
            x1 - 1
        };
        let to = if left_to_right {
            x1
        } else {
            x0 - 1
        };
        let step: i32 = if left_to_right {
            1
        } else {
            -1
        };
        let ghost row_goal = sweep_row(cur, *table, row_y as int, from as int, cols, step as int, frame);
        let mut x = from;
        let ghost mut done: nat = 0;
        while x != to
            invariant
                y0 < y <= y1,
                row_y == y - 1,
                0 <= x0 <= x1 <= w0.width,
                0 <= y0,
                y1 <= w0.height,
                x1 <= i32::MAX - 2,
                y1 <= i32::MAX - 2,
                cols == x1 - x0,
                step == 1 || step == -1,
                step == 1 ==> x == x0 + done && to == x1,
                step == -1 ==> x == x1 - 1 - done && to == x0 - 1,
                done <= cols,
                w0.wf(),
                table.wf(),
                w0.chunk_should_update.len() > 0 ==> w0.chunk_size != 0,
                world@.wf(),
                world@.same_shape(w0),
                world@.elements.len() == w0.elements.len(),
                tracks(cur, world@, rng.state(), *old(sink), *sink, old(marks).listed(), marks.listed()),
                touched as int == cur.touched,
                cur.touched <= (y1 - y) * cols + done,
                w0.consistent() && w0.positions_fit() ==> {
                    &&& world@.consistent()
                    &&& world@.cells.to_multiset() == w0.cells.to_multiset()
                },
                (y1 - y) * cols + cols <= i32::MAX,
                row_goal == sweep_row(cur, *table, row_y as int, x as int, (cols - done) as nat, step as int, frame),
            decreases cols - done,
        {
            let ghost before = cur;
            let ghost sink_before = *sink;
            let ghost marks_before = marks.listed();
            let id = world.cell(x, row_y);
            if is_element(id) {
                let slot = element_index(id);
                if slot < world.elements.kind.len() && world.elements.kind[slot] != 0 {
                    touched = touched + 1;
                    update_element_cell(world, table, sink, rng, marks, slot, x, row_y, frame);
                    proof {
                        let u = cell_spec(before.world, *table, before.rng, slot as int, x as int, row_y as int, frame);
                        match u.event {
                            Some(e) => {
                                lemma_took_one_more(*old(sink), before.events, sink_before, e, *sink);
                            },
                            None => {},
                        }
                        if u.moved {
                            assert(old(marks).listed() + before.marked.push(slot as u32) =~= (old(marks).listed() + before.marked).push(slot as u32));
                        }
                    }
                }
            }
            proof {
                cur = visit(before, *table, x as int, row_y as int, frame);
                done = done + 1;
            }
            x = x + step;
        }
        proof {
            assert(done == cols);
            assert((y1 - y) * cols + cols == (y1 - row_y) * cols) by (nonlinear_arith)
                requires
                    row_y == y - 1,
            ;
        }
        y = row_y;
    }
    proof {
        assert(touched <= (y1 - y0) * cols);
    }
    touched
}

} // verus!
