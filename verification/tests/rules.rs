//! Exact values: the kinematics of one frame against the machine's own
//! single-precision arithmetic, the events of every kind, the session
//! driver, snapshots, and the laws of the library on concrete worlds.

use sand_sim::chunk::{
    inspect, should_process, should_process_in_column, window, Gate, Reason, Stats, Verdict,
    VerdictCache, Window,
};
use sand_sim::events::{Event, EventQueue, EventSink, NullSink, Why};
use sand_sim::physics::{update_element_cell, update_region, Frame, Marks, Matter, MatterTable, Rng};
use sand_sim::session::{chunk_cells_of, matter_from_code, reason_code, ChunkResult, Core, DeferSink};
use sand_sim::snapshot::{default_table, hash_cells, highest_slot_of, Counts, Dump, Element, Region, State, WorldMeta};
use sand_sim::view::{Elements, World, ELEMENT_MIN};

const SAND: u8 = 1;
const WATER: u8 = 2;
const STEAM: u8 = 3;
const LAVA: u8 = 5;

const DT: f32 = 1.0 / 60.0;
const GRAVITY: f32 = 216.0;
const UPFLOW: f32 = -21.6;

fn bits(v: f32) -> u32 {
    v.to_bits()
}

fn float(b: u32) -> f32 {
    f32::from_bits(b)
}

fn elements(cap: usize) -> Elements {
    Elements {
        kind: vec![0; cap],
        velocity_x: vec![0; cap],
        velocity_y: vec![0; cap],
        min_velocity_x: vec![0; cap],
        min_velocity_y: vec![0; cap],
        threshold_x: vec![0; cap],
        threshold_y: vec![0; cap],
        density: vec![0; cap],
        is_free_falling: vec![0; cap],
        has_been_updated: vec![0; cap],
        skip_physics: vec![0; cap],
        has_duration: vec![0; cap],
        duration_left: vec![0; cap],
        x: vec![0; cap],
        y: vec![0; cap],
        last_side_checked: vec![0; cap],
        moves_y_axis: vec![0; cap],
        moves_y_axis_count: vec![0; cap],
    }
}

/// An empty world of `w` by `h` cells, chunks of 40, all awake.
fn world(w: i32, h: i32) -> World {
    let cw = (w + 39) / 40;
    let ch = (h + 39) / 40;
    World {
        width: w,
        height: h,
        chunk_size: 40,
        cells: vec![0; (w * h) as usize],
        elements: elements(64),
        chunk_should_update: vec![1; (cw * ch) as usize],
        chunk_dirty_next: vec![0; (cw * ch) as usize],
        chunk_width: cw,
        chunk_height: ch,
        terrain_type: (0..=1000u32).map(|i| i as u8).collect(),
        changed: Vec::new(),
    }
}

fn put(w: &mut World, slot: usize, x: i32, y: i32, kind: u8, density: f32) {
    w.elements.kind[slot] = kind;
    w.elements.density[slot] = bits(density);
    w.elements.x[slot] = x as u16;
    w.elements.y[slot] = y as u16;
    let i = (y * w.width + x) as usize;
    w.cells[i] = ELEMENT_MIN + slot as u32;
}

fn at(w: &World, x: i32, y: i32) -> u32 {
    w.cells[(y * w.width + x) as usize]
}

fn table() -> MatterTable {
    let mut t = MatterTable::new();
    t.set(SAND, Matter::Solid, bits(1.0));
    t.set(WATER, Matter::Liquid, bits(1.0));
    t.set(STEAM, Matter::Gas, bits(1.0));
    t.set(LAVA, Matter::Liquid, bits(0.1));
    t.set_reactive(LAVA, true, false);
    t
}

fn step(w: &mut World, queue: &mut EventQueue, slot: usize, x: i32, y: i32) -> bool {
    let mut rng = Rng::new(7);
    let mut marks = Marks::new();
    update_element_cell(w, &table(), queue, &mut rng, &mut marks, slot, x, y, Frame::sixtieth())
}

// ---- one frame of kinematics ----------------------------------------------

#[test]
fn frame_of_a_sixtieth_is_the_games_clock() {
    let f = Frame::sixtieth();
    assert_eq!(f.dt, bits(DT));
    assert_eq!(f.solid_damping, bits(0.9));
    assert_eq!(f.slushy_damping, bits(0.95));
}

#[test]
fn grain_at_rest_gathers_one_frame_of_gravity() {
    let mut w = world(8, 40);
    put(&mut w, 0, 4, 4, SAND, 150.0);
    let mut queue = EventQueue::with_capacity(4);
    let moved = step(&mut w, &mut queue, 0, 4, 4);
    let vy = 0.0f32 + (GRAVITY * 1.0) * DT;
    let ty = 0.0f32 + vy * DT;
    assert!(!moved);
    assert_eq!(w.elements.velocity_y[0], bits(vy));
    assert_eq!(w.elements.threshold_y[0], bits(ty));
    assert_eq!(w.elements.is_free_falling[0], 1, "a grain with room below falls freely");
    assert_eq!(w.chunk_dirty_next[0], 1, "and keeps its chunk awake");
    assert!(queue.is_empty());
}

#[test]
fn fast_grain_falls_whole_cells_and_keeps_the_fraction() {
    let mut w = world(8, 40);
    put(&mut w, 0, 4, 4, SAND, 150.0);
    w.elements.velocity_y[0] = bits(300.0);
    w.elements.threshold_y[0] = bits(0.9);
    let mut queue = EventQueue::with_capacity(4);
    let moved = step(&mut w, &mut queue, 0, 4, 4);
    let vy = 300.0f32 + (GRAVITY * 1.0) * DT;
    let ty = 0.9f32 + vy * DT;
    let cells = ty.floor() as i32;
    assert_eq!(cells, 5);
    assert!(moved);
    assert_eq!(at(&w, 4, 4 + cells), ELEMENT_MIN);
    assert_eq!(at(&w, 4, 4), 0);
    assert_eq!(w.elements.y[0] as i32, 4 + cells);
    assert_eq!(w.elements.threshold_y[0], bits(ty % 1.0));
    assert_eq!(w.elements.velocity_y[0], bits(vy));
    assert_eq!(w.elements.has_been_updated[0], 1);
}

#[test]
fn fast_gas_rises_whole_cells_rounded_toward_zero() {
    let mut w = world(16, 24);
    put(&mut w, 0, 8, 20, STEAM, 25.0);
    w.elements.velocity_y[0] = bits(-300.0);
    w.elements.threshold_y[0] = bits(-0.9);
    let mut queue = EventQueue::with_capacity(4);
    let moved = step(&mut w, &mut queue, 0, 8, 20);
    let vy = -300.0f32 + (UPFLOW * 1.0) * DT;
    let ty = -0.9f32 + vy * DT;
    let cells = ty.ceil() as i32;
    assert_eq!(cells, -5);
    assert!(moved);
    assert_eq!(at(&w, 8, 20 + cells), ELEMENT_MIN);
    assert_eq!(w.elements.threshold_y[0], bits(ty % 1.0));
}

#[test]
fn landing_hands_a_tenth_of_the_speed_to_the_side() {
    let mut w = world(8, 32);
    for x in 0..8 {
        w.cells[(31 * 8 + x) as usize] = 15;
    }
    put(&mut w, 0, 4, 28, SAND, 150.0);
    w.elements.velocity_y[0] = bits(300.0);
    w.elements.threshold_y[0] = bits(0.9);
    w.elements.is_free_falling[0] = 1;
    let mut queue = EventQueue::with_capacity(4);
    let moved = step(&mut w, &mut queue, 0, 4, 28);
    assert!(moved);
    assert_eq!(at(&w, 4, 30), ELEMENT_MIN, "the grain lies on the floor");
    let vy = (300.0f32 + (GRAVITY * 1.0) * DT) * 0.9;
    assert_eq!(w.elements.velocity_y[0], bits(vy), "the hit cost a tenth of the speed");
    let side = (vy.abs() / 10.0) * 0.9;
    assert_eq!(float(w.elements.velocity_x[0]).abs(), side);
    assert_eq!(w.elements.is_free_falling[0], 0, "and it landed");
}

#[test]
fn running_timer_ticks_by_the_frame() {
    let mut w = world(8, 32);
    put(&mut w, 0, 4, 4, SAND, 150.0);
    w.elements.has_duration[0] = 1;
    w.elements.duration_left[0] = bits(10.0);
    let mut queue = EventQueue::with_capacity(4);
    step(&mut w, &mut queue, 0, 4, 4);
    assert_eq!(w.elements.duration_left[0], bits(10.0 - DT));
    assert!(queue.is_empty());
}

#[test]
fn generator_draws_the_top_bits_as_a_fraction() {
    let mut r = Rng::new(1);
    let mut x: u32 = 3;
    x ^= x << 13;
    x ^= x >> 17;
    x ^= x << 5;
    assert_eq!(float(r.unit()), (x >> 8) as f32 / (1u32 << 24) as f32);
    let mut q = Rng::new(1);
    assert_eq!(q.next(), x);
    let n = q.int_between(1, 2);
    assert!(n == 1 || n == 2);
    assert_eq!(q.int_between(5, 5), 5);
}

// ---- events of every kind --------------------------------------------------

#[test]
fn stagnant_liquid_goes_back_to_js() {
    let mut w = world(8, 8);
    put(&mut w, 0, 4, 4, WATER, 100.0);
    w.elements.moves_y_axis_count[0] = 1001;
    let mut queue = EventQueue::with_capacity(4);
    step(&mut w, &mut queue, 0, 4, 4);
    assert_eq!(queue.events(), &[Event::NeedsJs { x: 4, y: 4, why: Why::Stagnant }]);
}

#[test]
fn expired_timer_is_reported_with_its_reason() {
    let mut w = world(8, 8);
    put(&mut w, 0, 4, 4, SAND, 150.0);
    w.elements.has_duration[0] = 1;
    w.elements.duration_left[0] = bits(0.001);
    let mut queue = EventQueue::with_capacity(4);
    let moved = step(&mut w, &mut queue, 0, 4, 4);
    assert!(!moved);
    assert_eq!(queue.events(), &[Event::NeedsJs { x: 4, y: 4, why: Why::Duration }]);
}

#[test]
fn unknown_matter_is_reported_with_its_reason() {
    let mut w = world(8, 8);
    put(&mut w, 0, 4, 4, 200, 150.0);
    let mut queue = EventQueue::with_capacity(4);
    step(&mut w, &mut queue, 0, 4, 4);
    assert_eq!(queue.events(), &[Event::NeedsJs { x: 4, y: 4, why: Why::UnknownMatter }]);
    assert_eq!(at(&w, 4, 4), ELEMENT_MIN);
}

#[test]
fn reaction_is_reported_from_where_the_mover_stands() {
    let mut w = world(8, 16);
    put(&mut w, 0, 4, 8, LAVA, 300.0);
    put(&mut w, 1, 4, 7, WATER, 100.0);
    w.elements.velocity_y[1] = bits(300.0);
    w.elements.threshold_y[1] = bits(0.9);
    let mut queue = EventQueue::with_capacity(4);
    let moved = step(&mut w, &mut queue, 1, 4, 7);
    assert!(!moved);
    assert_eq!(queue.events(), &[Event::NeedsJs { x: 4, y: 7, why: Why::Reaction }]);
}

#[test]
fn heavier_swaps_with_a_resting_lighter_and_is_slowed_to_sixty() {
    let mut w = world(8, 16);
    put(&mut w, 0, 4, 8, WATER, 100.0);
    put(&mut w, 1, 4, 7, SAND, 150.0);
    w.elements.velocity_y[1] = bits(300.0);
    w.elements.threshold_y[1] = bits(0.9);
    let mut queue = EventQueue::with_capacity(4);
    let moved = step(&mut w, &mut queue, 1, 4, 7);
    assert!(moved, "an exchange takes the element out of its cell");
    assert_eq!(at(&w, 4, 8), ELEMENT_MIN + 1);
    assert_eq!(at(&w, 4, 7), ELEMENT_MIN);
    assert_eq!(w.elements.velocity_y[1], bits(60.0));
    assert_eq!((w.elements.y[0], w.elements.y[1]), (7, 8));
}

/// Every cell that names a slot names a live element whose position fields
/// name that cell, and the multiset of identifiers is the one given.
fn assert_consistent(w: &World, ids: &[u32]) {
    let mut seen: Vec<u32> = Vec::new();
    for y in 0..w.height {
        for x in 0..w.width {
            let id = at(w, x, y);
            if id >= ELEMENT_MIN && ((id - ELEMENT_MIN) as usize) < w.elements.kind.len() {
                let s = (id - ELEMENT_MIN) as usize;
                assert_ne!(w.elements.kind[s], 0);
                assert_eq!((w.elements.x[s] as i32, w.elements.y[s] as i32), (x, y));
                seen.push(id);
            }
        }
    }
    seen.sort();
    let mut want = ids.to_vec();
    want.sort();
    assert_eq!(seen, want);
}

#[test]
fn exchange_marks_the_mover_so_it_is_not_simulated_twice() {
    let mut w = world(8, 16);
    put(&mut w, 0, 4, 8, WATER, 100.0);
    put(&mut w, 1, 4, 7, SAND, 150.0);
    w.elements.velocity_y[1] = bits(300.0);
    w.elements.threshold_y[1] = bits(0.9);
    let mut queue = EventQueue::with_capacity(4);
    let mut rng = Rng::new(7);
    let mut marks = Marks::new();
    let moved = update_element_cell(&mut w, &table(), &mut queue, &mut rng, &mut marks, 1, 4, 7, Frame::sixtieth());
    assert!(moved);
    assert_eq!(marks.slots(), &[1]);
    assert_eq!(w.elements.has_been_updated[1], 1);
    let again = update_element_cell(&mut w, &table(), &mut queue, &mut rng, &mut marks, 1, 4, 8, Frame::sixtieth());
    assert!(!again);
    assert_eq!(at(&w, 4, 8), ELEMENT_MIN + 1);
    assert_consistent(&w, &[ELEMENT_MIN, ELEMENT_MIN + 1]);
}

#[test]
fn exchange_after_a_free_cell_takes_the_mover_from_its_own_cell() {
    let mut w = world(8, 16);
    put(&mut w, 0, 4, 7, WATER, 100.0);
    put(&mut w, 1, 4, 5, SAND, 150.0);
    w.elements.velocity_y[1] = bits(300.0);
    w.elements.threshold_y[1] = bits(0.9);
    let mut queue = EventQueue::with_capacity(4);
    let moved = step(&mut w, &mut queue, 1, 4, 5);
    assert!(moved);
    assert_eq!(at(&w, 4, 7), ELEMENT_MIN + 1);
    assert_eq!(at(&w, 4, 5), ELEMENT_MIN);
    assert_eq!(at(&w, 4, 6), 0);
    assert_eq!((w.elements.y[0], w.elements.y[1]), (5, 7));
    assert_consistent(&w, &[ELEMENT_MIN, ELEMENT_MIN + 1]);
}

#[test]
fn walk_after_a_fall_exchanges_from_the_cell_where_the_mover_stands() {
    let mut w = world(8, 8);
    for x in 0..8 {
        w.cells[(6 * 8 + x) as usize] = 1;
    }
    put(&mut w, 0, 2, 4, WATER, 100.0);
    put(&mut w, 1, 1, 5, STEAM, 50.0);
    put(&mut w, 2, 3, 5, STEAM, 50.0);
    w.elements.velocity_y[0] = bits(120.0);
    w.elements.threshold_y[0] = bits(0.9);
    let mut queue = EventQueue::with_capacity(4);
    let moved = step(&mut w, &mut queue, 0, 2, 4);
    assert!(moved);
    assert_eq!(at(&w, 2, 5), 0);
    let steam_back = at(&w, 2, 4);
    assert!(steam_back == ELEMENT_MIN + 1 || steam_back == ELEMENT_MIN + 2);
    assert!(at(&w, 1, 5) == ELEMENT_MIN || at(&w, 3, 5) == ELEMENT_MIN);
    assert_consistent(&w, &[ELEMENT_MIN, ELEMENT_MIN + 1, ELEMENT_MIN + 2]);
}

#[test]
fn region_sweep_keeps_the_world_consistent() {
    let mut w = world(16, 24);
    for x in 0..16 {
        w.cells[(23 * 16 + x) as usize] = 1;
    }
    let mut ids: Vec<u32> = Vec::new();
    let mut slot = 0usize;
    for y in 14..23 {
        for x in 5..11 {
            put(&mut w, slot, x, y, WATER, 100.0);
            ids.push(ELEMENT_MIN + slot as u32);
            slot += 1;
        }
    }
    for x in 6..10 {
        put(&mut w, slot, x, 4, SAND, 150.0);
        w.elements.velocity_y[slot] = bits(300.0);
        ids.push(ELEMENT_MIN + slot as u32);
        slot += 1;
    }
    let mut rng = Rng::new(11);
    let mut marks = Marks::new();
    for tick in 0..120 {
        for s in 0..slot {
            w.elements.has_been_updated[s] = 0;
        }
        marks.clear();
        update_region(&mut w, &table(), &mut NullSink, &mut rng, &mut marks, 0, 0, 16, 24, tick % 2 == 0, Frame::sixtieth());
        assert_consistent(&w, &ids);
    }
}

#[test]
fn machine_owned_element_is_left_exactly_as_it_was() {
    let mut w = world(8, 8);
    put(&mut w, 0, 4, 4, SAND, 150.0);
    w.elements.skip_physics[0] = 2;
    let before = w.cells.clone();
    let mut queue = EventQueue::with_capacity(4);
    assert!(!step(&mut w, &mut queue, 0, 4, 4));
    assert_eq!(w.cells, before);
    assert_eq!(w.elements.velocity_y[0], 0);
    assert_eq!(w.chunk_dirty_next[0], 0);
}

#[test]
fn region_counts_cells_with_elements_and_lists_the_moved() {
    let mut w = world(8, 16);
    put(&mut w, 0, 2, 2, SAND, 150.0);
    put(&mut w, 1, 5, 2, SAND, 150.0);
    w.elements.velocity_y[1] = bits(300.0);
    w.elements.threshold_y[1] = bits(0.9);
    let mut queue = EventQueue::with_capacity(4);
    let mut rng = Rng::new(3);
    let mut marks = Marks::new();
    let touched = update_region(&mut w, &table(), &mut queue, &mut rng, &mut marks, 0, 0, 8, 16, true, Frame::sixtieth());
    assert_eq!(touched, 2);
    assert_eq!(marks.slots(), &[1]);
    let empty = update_region(&mut w, &table(), &mut NullSink, &mut rng, &mut marks, 0, 5, 8, 5, false, Frame::sixtieth());
    assert_eq!(empty, 0);
}

// ---- queue, sinks and the session ------------------------------------------

#[test]
fn queue_counts_what_does_not_fit() {
    let mut q = EventQueue::with_capacity(1);
    q.push(Event::Moved { from: (0, 0), to: (0, 1) });
    q.push(Event::NeedsJs { x: 1, y: 2, why: Why::Reaction });
    assert_eq!(q.len(), 1);
    assert_eq!(q.overflowed(), 1);
    assert_eq!(q.events(), &[Event::Moved { from: (0, 0), to: (0, 1) }]);
    q.clear();
    assert!(q.is_empty());
    assert_eq!(q.overflowed(), 0);
}

#[test]
fn defer_sink_writes_pairs_while_there_is_room() {
    let mut s = DeferSink { buffer: vec![0; 4], written: 0 };
    s.push(Event::NeedsJs { x: 1, y: 2, why: Why::Duration });
    s.push(Event::Moved { from: (0, 0), to: (0, 1) });
    s.push(Event::NeedsJs { x: 3, y: 4, why: Why::Stagnant });
    s.push(Event::NeedsJs { x: 5, y: 6, why: Why::Reaction });
    assert_eq!(s.buffer, vec![1, 2, 3, 4]);
    assert_eq!(s.written, 2);
}

#[test]
fn matter_codes_follow_the_games_enumeration() {
    assert_eq!(matter_from_code(1), Matter::Solid);
    assert_eq!(matter_from_code(2), Matter::Liquid);
    assert_eq!(matter_from_code(3), Matter::Other);
    assert_eq!(matter_from_code(4), Matter::Gas);
    assert_eq!(matter_from_code(5), Matter::Inert);
    assert_eq!(matter_from_code(6), Matter::Slushy);
    assert_eq!(matter_from_code(7), Matter::Other);
    assert_eq!(matter_from_code(8), Matter::Inert);
    assert_eq!(matter_from_code(99), Matter::Other);
    assert_eq!(reason_code(Reason::UnknownMatter), 1);
    assert_eq!(reason_code(Reason::ModHook), 2);
    assert_eq!(reason_code(Reason::Structure), 3);
    assert_eq!(reason_code(Reason::Duration), 4);
}

#[test]
fn chunk_cells_are_cut_at_the_edge() {
    assert_eq!(chunk_cells_of(40, 100, 50, 2, 1), Some((80, 40, 100, 50)));
    assert_eq!(chunk_cells_of(40, 100, 50, 3, 0), None);
    assert_eq!(chunk_cells_of(0, 100, 50, 1, 1), None);
}

#[test]
fn session_takes_plain_chunks_and_caches_the_verdict() {
    let mut w = world(80, 40);
    put(&mut w, 0, 4, 4, SAND, 150.0);
    let mut core = Core::new(80, 40, 40);
    core.set_matter(SAND as u32, 1, bits(1.0));
    assert_eq!(core.table.matter(SAND), Matter::Solid);
    let gate = Gate { mod_hooks: &[], block_types: &[], block_width: 0, block_scale: 4 };
    let mut sink = DeferSink { buffer: vec![0; 8], written: 0 };
    let mut rng = Rng::new(1);
    let mut marks = Marks::new();
    let r = core.update_chunk(&mut w, &gate, &mut sink, &mut rng, &mut marks, 0, 0, 0, Frame::sixtieth());
    assert_eq!(r, ChunkResult { native: true, touched: 1, deferred: 0, reason: 0 });
    let again = core.update_chunk(&mut w, &gate, &mut sink, &mut rng, &mut marks, 0, 0, 1, Frame::sixtieth());
    assert!(again.native);
    assert_eq!(core.stats(), vec![2, 0, 0, 0, 2, 1, 0]);
    let outside = core.update_chunk(&mut w, &gate, &mut sink, &mut rng, &mut marks, 5, 0, 2, Frame::sixtieth());
    assert_eq!(outside, ChunkResult { native: false, touched: 0, deferred: 0, reason: 1 });
    core.reset_stats();
    assert_eq!(core.stats(), vec![0; 7]);
}

#[test]
fn session_gives_back_hooked_and_unknown_chunks() {
    let mut w = world(80, 40);
    put(&mut w, 0, 4, 4, SAND, 150.0);
    put(&mut w, 1, 44, 4, 200, 150.0);
    let mut core = Core::new(80, 40, 40);
    core.set_matter(SAND as u32, 1, bits(1.0));
    let mut hooks = vec![0u8; 256];
    hooks[SAND as usize] = 1;
    let gate = Gate { mod_hooks: &hooks, block_types: &[], block_width: 0, block_scale: 4 };
    let mut sink = DeferSink { buffer: vec![0; 8], written: 0 };
    let mut rng = Rng::new(1);
    let mut marks = Marks::new();
    let hooked = core.update_chunk(&mut w, &gate, &mut sink, &mut rng, &mut marks, 0, 0, 0, Frame::sixtieth());
    assert_eq!(hooked, ChunkResult { native: false, touched: 0, deferred: 0, reason: 2 });
    let unknown = core.update_chunk(&mut w, &gate, &mut sink, &mut rng, &mut marks, 1, 0, 0, Frame::sixtieth());
    assert_eq!(unknown, ChunkResult { native: false, touched: 0, deferred: 0, reason: 1 });
    assert_eq!(core.stats(), vec![0, 1, 1, 0, 0, 0, 0]);
    assert_eq!(at(&w, 4, 4), ELEMENT_MIN, "a chunk given back is not touched");
}

#[test]
fn session_writes_deferred_cells_for_the_old_code() {
    let mut w = world(40, 40);
    put(&mut w, 0, 4, 4, SAND, 150.0);
    w.elements.has_duration[0] = 1;
    w.elements.duration_left[0] = bits(0.001);
    let mut core = Core::new(40, 40, 40);
    core.set_matter(SAND as u32, 1, bits(1.0));
    let gate = Gate { mod_hooks: &[], block_types: &[], block_width: 0, block_scale: 4 };
    let mut sink = DeferSink { buffer: vec![0; 8], written: 3 };
    let mut rng = Rng::new(1);
    let mut marks = Marks::new();
    let r = core.update_chunk(&mut w, &gate, &mut sink, &mut rng, &mut marks, 0, 0, 0, Frame::sixtieth());
    assert_eq!(r, ChunkResult { native: true, touched: 1, deferred: 1, reason: 0 });
    assert_eq!(&sink.buffer[..2], &[4, 4]);
}

// ---- snapshots ----------------------------------------------------------------

fn record(i: u32, kind: u32, density: f32) -> Element {
    Element {
        i,
        kind,
        velocity_x: 0,
        velocity_y: bits(1.5),
        min_velocity_y: 0,
        threshold_x: 0,
        threshold_y: 0,
        density: bits(density),
        is_free_falling: 1,
        skip_physics: 0,
        x: 70_000,
        y: 3,
        last_side_checked: -2,
        moves_y_axis: 3,
        moves_y_axis_count: 9,
    }
}

#[test]
fn snapshot_lays_records_into_their_slots() {
    let dump = Dump {
        world: WorldMeta { chunk_size: 4 },
        region: Region { w: 10, h: 5 },
        counts: Counts { cells: 50, non_empty: 2, elements: 2 },
        cells: vec![0; 50],
        elements: vec![record(2, 258, 100.0), record(0, SAND as u32, 150.0), record(2, WATER as u32, 90.0)],
    };
    assert_eq!(highest_slot_of(&dump.elements), 2);
    let s = State::from_dump(&dump);
    assert_eq!(s.elements.kind, vec![SAND, 0, WATER], "a later record of a slot wins");
    assert_eq!(s.elements.velocity_y[0], bits(1.5));
    assert_eq!(s.elements.x[0], (70_000u32 % 65_536) as u16, "narrow fields keep the low bits");
    assert_eq!(s.elements.last_side_checked[2], -2);
    assert_eq!(s.terrain_type.len(), 1001);
    assert_eq!(s.terrain_type[255], 255);
    let t = default_table(&s);
    assert_eq!(t.matter(SAND), Matter::Solid);
    assert_eq!(t.matter(WATER), Matter::Liquid);
    assert_eq!(t.matter(0), Matter::Other);
    assert_eq!(t.matter(7), Matter::Other);
    let w = s.world(dump.region, dump.world.chunk_size);
    assert_eq!((w.chunk_width, w.chunk_height), (3, 2));
    assert_eq!(w.chunk_should_update, vec![1; 6]);
    assert_eq!(w.chunk_dirty_next, vec![0; 6]);
}

#[test]
fn guessed_table_takes_up_to_a_hundred_and_twenty_for_liquid() {
    let dump = Dump {
        world: WorldMeta { chunk_size: 4 },
        region: Region { w: 1, h: 1 },
        counts: Counts { cells: 1, non_empty: 0, elements: 2 },
        cells: vec![0],
        elements: vec![record(0, 9, 120.0), record(1, 10, 120.5)],
    };
    let t = default_table(&State::from_dump(&dump));
    assert_eq!(t.matter(9), Matter::Liquid);
    assert_eq!(t.matter(10), Matter::Solid);
}

#[test]
fn hash_is_the_fnv_fold_of_the_cells() {
    let mut h: u64 = 0xcbf2_9ce4_8422_2325;
    for c in [7u32, 0, 1_000_001] {
        h ^= c as u64;
        h = h.wrapping_mul(0x100_0000_01b3);
    }
    assert_eq!(hash_cells(&[7, 0, 1_000_001]), h);
    assert_eq!(hash_cells(&[]), 0xcbf2_9ce4_8422_2325);
}

#[test]
fn carving_clears_the_lower_middle() {
    let dump = Dump {
        world: WorldMeta { chunk_size: 4 },
        region: Region { w: 8, h: 4 },
        counts: Counts { cells: 32, non_empty: 32, elements: 0 },
        cells: vec![15; 32],
        elements: vec![],
    };
    let mut s = State::from_dump(&dump);
    s.carve(dump.region);
    for y in 0..4 {
        for x in 0..8 {
            let want = if y >= 2 && (2..6).contains(&x) { 0 } else { 15 };
            assert_eq!(s.cells[y * 8 + x], want, "cell ({x}, {y})");
        }
    }
    assert_eq!(s.hash(), hash_cells(&s.cells));
}

// ---- laws on concrete worlds -------------------------------------------------

#[test]
fn report_wakes_the_side_neighbours_but_no_diagonal() {
    let mut w = world(80, 80);
    w.report_to_chunk(39, 39);
    assert_eq!(w.chunk_dirty_next, vec![1, 1, 1, 0], "right and below woken, the diagonal not");
    let mut v = world(80, 80);
    v.report_to_chunk(20, 20);
    assert_eq!(v.chunk_dirty_next, vec![1, 0, 0, 0]);
}

#[test]
fn move_carries_the_element_and_its_fields() {
    let mut w = world(8, 8);
    put(&mut w, 3, 1, 1, SAND, 150.0);
    w.move_element(3, (1, 1), (6, 5));
    assert_eq!(at(&w, 6, 5), ELEMENT_MIN + 3);
    assert_eq!(at(&w, 1, 1), 0);
    assert_eq!((w.elements.x[3], w.elements.y[3]), (6, 5));
    assert_eq!(w.changed, vec![5 * 8 + 6, 8 + 1]);
}

#[test]
fn swap_exchanges_two_elements() {
    let mut w = world(8, 8);
    put(&mut w, 0, 2, 2, SAND, 150.0);
    put(&mut w, 1, 2, 3, WATER, 100.0);
    w.elements.velocity_y[0] = bits(100.0);
    w.swap_elements(0, 1, (2, 2), (2, 3));
    assert_eq!(at(&w, 2, 2), ELEMENT_MIN + 1);
    assert_eq!(at(&w, 2, 3), ELEMENT_MIN);
    assert_eq!((w.elements.y[0], w.elements.y[1]), (3, 2));
    assert_eq!(w.elements.velocity_y[0], bits(60.0));
}

#[test]
fn structure_test_stays_within_the_columns_of_the_grid() {
    let mut w = world(16, 16);
    put(&mut w, 0, 13, 1, SAND, 150.0);
    // A grid of 4x4 tiles of 4 cells; the only machine on tile (0, 1).
    let mut blocks = vec![0u8; 16];
    blocks[4] = 7;
    let gate = Gate { mod_hooks: &[], block_types: &blocks, block_width: 4, block_scale: 4 };
    assert_eq!(inspect(&w, &table(), &gate, 12, 0, 16, 4), Verdict::Native);
    // A machine on the last column of the chunk's own row is near.
    let mut blocks = vec![0u8; 16];
    blocks[3] = 7;
    let gate = Gate { mod_hooks: &[], block_types: &blocks, block_width: 4, block_scale: 4 };
    assert_eq!(inspect(&w, &table(), &gate, 12, 0, 16, 4), Verdict::Skip(Reason::Structure));
}

#[test]
fn queue_keeps_the_first_events_in_order_and_counts_the_rest() {
    let mut q = EventQueue::with_capacity(3);
    for i in 0..5 {
        q.push(Event::NeedsJs { x: i, y: 0, why: Why::Stagnant });
    }
    assert_eq!(q.len(), 3);
    assert_eq!(q.overflowed(), 2);
    assert_eq!(
        q.events(),
        &[
            Event::NeedsJs { x: 0, y: 0, why: Why::Stagnant },
            Event::NeedsJs { x: 1, y: 0, why: Why::Stagnant },
            Event::NeedsJs { x: 2, y: 0, why: Why::Stagnant },
        ]
    );
}

#[test]
fn verdict_is_served_lifetime_times() {
    let mut c = VerdictCache::new(2, 3);
    c.put(0, Verdict::Native);
    let got: Vec<Option<Verdict>> = (0..5).map(|_| c.get(0)).collect();
    assert_eq!(got, vec![Some(Verdict::Native), Some(Verdict::Native), Some(Verdict::Native), None, None]);
}

#[test]
fn cache_gives_back_what_was_put_until_it_ages() {
    let mut c = VerdictCache::new(4, 2);
    assert_eq!(c.get(1), None);
    c.put(1, Verdict::Skip(Reason::Structure));
    assert_eq!(c.get(1), Some(Verdict::Skip(Reason::Structure)));
    assert_eq!(c.get(1), Some(Verdict::Skip(Reason::Structure)));
    assert_eq!(c.get(1), None, "a verdict is served for its lifetime only");
    c.put(2, Verdict::Native);
    c.clear();
    assert_eq!(c.get(2), None);
    c.put(9, Verdict::Native);
    assert_eq!(c.get(9), None);
}

#[test]
fn every_verdict_is_counted_once() {
    let mut s = Stats::default();
    s.record(Verdict::Native);
    s.record(Verdict::Skip(Reason::ModHook));
    s.record(Verdict::Skip(Reason::ModHook));
    assert_eq!(s.total_chunks(), 3);
    assert_eq!((s.native_chunks, s.skipped_hooks, s.skipped_unknown), (1, 2, 0));
}

#[test]
fn reactions_are_symmetric() {
    let mut t = MatterTable::new();
    t.set_reaction(3, 9);
    assert!(t.reacts(9, 3));
    assert!(t.reacts(3, 9));
    assert!(!t.reacts(3, 4));
    t.set_reactive(4, true, true);
    assert!(t.reacts(7, 4));
    assert!(t.self_reactive(4) && t.reactive(4));
    t.set_max_velocity_y(4, bits(240.0));
    assert_eq!(t.max_velocity_y(4), bits(240.0));
    assert_eq!(t.horizontal_speed(4), bits(1.0));
}

#[test]
fn generator_never_stalls() {
    let mut r = Rng::new(0);
    for _ in 0..1000 {
        assert_ne!(r.next(), 0);
    }
}

#[test]
fn native_chunk_holds_only_known_types() {
    let mut w = world(16, 16);
    put(&mut w, 0, 4, 4, SAND, 150.0);
    let gate = Gate { mod_hooks: &[], block_types: &[], block_width: 0, block_scale: 4 };
    assert_eq!(inspect(&w, &table(), &gate, 0, 0, 16, 16), Verdict::Native);
    put(&mut w, 1, 5, 5, 77, 150.0);
    assert_eq!(inspect(&w, &table(), &gate, 0, 0, 16, 16), Verdict::Skip(Reason::UnknownMatter));
    assert_eq!(inspect(&w, &table(), &gate, 0, 0, 5, 5), Verdict::Native);
}

#[test]
fn window_is_the_chunk_shifted_by_the_margin_and_cut_at_the_edge() {
    let w = world(100, 50);
    assert_eq!(window(&w, 1, 0, 5, 3), Window { x0: 45, y0: 0, x1: 85, y1: 43 });
    let edge = window(&w, 2, 1, 5, 3);
    assert_eq!(edge, Window { x0: 85, y0: 43, x1: 100, y1: 50 });
    assert!(!edge.is_empty());
    assert!(window(&w, 3, 0, 5, 3).is_empty(), "a chunk past the edge has no cells");
}

#[test]
fn sleeping_chunk_is_taken_only_where_the_margin_reaches_an_awake_one() {
    let mut w = world(120, 80);
    w.chunk_should_update = vec![0, 1, 0, 0, 0, 0];
    assert!(should_process(&w, 1, 0, 0, 0));
    assert!(should_process(&w, 0, 0, 5, 0));
    assert!(!should_process(&w, 0, 0, 0, 0));
    assert!(!should_process(&w, 0, 1, 5, 0));
    assert!(should_process_in_column(&w, 2, 0, -5));
    assert!(!should_process_in_column(&w, 2, 0, 5));
    assert!(!should_process_in_column(&w, 2, 0, 0));
}
