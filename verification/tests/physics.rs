//! Behaviour of the physics on small worlds: sand falls, water flows, gas
//! rises, and the game's conventions hold (a flag of the game is not
//! touched, a sleeping chunk is not simulated, reactions go back to the game).

use sand_sim::chunk::{inspect, Gate, Reason, Verdict};
use sand_sim::events::{Event, EventQueue};
use sand_sim::physics::{update_element_cell, update_region, Frame, Marks, Matter, MatterTable, Rng};
use sand_sim::view::{skip, Elements, World, ELEMENT_MIN};

/// Element types in these tests play the same roles as in the game.
const SAND: u8 = 1;
const WATER: u8 = 2;
const STEAM: u8 = 3;
const WET_SAND: u8 = 4;
/// A type with a reaction: a collision with it has to go back to the game.
const LAVA: u8 = 5;

/// A small world: the grid and the fields of a few hundred elements.
struct Bench {
    world: World,
    next: u32,
}

fn bits(v: f32) -> u32 {
    v.to_bits()
}

fn float(b: u32) -> f32 {
    f32::from_bits(b)
}

impl Bench {
    fn new(w: i32, h: i32) -> Self {
        let cap = 512;
        let chunks = (((w + 39) / 40) * ((h + 39) / 40)) as usize;
        Bench {
            world: World {
                width: w,
                height: h,
                chunk_size: 40,
                cells: vec![0; (w * h) as usize],
                elements: Elements {
                    kind: vec![0; cap],
                    velocity_x: vec![0; cap],
                    velocity_y: vec![0; cap],
                    min_velocity_x: vec![0; cap],
                    min_velocity_y: vec![0; cap],
                    threshold_x: vec![0; cap],
                    threshold_y: vec![0; cap],
                    density: vec![0; cap],
                    is_free_falling: vec![0; cap],
                    has_been_updated: vec![0; cap],
                    skip_physics: vec![0; cap],
                    has_duration: vec![0; cap],
                    duration_left: vec![0; cap],
                    x: vec![0; cap],
                    y: vec![0; cap],
                    last_side_checked: vec![0; cap],
                    moves_y_axis: vec![0; cap],
                    moves_y_axis_count: vec![0; cap],
                },
                // Every chunk is awake: a sleeping chunk has a test of its own.
                chunk_should_update: vec![1; chunks.max(1)],
                chunk_dirty_next: vec![0; chunks.max(1)],
                chunk_width: (w + 39) / 40,
                chunk_height: (h + 39) / 40,
                terrain_type: (0..=1000u32).map(|i| i as u8).collect(),
                changed: Vec::new(),
            },
            next: 0,
        }
    }

    fn put(&mut self, x: i32, y: i32, kind: u8, density: f32) -> usize {
        let slot = self.next as usize;
        self.next += 1;
        let e = &mut self.world.elements;
        e.kind[slot] = kind;
        e.density[slot] = bits(density);
        e.x[slot] = x as u16;
        e.y[slot] = y as u16;
        self.world.cells[(y * self.world.width + x) as usize] = ELEMENT_MIN + slot as u32;
        slot
    }

    fn terrain(&mut self, x: i32, y: i32) {
        // 15 is a block: nothing passes through it.
        self.world.cells[(y * self.world.width + x) as usize] = 15;
    }

    fn at(&self, x: i32, y: i32) -> u32 {
        self.world.cells[(y * self.world.width + x) as usize]
    }

    fn find(&self, slot: usize) -> Option<(i32, i32)> {
        let want = ELEMENT_MIN + slot as u32;
        (0..self.world.height).find_map(|y| {
            (0..self.world.width).find_map(|x| if self.at(x, y) == want { Some((x, y)) } else { None })
        })
    }

    /// Run some ticks. The "simulated" flags are cleared between ticks, as
    /// the game does from its own list, into which ours goes too.
    fn run(&mut self, table: &MatterTable, ticks: u64) -> EventQueue {
        let (w, h) = (self.world.width, self.world.height);
        let mut queue = EventQueue::with_capacity(1 << 16);
        let mut rng = Rng::new(12345);
        let mut marks = Marks::new();
        for t in 0..ticks {
            marks.clear();
            update_region(
                &mut self.world,
                table,
                &mut queue,
                &mut rng,
                &mut marks,
                0,
                0,
                w,
                h,
                t % 2 == 0,
                Frame::sixtieth(),
            );
            self.world.elements.has_been_updated.fill(0);
        }
        queue
    }

    fn cell(&mut self, table: &MatterTable, queue: &mut EventQueue, rng: &mut Rng, marks: &mut Marks, slot: usize, x: i32, y: i32) -> bool {
        update_element_cell(&mut self.world, table, queue, rng, marks, slot, x, y, Frame::sixtieth())
    }
}

/// A matter table with the roles and densities of the real game.
fn table() -> MatterTable {
    let mut t = MatterTable::new();
    t.set(SAND, Matter::Solid, bits(1.0));
    t.set(WATER, Matter::Liquid, bits(1.0));
    t.set(STEAM, Matter::Gas, bits(1.0));
    t.set(WET_SAND, Matter::Slushy, bits(1.0));
    t.set(LAVA, Matter::Liquid, bits(0.1));
    t.set_reactive(LAVA, true, false);
    t
}

// ---- movement ------------------------------------------------------------

#[test]
fn sand_falls_to_the_floor() {
    let mut b = Bench::new(8, 32);
    for x in 0..8 {
        b.terrain(x, 31);
    }
    let s = b.put(4, 0, SAND, 150.0);
    b.run(&table(), 60);
    assert_eq!(b.find(s), Some((4, 30)), "the grain has to lie on the terrain");
    assert_eq!(b.at(4, 0), 0, "and not stay on top");
}

#[test]
fn position_fields_follow_the_cell() {
    // The element's position fields travel with its cell: machines,
    // conveyors and saving rely on them.
    let mut b = Bench::new(8, 32);
    for x in 0..8 {
        b.terrain(x, 31);
    }
    let s = b.put(4, 0, SAND, 150.0);
    b.run(&table(), 60);
    let e = &b.world.elements;
    assert_eq!((e.x[s] as i32, e.y[s] as i32), (4, 30), "the position fields parted from the grid");
}

#[test]
fn sand_spreads_after_landing() {
    // A solid spreads not by a diagonal step but by the sideways speed a hit
    // gives it: a column of sand has to settle into a pile wider than a cell.
    let mut b = Bench::new(32, 40);
    for x in 0..32 {
        b.terrain(x, 39);
    }
    for y in 20..38 {
        b.put(16, y, SAND, 150.0);
    }
    b.run(&table(), 240);
    let width = (0..32).filter(|&x| b.at(x, 38) >= ELEMENT_MIN).count();
    assert!(width > 1, "the pile has to spread, it stayed a column {width} wide");
}

#[test]
fn water_spreads_wider_than_sand() {
    let mut b = Bench::new(40, 12);
    for x in 0..40 {
        b.terrain(x, 11);
    }
    for y in 4..11 {
        b.put(20, y, WATER, 100.0);
    }
    b.run(&table(), 120);
    let width = (0..40).filter(|&x| b.at(x, 10) >= ELEMENT_MIN).count();
    assert!(width > 3, "water has to flow along the bottom, it took only {width} cells");
}

#[test]
fn water_stays_above_the_floor() {
    let mut b = Bench::new(16, 16);
    for x in 0..16 {
        b.terrain(x, 15);
    }
    let s = b.put(8, 2, WATER, 100.0);
    b.run(&table(), 120);
    let (_, y) = b.find(s).expect("water must not vanish");
    assert!(y <= 14, "water fell into the terrain: y = {y}");
}

#[test]
fn gas_rises() {
    let mut b = Bench::new(16, 24);
    for x in 0..16 {
        b.terrain(x, 23);
    }
    let s = b.put(8, 20, STEAM, 25.0);
    b.run(&table(), 60);
    let (_, y) = b.find(s).expect("steam must not vanish");
    assert!(y < 20, "gas has to rise, it stayed at y = {y}");
}

#[test]
fn heavier_sinks_through_lighter() {
    let mut b = Bench::new(8, 16);
    for x in 0..8 {
        b.terrain(x, 15);
    }
    for y in 8..15 {
        b.put(4, y, WATER, 100.0);
    }
    let sand = b.put(4, 4, SAND, 150.0);
    b.run(&table(), 240);
    let (_, y) = b.find(sand).expect("the grain must not vanish");
    assert!(y > 12, "the heavy has to sink through the light, it stayed at y = {y}");
}

#[test]
fn wet_sand_holds_a_steeper_pile_than_dry() {
    // A slush gets twice the sideways speed from a hit but spends it more
    // slowly. What is checked is that both piles settle.
    let mut dry = Bench::new(40, 40);
    let mut wet = Bench::new(40, 40);
    for x in 0..40 {
        dry.terrain(x, 39);
        wet.terrain(x, 39);
    }
    for y in 20..38 {
        dry.put(20, y, SAND, 150.0);
        wet.put(20, y, WET_SAND, 150.0);
    }
    dry.run(&table(), 240);
    wet.run(&table(), 240);
    let dry_w = (0..40).filter(|&x| dry.at(x, 38) >= ELEMENT_MIN).count();
    let wet_w = (0..40).filter(|&x| wet.at(x, 38) >= ELEMENT_MIN).count();
    assert!(dry_w > 1 && wet_w > 1, "both piles have to settle: dry {dry_w}, wet {wet_w}");
}

// ---- the game's conventions -----------------------------------------------

#[test]
fn element_marked_by_the_game_is_left_alone() {
    // An element the game simulated in this frame must not be touched a
    // second time in the tick, or it travels twice as far.
    let mut b = Bench::new(8, 32);
    for x in 0..8 {
        b.terrain(x, 31);
    }
    let s = b.put(4, 4, SAND, 150.0);
    b.world.elements.has_been_updated[s] = 1;

    let mut queue = EventQueue::with_capacity(16);
    let mut rng = Rng::new(1);
    let mut marks = Marks::new();
    b.cell(&table(), &mut queue, &mut rng, &mut marks, s, 4, 4);

    assert_eq!(b.find(s), Some((4, 4)), "an element marked by the game must not move");
}

#[test]
fn moved_element_is_reported_back() {
    // The other side of the same rule: an element we moved goes into the
    // list, or nobody clears its flag and it sticks for ever.
    let mut b = Bench::new(8, 32);
    for x in 0..8 {
        b.terrain(x, 31);
    }
    let s = b.put(4, 4, SAND, 150.0);
    b.world.elements.velocity_y[s] = bits(300.0);
    b.world.elements.threshold_y[s] = bits(0.9);

    let mut queue = EventQueue::with_capacity(16);
    let mut rng = Rng::new(1);
    let mut marks = Marks::new();
    let moved = b.cell(&table(), &mut queue, &mut rng, &mut marks, s, 4, 4);

    assert!(moved, "an element with speed gathered has to move");
    assert_eq!(marks.slots(), &[s as u32], "a moved element has to be listed");
    assert_eq!(b.world.elements.has_been_updated[s], 1, "and marked as simulated");
}

#[test]
fn sleeping_chunk_is_not_simulated() {
    // A cell of the margin strip is simulated only if its own chunk is awake
    // in this frame.
    let mut b = Bench::new(8, 32);
    for x in 0..8 {
        b.terrain(x, 31);
    }
    let s = b.put(4, 4, SAND, 150.0);
    b.world.chunk_should_update.fill(0);

    let mut queue = EventQueue::with_capacity(16);
    let mut rng = Rng::new(1);
    let mut marks = Marks::new();
    b.cell(&table(), &mut queue, &mut rng, &mut marks, s, 4, 4);

    assert_eq!(b.find(s), Some((4, 4)), "a cell of a sleeping chunk must not move");
}

#[test]
fn falling_element_wakes_its_chunk() {
    // While a grain only gathers speed it goes nowhere, but its chunk has to
    // stay awake, or the physics stops until something wakes it.
    let mut b = Bench::new(8, 32);
    let s = b.put(4, 4, SAND, 150.0);

    let mut queue = EventQueue::with_capacity(16);
    let mut rng = Rng::new(1);
    let mut marks = Marks::new();
    b.cell(&table(), &mut queue, &mut rng, &mut marks, s, 4, 4);

    assert_eq!(b.world.chunk_dirty_next[0], 1, "the chunk of a falling grain has to wake");
}

#[test]
fn reaction_goes_back_to_js() {
    // The core never computes a reaction: secondary products, sound and
    // production scores follow it.
    let mut b = Bench::new(8, 16);
    for x in 0..8 {
        b.terrain(x, 15);
    }
    b.put(4, 8, LAVA, 300.0);
    let water = b.put(4, 7, WATER, 100.0);
    b.world.elements.velocity_y[water] = bits(300.0);
    b.world.elements.threshold_y[water] = bits(0.9);

    let mut queue = EventQueue::with_capacity(16);
    let mut rng = Rng::new(1);
    let mut marks = Marks::new();
    b.cell(&table(), &mut queue, &mut rng, &mut marks, water, 4, 7);

    assert!(
        queue.events().iter().any(|e| matches!(e, Event::NeedsJs { .. })),
        "a collision of reacting types has to go back to the game"
    );
}

#[test]
fn unknown_matter_goes_back_to_js() {
    // Whatever the core does not know has to go back to the old code, not
    // stay unprocessed.
    let mut b = Bench::new(8, 8);
    b.put(4, 4, 200, 1000.0); // a type missing from the table
    let queue = b.run(&table(), 1);
    assert!(
        queue.events().iter().any(|e| matches!(e, Event::NeedsJs { .. })),
        "an unknown matter has to go back to the game"
    );
}

#[test]
fn machine_owned_element_is_not_touched() {
    // `skipPhysics = AGGRESSIVE` means a machine took the element.
    let mut b = Bench::new(8, 32);
    let s = b.put(4, 4, SAND, 150.0);
    b.world.elements.skip_physics[s] = skip::AGGRESSIVE;
    b.run(&table(), 60);
    assert_eq!(b.find(s), Some((4, 4)), "an element held by a machine must not move");
}

// ---- chunk selection -------------------------------------------------------

fn open_gate() -> Gate<'static> {
    Gate { mod_hooks: &[], block_types: &[], block_width: 0, block_scale: 4 }
}

#[test]
fn plain_chunk_goes_native() {
    let mut b = Bench::new(16, 16);
    b.put(4, 4, SAND, 150.0);
    let t = table();
    assert_eq!(inspect(&b.world, &t, &open_gate(), 0, 0, 16, 16), Verdict::Native);
}

#[test]
fn chunk_with_mod_hook_goes_back_to_js() {
    let mut b = Bench::new(16, 16);
    b.put(4, 4, SAND, 150.0);
    let t = table();
    // A mod's hook listens on the type of sand.
    let mut hooks = vec![0u8; 256];
    hooks[SAND as usize] = 1;
    let gate = Gate { mod_hooks: &hooks, block_types: &[], block_width: 0, block_scale: 4 };
    assert_eq!(
        inspect(&b.world, &t, &gate, 0, 0, 16, 16),
        Verdict::Skip(Reason::ModHook),
        "a cell with a mod hook must not be touched by the core"
    );
}

#[test]
fn chunk_with_structure_goes_back_to_js() {
    let mut b = Bench::new(16, 16);
    b.put(4, 4, SAND, 150.0);
    let t = table();
    // A grid of 4x4 structure tiles, a machine in one of them.
    let mut blocks = vec![0u8; 16];
    blocks[5] = 7;
    let gate = Gate { mod_hooks: &[], block_types: &blocks, block_width: 4, block_scale: 4 };
    assert_eq!(inspect(&b.world, &t, &gate, 0, 0, 16, 16), Verdict::Skip(Reason::Structure));
}

#[test]
fn running_timer_keeps_physics_and_ticks_down() {
    // While a timer runs, the element lives by the ordinary physics; handing
    // the whole chunk to the game for a timer would give away a third of a
    // lived-in world.
    let mut b = Bench::new(8, 32);
    for x in 0..8 {
        b.terrain(x, 31);
    }
    let s = b.put(4, 0, SAND, 150.0);
    b.world.elements.has_duration[s] = 1;
    b.world.elements.duration_left[s] = bits(10.0);

    b.run(&table(), 60);

    assert_eq!(b.find(s), Some((4, 30)), "an element with a running timer has to fall");
    let left = float(b.world.elements.duration_left[s]);
    assert!(left < 10.0, "and its timer has to tick: {}", left);
}

#[test]
fn expired_timer_goes_back_to_js() {
    // Once it ran out, what follows is not ours: a seed that grows, a fire
    // that dies, production scores and mod events.
    let mut b = Bench::new(8, 16);
    let s = b.put(4, 4, SAND, 150.0);
    b.world.elements.has_duration[s] = 1;
    b.world.elements.duration_left[s] = bits(0.001);

    let queue = b.run(&table(), 2);
    assert!(
        queue.events().iter().any(|e| matches!(e, Event::NeedsJs { .. })),
        "an expired timer has to go back to the game"
    );
}

#[test]
fn unknown_matter_keeps_the_chunk_in_js() {
    let mut b = Bench::new(16, 16);
    b.put(4, 4, 200, 1000.0); // a type missing from the table
    let t = table();
    assert_eq!(
        inspect(&b.world, &t, &open_gate(), 0, 0, 16, 16),
        Verdict::Skip(Reason::UnknownMatter)
    );
}
