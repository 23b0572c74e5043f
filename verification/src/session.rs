//! The core as the simulation worker drives it: one call per chunk that the
//! worker owns. A chunk is looked over first (with the verdict cached for a
//! while), and only a chunk with nothing beyond the core's reach is
//! simulated; the rest goes back to the old code whole.
use vstd::prelude::*;

use crate::chunk::{
    decode, encode, inspect, verdict_of, window_in_grid, Gate, Reason, Stats, Verdict, VerdictCache,
};
use crate::events::{lemma_took_none, took_all, Event, EventSink};
use crate::physics::update::{region_spec, tracks, Frame};
use crate::physics::{update_region, Marks, Matter, MatterTable, Rng};
use crate::single;
use crate::view::World;

verus! {

/// How many lookups a verdict is served for before the chunk is looked over
/// again.
pub const VERDICT_LIFETIME: u16 = 30;

/// What became of one chunk.
#[derive(Clone, Copy, Debug, PartialEq, Eq, Structural)]
pub struct ChunkResult {
    /// The core simulated the chunk whole.
    pub native: bool,
    /// Cells with an element simulated (0 if the chunk went back).
    pub touched: u32,
    /// Cells written to the buffer of the old code, which has to finish
    /// them.
    pub deferred: u32,
    /// Why the chunk was not taken: 0 taken, 1 unknown matter (or no cells
    /// at all), 2 a mod hook, 3 a structure nearby, 4 a timer.
    pub reason: u32,
}

/// The state of matter by the number of the game's enumeration: Solid 1,
/// Liquid 2, Gas 4, Static 5 and Powder 8 (which do not move), Slushy 6.
/// Particles (3), wisps (7) and anything else stay with the game: they have
/// ballistics and trajectories of their own.
pub open spec fn matter_of_code(code: u32) -> Matter {
    if code == 1 {
        Matter::Solid
    } else if code == 2 {
        Matter::Liquid
    } else if code == 4 {
        Matter::Gas
    } else if code == 5 || code == 8 {
        Matter::Inert
    } else if code == 6 {
        Matter::Slushy
    } else {
        Matter::Other
    }
}

pub fn matter_from_code(code: u32) -> (m: Matter)
    ensures
        m == matter_of_code(code),
{
    match code {
        1 => Matter::Solid,
        2 => Matter::Liquid,
        4 => Matter::Gas,
        5 | 8 => Matter::Inert,
        6 => Matter::Slushy,
        _ => Matter::Other,
    }
}

/// The number under which a reason is reported.
pub open spec fn reason_number(r: Reason) -> u32 {
    match r {
        Reason::UnknownMatter => 1,
        Reason::ModHook => 2,
        Reason::Structure => 3,
        Reason::Duration => 4,
    }
}

pub fn reason_code(r: Reason) -> (n: u32)
    ensures
        n == reason_number(r),
{
    match r {
        Reason::UnknownMatter => 1,
        Reason::ModHook => 2,
        Reason::Structure => 3,
        Reason::Duration => 4,
    }
}

/// A sink that writes the cells handed back to the old code into a buffer
/// of the game as pairs `x, y`, while there is room (and the count fits in
/// 32 bits). Moves are dropped: the
/// receiving side knows the chunk was done, and the list of every move of a
/// dense scene is tens of thousands of entries a tick that nobody reads.
pub struct DeferSink {
    pub buffer: Vec<i32>,
    pub written: u32,
}

impl EventSink for DeferSink {
    open spec fn took(&self, event: Event, after: &Self) -> bool {
        match event {
            Event::NeedsJs { x, y, .. } => {
                let i = 2 * self.written;
                if i + 1 < self.buffer@.len() && self.written < u32::MAX {
                    after.buffer@ == self.buffer@.update(i, x).update(i + 1, y) && after.written
                        == self.written + 1
                } else {
                    *after == *self
                }
            },
            _ => *after == *self,
        }
    }

    fn push(&mut self, event: Event) {
        if let Event::NeedsJs { x, y, .. } = event {
            let i = self.written as u64 * 2;
            if i + 1 < self.buffer.len() as u64 && self.written < u32::MAX {
                let i = i as usize;
                self.buffer.set(i, x);
                self.buffer.set(i + 1, y);
                self.written = self.written + 1;
            }
        }
    }
}

/// The core bound to one world: the dimensions, the matter table, the
/// statistics of the session and the cache of verdicts.
pub struct Core {
    pub width: i32,
    pub height: i32,
    pub chunk_size: i32,
    pub chunks_wide: i32,
    pub chunks_high: i32,
    pub table: MatterTable,
    pub stats: Stats,
    pub cache: VerdictCache,
}

/// Chunks along a side of `len` cells.
pub open spec fn chunks_over(len: int, chunk: int) -> int {
    (len + chunk - 1) / chunk
}

/// The cells of chunk `(cx, cy)`, cut at the edge of the world.
pub open spec fn chunk_cells(chunk_size: int, width: int, height: int, cx: int, cy: int) -> (int, int, int, int) {
    let x0 = cx * chunk_size;
    let y0 = cy * chunk_size;
    let x1 = if x0 + chunk_size < width {
        x0 + chunk_size
    } else {
        width
    };
    let y1 = if y0 + chunk_size < height {
        y0 + chunk_size
    } else {
        height
    };
    (x0, y0, x1, y1)
}

/// The cells of chunk `(cx, cy)`, cut at the edge of the world; none if
/// nothing is left of it.
pub fn chunk_cells_of(chunk_size: i32, width: i32, height: i32, cx: i32, cy: i32) -> (r: Option<
    (i32, i32, i32, i32),
>)
    requires
        i32::MIN <= cx * chunk_size <= i32::MAX,
        i32::MIN <= cx * chunk_size + chunk_size <= i32::MAX,
        i32::MIN <= cy * chunk_size <= i32::MAX,
        i32::MIN <= cy * chunk_size + chunk_size <= i32::MAX,
    ensures
        ({
            let (x0, y0, x1, y1) = chunk_cells(chunk_size as int, width as int, height as int, cx as int, cy as int);
            match r {
                Some((a, b, c, d)) => x0 < x1 && y0 < y1 && a == x0 && b == y0 && c == x1 && d == y1,
                None => x0 >= x1 || y0 >= y1,
            }
        }),
{
    let x0 = cx * chunk_size;
    let y0 = cy * chunk_size;
    let x1 = if x0 + chunk_size < width {
        x0 + chunk_size
    } else {
        width
    };
    let y1 = if y0 + chunk_size < height {
        y0 + chunk_size
    } else {
        height
    };
    if x0 >= x1 || y0 >= y1 {
        None
    } else {
        Some((x0, y0, x1, y1))
    }
}

impl Core {
    pub open spec fn wf(self) -> bool {
        &&& self.table.wf()
        &&& self.cache.wf()
    }

    /// The slot of chunk `(cx, cy)` in the cache; negative ones share 0.
    pub open spec fn slot_of(self, cx: int, cy: int) -> int {
        let s = cy * self.chunks_wide + cx;
        if s < 0 {
            0
        } else {
            s
        }
    }

    /// The dimensions of the world and its chunk size (a size below 1 counts
    /// as 1 for the number of chunks).
    pub fn new(width: i32, height: i32, chunk_size: i32) -> (c: Self)
        requires
            width >= 0,
            height >= 0,
            width + (if chunk_size > 1 { chunk_size } else { 1 }) <= i32::MAX,
            height + (if chunk_size > 1 { chunk_size } else { 1 }) <= i32::MAX,
            chunks_over(width as int, if chunk_size > 1 { chunk_size as int } else { 1 }) * chunks_over(
                height as int,
                if chunk_size > 1 { chunk_size as int } else { 1 },
            ) <= usize::MAX,
        ensures
            c.wf(),
            c.width == width,
            c.height == height,
            c.chunk_size == chunk_size,
            c.chunks_wide == chunks_over(width as int, if chunk_size > 1 { chunk_size as int } else { 1 }),
            c.chunks_high == chunks_over(height as int, if chunk_size > 1 { chunk_size as int } else { 1 }),
            c.cache.len() == c.chunks_wide * c.chunks_high,
            c.cache.lifetime() == VERDICT_LIFETIME,
            forall|i: int| 0 <= i < c.cache.len() ==> #[trigger] c.cache.code(i) == 0 && c.cache.age(i) == 0,
            forall|k: u8| #[trigger] c.table.matter_of(k) == Matter::Other,
            forall|k: u8| #[trigger] c.table.horizontal_speed_of(k) == single::ONE,
            forall|k: u8| #[trigger] c.table.max_velocity_y_of(k) == single::ZERO,
            forall|k: u8| !#[trigger] c.table.reactive_with_others(k),
            forall|k: u8| !#[trigger] c.table.reactive_with_self(k),
            forall|a: u8, b: u8| !#[trigger] c.table.pair(a, b),
            c.stats.total() == 0,
            c.stats.sleeping == 0,
            c.stats.cells_touched == 0,
            c.stats.cached == 0,
            c.stats.moved == 0,
    {
        let chunk = if chunk_size > 1 {
            chunk_size
        } else {
            1
        };
        let chunks_wide = (width + chunk - 1) / chunk;
        let chunks_high = (height + chunk - 1) / chunk;
        proof {
            assert(chunks_wide >= 0 && chunks_high >= 0) by (nonlinear_arith)
                requires
                    chunks_wide == chunks_over(width as int, chunk as int),
                    chunks_high == chunks_over(height as int, chunk as int),
                    width >= 0,
                    height >= 0,
                    chunk >= 1,
            ;
        }
        let cells = chunks_wide as usize * chunks_high as usize;
        let cache = VerdictCache::new(cells, VERDICT_LIFETIME);
        assert forall|i: int| 0 <= i < cache.len() implies #[trigger] cache.code(i) == 0 && cache.age(i) == 0 by {
            assert(0 <= i < cells);
        }
        Core {
            width,
            height,
            chunk_size,
            chunks_wide,
            chunks_high,
            table: MatterTable::new(),
            stats: Stats::default(),
            cache,
        }
    }

    /// Fill the matter table from the game's element definitions, mods'
    /// included: which materials exist is a matter of data, not code. A type
    /// not in the table goes back to the game.
    pub fn set_matter(&mut self, kind: u32, matter: u32, horizontal_speed: u32)
        requires
            old(self).wf(),
        ensures
            final(self).wf(),
            forall|k: u8| #[trigger]
                final(self).table.matter_of(k) == if k == kind as u8 {
                    matter_of_code(matter)
                } else {
                    old(self).table.matter_of(k)
                },
            forall|k: u8| #[trigger]
                final(self).table.horizontal_speed_of(k) == if k == kind as u8 {
                    horizontal_speed
                } else {
                    old(self).table.horizontal_speed_of(k)
                },
            forall|k: u8| #[trigger] final(self).table.max_velocity_y_of(k) == old(self).table.max_velocity_y_of(k),
            forall|k: u8| #[trigger] final(self).table.reactive_with_others(k) == old(self).table.reactive_with_others(k),
            forall|k: u8| #[trigger] final(self).table.reactive_with_self(k) == old(self).table.reactive_with_self(k),
            forall|a: u8, b: u8| #[trigger] final(self).table.pair(a, b) == old(self).table.pair(a, b),
            final(self).stats == old(self).stats,
            final(self).cache == old(self).cache,
            final(self).width == old(self).width,
            final(self).height == old(self).height,
            final(self).chunk_size == old(self).chunk_size,
            final(self).chunks_wide == old(self).chunks_wide,
            final(self).chunks_high == old(self).chunks_high,
    {
        let m = matter_from_code(matter);
        self.table.set(#[verifier::truncate] (kind as u8), m, horizontal_speed);
    }

    /// The summary of the session: chunks taken, chunks given back by
    /// reason, cells simulated, verdicts served from the cache, cells moved.
    pub fn stats(&self) -> (v: Vec<u32>)
        ensures
            v@ == seq![
                self.stats.native_chunks,
                self.stats.skipped_unknown,
                self.stats.skipped_hooks,
                self.stats.skipped_structures,
                self.stats.cells_touched,
                self.stats.cached,
                self.stats.moved,
            ],
    {
        vec![
            self.stats.native_chunks,
            self.stats.skipped_unknown,
            self.stats.skipped_hooks,
            self.stats.skipped_structures,
            self.stats.cells_touched,
            self.stats.cached,
            self.stats.moved,
        ]
    }

    pub fn reset_stats(&mut self)
        ensures
            final(self).stats.total() == 0,
            final(self).stats.cells_touched == 0,
            final(self).stats.cached == 0,
            final(self).stats.moved == 0,
            final(self).table == old(self).table,
            final(self).cache == old(self).cache,
            final(self).width == old(self).width,
            final(self).height == old(self).height,
            final(self).chunk_size == old(self).chunk_size,
            final(self).chunks_wide == old(self).chunks_wide,
            final(self).chunks_high == old(self).chunks_high,
    {
        self.stats = Stats::default();
    }

    /// What the cache serves for chunk slot `slot`, if anything.
    pub open spec fn served(self, slot: int) -> Option<Verdict> {
        if 0 <= slot < self.cache.len() && self.cache.age(slot) > 0 {
            decode(self.cache.code(slot))
        } else {
            None
        }
    }

    /// The verdict on the cells `[x0, x1) x [y0, y1)` of chunk slot `slot`:
    /// from the cache while it is fresh there, else from a look over the
    /// cells, which the cache then keeps.
    fn lookup(&mut self, world: &World, gate: &Gate, slot: usize, x0: i32, y0: i32, x1: i32, y1: i32) -> (v: Verdict)
        requires
            old(self).wf(),
            world@.wf(),
            window_in_grid(world@, x0 as int, y0 as int, x1 as int, y1 as int),
            gate.scan_fits(x0 as int, y0 as int, x1 as int, y1 as int),
        ensures
            final(self).wf(),
            final(self).table == old(self).table,
            final(self).width == old(self).width,
            final(self).height == old(self).height,
            final(self).chunk_size == old(self).chunk_size,
            final(self).chunks_wide == old(self).chunks_wide,
            final(self).chunks_high == old(self).chunks_high,
            final(self).stats == (Stats { cached: final(self).stats.cached, ..old(self).stats }),
            ({
                let got = old(self).served(slot as int);
                &&& v == match got {
                    Some(v) => v,
                    None => verdict_of(world@, old(self).table, *gate, x0 as int, y0 as int, x1 as int, y1 as int),
                }
                &&& got is Some ==> old(self).cache.with_entry(
                    slot as int,
                    old(self).cache.code(slot as int),
                    (old(self).cache.age(slot as int) - 1) as u16,
                    final(self).cache,
                ) && final(self).stats.cached == old(self).stats.cached.wrapping_add(1)
                &&& got is None ==> final(self).stats.cached == old(self).stats.cached
                &&& got is None && slot < old(self).cache.len() ==> old(self).cache.with_entry(
                    slot as int,
                    encode(v),
                    old(self).cache.lifetime(),
                    final(self).cache,
                )
                &&& got is None && slot >= old(self).cache.len() ==> final(self).cache == old(self).cache
            }),
    {
        let ghost c0 = self.cache;
        let got = self.cache.get(slot);
        assert(c0.looked_up(slot as int, got, self.cache));
        assert(slot >= c0.len() || c0.age(slot as int) == 0 ==> self.cache == c0);
        assert(slot < c0.len() && c0.age(slot as int) > 0 ==> c0.with_entry(slot as int, c0.code(slot as int), (c0.age(slot as int) - 1) as u16, self.cache));
        assert(got == old(self).served(slot as int));
        match got {
            Some(v) => {
                self.stats.cached = self.stats.cached.wrapping_add(1);
                v
            },
            None => {
                let v = inspect(world, &self.table, gate, x0, y0, x1, y1);
                self.cache.put(slot, v);
                assert(old(self).served(slot as int) is None);
                assert(slot < old(self).cache.len() ==> old(self).cache.with_entry(
                    slot as int,
                    encode(v),
                    old(self).cache.lifetime(),
                    self.cache,
                ));
                assert(slot >= old(self).cache.len() ==> self.cache == old(self).cache);
                assert(self.wf());
                v
            },
        }
    }

    /// Simulate chunk `(chunk_x, chunk_y)` of the world for one frame
    /// (`update_chunk`): the chunk is looked over first, or its verdict taken
    /// from the cache; a chunk with a mod hook, an unknown matter or a
    /// structure nearby goes back to the old code whole. A taken chunk is
    /// swept in the direction given by the parity of `frame`, and the cells
    /// the core does not take are written to `sink`, from its start.
    #[verifier::rlimit(40)]
    pub fn update_chunk(
        &mut self,
        world: &mut World,
        gate: &Gate,
        sink: &mut DeferSink,
        rng: &mut Rng,
        marks: &mut Marks,
        chunk_x: i32,
        chunk_y: i32,
        frame: i64,
        clock: Frame,
    ) -> (r: ChunkResult)
        requires
            old(self).wf(),
            old(world)@.wf(),
            old(world)@.width == old(self).width,
            old(world)@.height == old(self).height,
            old(world)@.chunk_size == old(self).chunk_size,
            i32::MIN <= chunk_x * old(self).chunk_size <= i32::MAX,
            i32::MIN <= chunk_x * old(self).chunk_size + old(self).chunk_size <= i32::MAX,
            i32::MIN <= chunk_y * old(self).chunk_size <= i32::MAX,
            i32::MIN <= chunk_y * old(self).chunk_size + old(self).chunk_size <= i32::MAX,
            i32::MIN <= chunk_y * old(self).chunks_wide,
            i32::MIN <= chunk_y * old(self).chunks_wide + chunk_x <= i32::MAX,
            ({
                let (x0, y0, x1, y1) = chunk_cells(
                    old(self).chunk_size as int,
                    old(self).width as int,
                    old(self).height as int,
                    chunk_x as int,
                    chunk_y as int,
                );
                x0 < x1 && y0 < y1 ==> chunk_x >= 0 && chunk_y >= 0 && x1 <= i32::MAX - 2 && y1
                    <= i32::MAX - 2 && gate.scan_fits(x0, y0, x1, y1)
            }),
            forall|v: Verdict| #[trigger] old(self).stats.counter(v) < u32::MAX,
        ensures
            old(world)@.consistent() && old(world)@.positions_fit() ==> {
                &&& final(world)@.consistent()
                &&& final(world)@.cells.to_multiset() == old(world)@.cells.to_multiset()
            },
            final(self).wf(),
            final(self).table == old(self).table,
            final(self).width == old(self).width,
            final(self).height == old(self).height,
            final(self).chunk_size == old(self).chunk_size,
            final(self).chunks_wide == old(self).chunks_wide,
            final(self).chunks_high == old(self).chunks_high,
            ({
                let (x0, y0, x1, y1) = chunk_cells(
                    old(self).chunk_size as int,
                    old(self).width as int,
                    old(self).height as int,
                    chunk_x as int,
                    chunk_y as int,
                );
                let slot = old(self).slot_of(chunk_x as int, chunk_y as int);
                let got = old(self).served(slot);
                let v = match got {
                    Some(v) => v,
                    None => verdict_of(old(world)@, old(self).table, *gate, x0, y0, x1, y1),
                };
                let untouched = final(world)@ == old(world)@ && *final(sink) == *old(sink)
                    && final(rng).state() == old(rng).state() && final(marks).listed() == old(marks).listed();
                if x0 >= x1 || y0 >= y1 {
                    &&& r == (ChunkResult { native: false, touched: 0, deferred: 0, reason: 1 })
                    &&& final(self).stats == old(self).stats
                    &&& final(self).cache == old(self).cache
                    &&& untouched
                } else {
                    &&& got is Some ==> old(self).cache.with_entry(
                        slot,
                        old(self).cache.code(slot),
                        (old(self).cache.age(slot) - 1) as u16,
                        final(self).cache,
                    ) && final(self).stats.cached == old(self).stats.cached.wrapping_add(1)
                    &&& got is None ==> final(self).stats.cached == old(self).stats.cached
                    &&& got is None && slot < old(self).cache.len() ==> old(self).cache.with_entry(
                        slot,
                        encode(v),
                        old(self).cache.lifetime(),
                        final(self).cache,
                    )
                    &&& got is None && slot >= old(self).cache.len() ==> final(self).cache == old(self).cache
                    &&& final(self).stats.counter(v) == old(self).stats.counter(v) + 1
                    &&& forall|o: Verdict| o != v ==> #[trigger] final(self).stats.counter(o) == old(self).stats.counter(o)
                    &&& match v {
                        Verdict::Skip(reason) => {
                            &&& r == (ChunkResult { native: false, touched: 0, deferred: 0, reason: reason_number(reason) })
                            &&& final(self).stats.cells_touched == old(self).stats.cells_touched
                            &&& final(self).stats.moved == old(self).stats.moved
                            &&& untouched
                        },
                        Verdict::Native => {
                            let s = region_spec(
                                old(world)@,
                                old(self).table,
                                old(rng).state(),
                                x0,
                                y0,
                                x1,
                                y1,
                                frame % 2 == 0,
                                clock,
                            );
                            &&& tracks(
                                s,
                                final(world)@,
                                final(rng).state(),
                                DeferSink { buffer: old(sink).buffer, written: 0 },
                                *final(sink),
                                old(marks).listed(),
                                final(marks).listed(),
                            )
                            &&& r == (ChunkResult {
                                native: true,
                                touched: s.touched as u32,
                                deferred: final(sink).written,
                                reason: 0,
                            })
                            &&& final(self).stats.cells_touched == old(self).stats.cells_touched.wrapping_add(
                                s.touched as u32,
                            )
                            &&& final(self).stats.moved == old(self).stats.moved.wrapping_add(
                                s.marked.len() as u32,
                            )
                        },
                    }
                }
            }),
    {
        let (x0, y0, x1, y1) = match chunk_cells_of(self.chunk_size, self.width, self.height, chunk_x, chunk_y) {
            Some(cells) => cells,
            None => {
                return ChunkResult { native: false, touched: 0, deferred: 0, reason: 1 };
            },
        };
        let s = chunk_y * self.chunks_wide + chunk_x;
        let slot: usize = if s < 0 {
            0
        } else {
            s as usize
        };
        let verdict = self.lookup(world, gate, slot, x0, y0, x1, y1);
        proof {
            assert forall|o: Verdict| #[trigger] self.stats.counter(o) == old(self).stats.counter(o) by {}
        }
        if let Verdict::Skip(reason) = verdict {
            self.stats.record(verdict);
            return ChunkResult { native: false, touched: 0, deferred: 0, reason: reason_code(reason) };
        }
        sink.written = 0;
        let ghost sink0 = *sink;
        let before = marks.slots().len();
        proof {
            lemma_took_none(*sink);
        }
        let touched = update_region(
            world,
            &self.table,
            sink,
            rng,
            marks,
            x0,
            y0,
            x1,
            y1,
            frame % 2 == 0,
            clock,
        );
        let after = marks.slots().len();
        let deferred = sink.written;
        self.stats.record(verdict);
        let ghost recorded = self.stats;
        self.stats.cells_touched = self.stats.cells_touched.wrapping_add(#[verifier::truncate] (touched as u32));
        self.stats.moved = self.stats.moved.wrapping_add(#[verifier::truncate] ((after - before) as u32));
        proof {
            assert forall|o: Verdict| #[trigger] self.stats.counter(o) == recorded.counter(o) by {}
        }
        ChunkResult { native: true, touched: #[verifier::truncate] (touched as u32), deferred, reason: 0 }
    }
}

} // verus!
