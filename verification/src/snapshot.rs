//! Snapshots of a real world, as the game's profiler takes them: the fixed
//! input of a benchmark. A run today and a run a month from now start from
//! the same state, which is restored before every iteration, since a tick
//! changes the world.
//!
//! Single-precision fields of the snapshot are held as their binary32
//! encodings, as everywhere in this crate.
use vstd::prelude::*;

use crate::physics::{Matter, MatterTable};
use crate::single;
use crate::view::{Elements, ElementsModel, World, WorldModel};
use vstd::arithmetic::div_mod::{lemma_fundamental_div_mod, lemma_fundamental_div_mod_converse};

verus! {

/// Encoding of `120.0`: the density up to which a type of an unknown table
/// is taken for a liquid.
pub const LIQUID_DENSITY_MAX: u32 = 0x42f0_0000;

/// The world's settings in a snapshot.
#[derive(Clone, Copy, Debug)]
pub struct WorldMeta {
    pub chunk_size: i32,
}

/// The rectangle of the world that the snapshot covers.
#[derive(Clone, Copy, Debug)]
pub struct Region {
    pub w: i32,
    pub h: i32,
}

/// Counts that the profiler wrote beside the data.
#[derive(Clone, Copy, Debug)]
pub struct Counts {
    pub cells: usize,
    pub non_empty: usize,
    pub elements: usize,
}

/// One element of a snapshot: its slot `i` and its fields.
#[derive(Clone, Copy, Debug)]
pub struct Element {
    pub i: u32,
    pub kind: u32,
    pub velocity_x: u32,
    pub velocity_y: u32,
    pub min_velocity_y: u32,
    pub threshold_x: u32,
    pub threshold_y: u32,
    pub density: u32,
    pub is_free_falling: u32,
    pub skip_physics: u32,
    pub x: u32,
    pub y: u32,
    pub last_side_checked: i32,
    pub moves_y_axis: u32,
    pub moves_y_axis_count: u32,
}

/// A snapshot as the profiler writes it.
pub struct Dump {
    pub world: WorldMeta,
    pub region: Region,
    pub counts: Counts,
    pub cells: Vec<u32>,
    pub elements: Vec<Element>,
}

/// A snapshot laid out for quick restoring: cloned whole before every
/// iteration.
#[derive(Clone)]
pub struct State {
    pub cells: Vec<u32>,
    pub elements: Elements,
    pub chunk_now: Vec<u8>,
    pub chunk_dirty: Vec<u8>,
    pub terrain_type: Vec<u8>,
    pub changed: Vec<u32>,
}

/// The highest slot named in the records, zero for none.
pub open spec fn highest_slot(es: Seq<Element>) -> nat
    decreases es.len(),
{
    if es.len() == 0 {
        0
    } else {
        let rest = highest_slot(es.drop_last());
        if es.last().i > rest {
            es.last().i as nat
        } else {
            rest
        }
    }
}

/// `n` slots of nothing: every field zero.
pub open spec fn blank(n: nat) -> ElementsModel {
    ElementsModel {
        kind: Seq::new(n, |i: int| 0u8),
        velocity_x: Seq::new(n, |i: int| 0u32),
        velocity_y: Seq::new(n, |i: int| 0u32),
        min_velocity_x: Seq::new(n, |i: int| 0u32),
        min_velocity_y: Seq::new(n, |i: int| 0u32),
        threshold_x: Seq::new(n, |i: int| 0u32),
        threshold_y: Seq::new(n, |i: int| 0u32),
        density: Seq::new(n, |i: int| 0u32),
        is_free_falling: Seq::new(n, |i: int| 0u8),
        has_been_updated: Seq::new(n, |i: int| 0u8),
        skip_physics: Seq::new(n, |i: int| 0u8),
        has_duration: Seq::new(n, |i: int| 0u8),
        duration_left: Seq::new(n, |i: int| 0u32),
        x: Seq::new(n, |i: int| 0u16),
        y: Seq::new(n, |i: int| 0u16),
        last_side_checked: Seq::new(n, |i: int| 0i16),
        moves_y_axis: Seq::new(n, |i: int| 0u16),
        moves_y_axis_count: Seq::new(n, |i: int| 0u16),
    }
}

/// The fields after one record is written into its slot; the narrower
/// fields keep the low bits of the record's.
pub open spec fn record(m: ElementsModel, e: Element) -> ElementsModel {
    let i = e.i as int;
    ElementsModel {
        kind: m.kind.update(i, e.kind as u8),
        velocity_x: m.velocity_x.update(i, e.velocity_x),
        velocity_y: m.velocity_y.update(i, e.velocity_y),
        min_velocity_y: m.min_velocity_y.update(i, e.min_velocity_y),
        threshold_x: m.threshold_x.update(i, e.threshold_x),
        threshold_y: m.threshold_y.update(i, e.threshold_y),
        density: m.density.update(i, e.density),
        is_free_falling: m.is_free_falling.update(i, e.is_free_falling as u8),
        skip_physics: m.skip_physics.update(i, e.skip_physics as u8),
        x: m.x.update(i, e.x as u16),
        y: m.y.update(i, e.y as u16),
        last_side_checked: m.last_side_checked.update(i, e.last_side_checked as i16),
        moves_y_axis: m.moves_y_axis.update(i, e.moves_y_axis as u16),
        moves_y_axis_count: m.moves_y_axis_count.update(i, e.moves_y_axis_count as u16),
        ..m
    }
}

/// The records written in order: a later record of a slot wins.
pub open spec fn recorded(m: ElementsModel, es: Seq<Element>) -> ElementsModel
    decreases es.len(),
{
    if es.len() == 0 {
        m
    } else {
        record(recorded(m, es.drop_last()), es.last())
    }
}

/// The terrain table of a snapshot: there is none, the identifier of a
/// terrain cell is its type.
pub open spec fn identity_terrain() -> Seq<u8> {
    Seq::new(1001, |i: int| i as u8)
}

/// A flag vector brought to `n` entries: cut, or filled up with `v`.
pub open spec fn resized(s: Seq<u8>, n: int, v: u8) -> Seq<u8> {
    if n <= s.len() {
        s.subrange(0, n)
    } else {
        s + Seq::new((n - s.len()) as nat, |i: int| v)
    }
}

/// Chunks along a side of `len` cells: the last one may be short.
pub open spec fn chunks_along(len: int, chunk_size: int) -> int {
    (len + chunk_size - 1) / chunk_size
}

/// The 64-bit FNV-style hash of a sequence of cells, one cell a round.
pub open spec fn cells_hash(cells: Seq<u32>) -> u64
    decreases cells.len(),
{
    if cells.len() == 0 {
        0xcbf2_9ce4_8422_2325u64
    } else {
        (cells_hash(cells.drop_last()) ^ (cells.last() as u64)).wrapping_mul(0x100_0000_01b3u64)
    }
}

/// The cell of index `i` of a region `w` wide and `h` high lies in the
/// lower half of its middle half (the rows from `h / 2` on, the columns from
/// `w / 4` up to `3 w / 4`).
pub open spec fn carved(w: int, h: int, i: int) -> bool {
    let y = i / w;
    let x = i % w;
    h / 2 <= y < h && w / 4 <= x < (3 * w) / 4
}

/// The first slot, among the first `n`, that holds the type `k`.
pub open spec fn first_slot(kinds: Seq<u8>, k: u8, n: int) -> Option<int>
    decreases n,
{
    if n <= 0 {
        None
    } else {
        match first_slot(kinds, k, n - 1) {
            Some(i) => Some(i),
            None => if kinds[n - 1] == k {
                Some(n - 1)
            } else {
                None
            },
        }
    }
}

/// How a type of an unknown table is guessed from the density of its first
/// element: liquids in the game are lighter than solids.
pub open spec fn guessed(density: u32) -> Matter {
    if single::le(density, LIQUID_DENSITY_MAX) {
        Matter::Liquid
    } else {
        Matter::Solid
    }
}

/// The state of matter of a type in the table guessed from a snapshot.
pub open spec fn guessed_matter(m: ElementsModel, k: u8) -> Matter {
    if k == 0 {
        Matter::Other
    } else {
        match first_slot(m.kind, k, m.kind.len() as int) {
            Some(i) => guessed(m.density[i]),
            None => Matter::Other,
        }
    }
}

proof fn lemma_highest_step(es: Seq<Element>, k: int)
    requires
        0 <= k < es.len(),
    ensures
        highest_slot(es.take(k + 1)) == if es[k].i > highest_slot(es.take(k)) {
            es[k].i as nat
        } else {
            highest_slot(es.take(k))
        },
{
    assert(es.take(k + 1).drop_last() =~= es.take(k));
}

proof fn lemma_highest_bounds(es: Seq<Element>, j: int)
    requires
        0 <= j < es.len(),
    ensures
        es[j].i <= highest_slot(es),
    decreases es.len(),
{
    if j < es.len() - 1 {
        lemma_highest_bounds(es.drop_last(), j);
    }
}

proof fn lemma_row_of(i: int, w: int, y: int)
    requires
        w > 0,
        0 <= i,
    ensures
        i < y * w ==> i / w < y,
        y * w <= i ==> y <= i / w,
{
    lemma_fundamental_div_mod(i, w);
    let q = i / w;
    let r = i % w;
    assert(i < y * w ==> q < y) by (nonlinear_arith)
        requires
            i == w * q + r,
            0 <= r < w,
            w > 0,
    ;
    assert(y * w <= i ==> y <= q) by (nonlinear_arith)
        requires
            i == w * q + r,
            0 <= r < w,
            w > 0,
    ;
}

/// The highest slot named in the records, zero for none.
pub fn highest_slot_of(es: &[Element]) -> (top: u32)
    ensures
        top == highest_slot(es@),
{
    let n = es.len();
    let mut top: u32 = 0;
    let mut k: usize = 0;
    while k < n
        invariant
            n == es@.len(),
            k <= n,
            top == highest_slot(es@.take(k as int)),
        decreases n - k,
    {
        proof {
            lemma_highest_step(es@, k as int);
        }
        if es[k].i > top {
            top = es[k].i;
        }
        k = k + 1;
    }
    assert(es@.take(n as int) =~= es@);
    top
}

impl State {
    /// Lay out a snapshot: one slot past the highest named, every field of
    /// a slot not named zero, no chunk flags yet, and the identity terrain
    /// table.
    pub fn from_dump(d: &Dump) -> (s: Self)
        requires
            highest_slot(d.elements@) + 1 <= usize::MAX,
        ensures
            s.cells@ == d.cells@,
            s.elements@ == recorded(blank(highest_slot(d.elements@) + 1), d.elements@),
            s.chunk_now@ == Seq::<u8>::empty(),
            s.chunk_dirty@ == Seq::<u8>::empty(),
            s.terrain_type@ == identity_terrain(),
            s.changed@ == Seq::<u32>::empty(),
    {
        let es = &d.elements;
        let n = es.len();
        let top = highest_slot_of(es.as_slice());
        let cap = top as usize + 1;
        let mut elements = Elements {
            kind: vec![0u8; cap],
            velocity_x: vec![0u32; cap],
            velocity_y: vec![0u32; cap],
            min_velocity_x: vec![0u32; cap],
            min_velocity_y: vec![0u32; cap],
            threshold_x: vec![0u32; cap],
            threshold_y: vec![0u32; cap],
            density: vec![0u32; cap],
            is_free_falling: vec![0u8; cap],
            has_been_updated: vec![0u8; cap],
            skip_physics: vec![0u8; cap],
            has_duration: vec![0u8; cap],
            duration_left: vec![0u32; cap],
            x: vec![0u16; cap],
            y: vec![0u16; cap],
            last_side_checked: vec![0i16; cap],
            moves_y_axis: vec![0u16; cap],
            moves_y_axis_count: vec![0u16; cap],
        };
        assert(elements@ =~= blank(cap as nat));
        let mut j: usize = 0;
        while j < n
            invariant
                n == es@.len(),
                j <= n,
                cap == highest_slot(es@) + 1,
                elements@ == recorded(blank(cap as nat), es@.take(j as int)),
                elements@.wf(),
                elements@.len() == cap,
            decreases n - j,
        {
            let e = es[j];
            proof {
                lemma_highest_bounds(es@, j as int);
                assert(es@.take(j + 1).drop_last() =~= es@.take(j as int));
            }
            let i = e.i as usize;
            elements.kind.set(i, #[verifier::truncate] (e.kind as u8));
            elements.velocity_x.set(i, e.velocity_x);
            elements.velocity_y.set(i, e.velocity_y);
            elements.min_velocity_y.set(i, e.min_velocity_y);
            elements.threshold_x.set(i, e.threshold_x);
            elements.threshold_y.set(i, e.threshold_y);
            elements.density.set(i, e.density);
            elements.is_free_falling.set(i, #[verifier::truncate] (e.is_free_falling as u8));
            elements.skip_physics.set(i, #[verifier::truncate] (e.skip_physics as u8));
            elements.x.set(i, #[verifier::truncate] (e.x as u16));
            elements.y.set(i, #[verifier::truncate] (e.y as u16));
            elements.last_side_checked.set(i, #[verifier::truncate] (e.last_side_checked as i16));
            elements.moves_y_axis.set(i, #[verifier::truncate] (e.moves_y_axis as u16));
            elements.moves_y_axis_count.set(i, #[verifier::truncate] (e.moves_y_axis_count as u16));
            j = j + 1;
            assert(elements@ =~= recorded(blank(cap as nat), es@.take(j as int)));
        }
        assert(es@.take(n as int) =~= es@);
        let mut terrain_type: Vec<u8> = Vec::new();
        let mut t: u32 = 0;
        while t <= 1000
            invariant
                t <= 1001,
                terrain_type@ =~= Seq::new(t as nat, |i: int| i as u8),
            decreases 1001 - t,
        {
            terrain_type.push(#[verifier::truncate] (t as u8));
            t = t + 1;
        }
        State {
            cells: d.cells.clone(),
            elements,
            chunk_now: Vec::new(),
            chunk_dirty: Vec::new(),
            terrain_type,
            changed: Vec::new(),
        }
    }

    /// The world over this state: the region's dimensions, the chunks that
    /// cover them, and every chunk flagged active, since a snapshot is taken
    /// from a live world whole; a benchmark that skipped chunks would measure
    /// the skipping.
    pub fn world(self, region: Region, chunk_size: i32) -> (w: World)
        requires
            chunk_size > 0,
            region.w >= 0,
            region.h >= 0,
            region.w + chunk_size <= i32::MAX,
            region.h + chunk_size <= i32::MAX,
            chunks_along(region.w as int, chunk_size as int) * chunks_along(region.h as int, chunk_size as int)
                <= i32::MAX,
        ensures
            ({
                let cw = chunks_along(region.w as int, chunk_size as int);
                let ch = chunks_along(region.h as int, chunk_size as int);
                w@ == (WorldModel {
                    width: region.w,
                    height: region.h,
                    chunk_size,
                    cells: self.cells@,
                    elements: self.elements@,
                    chunk_should_update: resized(self.chunk_now@, cw * ch, 1),
                    chunk_dirty_next: resized(self.chunk_dirty@, cw * ch, 0),
                    chunk_width: cw as i32,
                    chunk_height: ch as i32,
                    terrain_type: self.terrain_type@,
                    changed: self.changed@,
                })
            }),
    {
        let cw = (region.w + chunk_size - 1) / chunk_size;
        let ch = (region.h + chunk_size - 1) / chunk_size;
        proof {
            assert(cw >= 0 && ch >= 0) by (nonlinear_arith)
                requires
                    cw == chunks_along(region.w as int, chunk_size as int),
                    ch == chunks_along(region.h as int, chunk_size as int),
                    region.w >= 0,
                    region.h >= 0,
                    chunk_size > 0,
            ;
            assert(cw * ch >= 0) by (nonlinear_arith)
                requires
                    cw >= 0,
                    ch >= 0,
            ;
        }
        let n = (cw * ch) as usize;
        let mut chunk_dirty = self.chunk_dirty;
        let mut chunk_now = self.chunk_now;
        let ghost dirty0 = chunk_dirty@;
        let ghost now0 = chunk_now@;
        chunk_dirty.resize(n, 0);
        chunk_now.resize(n, 1);
        assert(chunk_dirty@ =~= resized(dirty0, cw * ch, 0));
        assert(chunk_now@ =~= resized(now0, cw * ch, 1));
        World {
            width: region.w,
            height: region.h,
            chunk_size,
            cells: self.cells,
            elements: self.elements,
            chunk_should_update: chunk_now,
            chunk_dirty_next: chunk_dirty,
            chunk_width: cw,
            chunk_height: ch,
            terrain_type: self.terrain_type,
            changed: self.changed,
        }
    }

    /// Carve a cavity: clear the lower half of the middle half of the
    /// region. A densely packed snapshot measures mostly an idle scan, since
    /// the mass has nowhere to go; with a cavity it collapses, and a run
    /// measures the price of real work.
    pub fn carve(&mut self, region: Region)
        requires
            region.w > 0,
            region.h >= 0,
            3 * region.w <= i32::MAX,
            region.w * region.h <= i32::MAX,
            old(self).cells@.len() >= region.w * region.h,
        ensures
            final(self).cells@.len() == old(self).cells@.len(),
            forall|i: int|
                0 <= i < old(self).cells@.len() ==> #[trigger] final(self).cells@[i] == if i < region.w
                    * region.h && carved(region.w as int, region.h as int, i) {
                    0
                } else {
                    old(self).cells@[i]
                },
            final(self).elements == old(self).elements,
            final(self).chunk_now == old(self).chunk_now,
            final(self).chunk_dirty == old(self).chunk_dirty,
            final(self).terrain_type == old(self).terrain_type,
            final(self).changed == old(self).changed,
    {
        let w = region.w;
        let h = region.h;
        let ghost c0 = self.cells@;
        let mut y = h / 2;
        proof {
            assert forall|j: int| 0 <= j < y * w implies !#[trigger] carved(w as int, h as int, j) by {
                lemma_row_of(j, w as int, y as int);
            }
        }
        while y < h
            invariant
                w == region.w,
                h == region.h,
                w > 0,
                h >= 0,
                3 * w <= i32::MAX,
                w * h <= i32::MAX,
                c0.len() >= w * h,
                h / 2 <= y <= h,
                self.cells@.len() == c0.len(),
                self.elements == old(self).elements,
                self.chunk_now == old(self).chunk_now,
                self.chunk_dirty == old(self).chunk_dirty,
                self.terrain_type == old(self).terrain_type,
                self.changed == old(self).changed,
                forall|i: int|
                    0 <= i < c0.len() ==> #[trigger] self.cells@[i] == if i < y * w && carved(w as int, h as int, i) {
                        0
                    } else {
                        c0[i]
                    },
            decreases h - y,
        {
            let mut x = w / 4;
            proof {
                assert forall|j: int| y * w <= j < y * w + x implies !#[trigger] carved(w as int, h as int, j) by {
                    lemma_fundamental_div_mod_converse(j, w as int, y as int, j - y * w);
                }
            }
            while x < (3 * w) / 4
                invariant
                    w == region.w,
                    h == region.h,
                    w > 0,
                    3 * w <= i32::MAX,
                    w * h <= i32::MAX,
                    c0.len() >= w * h,
                    h / 2 <= y < h,
                    w / 4 <= x <= (3 * w) / 4,
                    self.cells@.len() == c0.len(),
                    self.elements == old(self).elements,
                    self.chunk_now == old(self).chunk_now,
                    self.chunk_dirty == old(self).chunk_dirty,
                    self.terrain_type == old(self).terrain_type,
                    self.changed == old(self).changed,
                    forall|i: int|
                        0 <= i < c0.len() ==> #[trigger] self.cells@[i] == if (i < y * w || (y * w <= i < y * w + x))
                            && carved(w as int, h as int, i) {
                            0
                        } else {
                            c0[i]
                        },
                decreases (3 * w) / 4 - x,
            {
                proof {
                    assert(0 <= y * w + x < w * h) by (nonlinear_arith)
                        requires
                            0 <= y < h,
                            0 <= x < w,
                            w > 0,
                    ;
                    lemma_fundamental_div_mod_converse(y * w + x, w as int, y as int, x as int);
                }
                let i = (y * w + x) as usize;
                self.cells.set(i, 0);
                x = x + 1;
                proof {
                    assert forall|j: int| 0 <= j < c0.len() implies #[trigger] self.cells@[j] == if (j < y * w || (y * w
                        <= j < y * w + x)) && carved(w as int, h as int, j) {
                        0
                    } else {
                        c0[j]
                    } by {
                        if y * w <= j < y * w + w {
                            lemma_fundamental_div_mod_converse(j, w as int, y as int, j - y * w);
                        }
                    }
                }
            }
            proof {
                assert forall|j: int| 0 <= j < c0.len() implies #[trigger] self.cells@[j] == if j < (y + 1) * w
                    && carved(w as int, h as int, j) {
                    0
                } else {
                    c0[j]
                } by {
                    assert((y + 1) * w == y * w + w) by (nonlinear_arith);
                    if y * w <= j < y * w + w {
                        lemma_fundamental_div_mod_converse(j, w as int, y as int, j - y * w);
                    }
                }
            }
            y = y + 1;
        }
        proof {
            assert forall|j: int| 0 <= j < c0.len() implies #[trigger] self.cells@[j] == if j < w * h && carved(
                w as int,
                h as int,
                j,
            ) {
                0
            } else {
                c0[j]
            } by {
                assert(y * w == w * h) by (nonlinear_arith)
                    requires
                        y == h,
                ;
            }
        }
    }

    /// A hash of the grid, to see that two runs came to one world.
    pub fn hash(&self) -> (h: u64)
        ensures
            h == cells_hash(self.cells@),
    {
        hash_cells(&self.cells)
    }
}

/// The 64-bit FNV-style hash of cells.
pub fn hash_cells(cells: &[u32]) -> (h: u64)
    ensures
        h == cells_hash(cells@),
{
    let mut h: u64 = 0xcbf2_9ce4_8422_2325;
    let mut i: usize = 0;
    while i < cells.len()
        invariant
            i <= cells@.len(),
            h == cells_hash(cells@.take(i as int)),
        decreases cells@.len() - i,
    {
        proof {
            assert(cells@.take(i + 1).drop_last() =~= cells@.take(i as int));
        }
        h = h ^ (cells[i] as u64);
        h = h.wrapping_mul(0x100_0000_01b3);
        i = i + 1;
    }
    assert(cells@.take(cells@.len() as int) =~= cells@);
    h
}

/// The matter table of a benchmark. In the game the table comes from the
/// element definitions, mods' included; here a type is guessed from the
/// density of its first element in the snapshot: up to 120 a liquid, above
/// that a solid (sand is a solid in the game, not a powder: a powder has no
/// movement at all, and a benchmark taking one for the other would measure a
/// world standing still). Every other type stays unknown.
pub fn default_table(state: &State) -> (t: MatterTable)
    requires
        state.elements@.wf(),
    ensures
        t.wf(),
        forall|k: u8| #[trigger] t.matter_of(k) == guessed_matter(state.elements@, k),
        forall|k: u8| #[trigger] t.horizontal_speed_of(k) == single::ONE,
        forall|k: u8| #[trigger] t.max_velocity_y_of(k) == single::ZERO,
        forall|k: u8| !#[trigger] t.reactive_with_others(k),
        forall|k: u8| !#[trigger] t.reactive_with_self(k),
        forall|a: u8, b: u8| !#[trigger] t.pair(a, b),
{
    let mut table = MatterTable::new();
    let mut seen: Vec<bool> = vec![false; 256];
    let kinds = &state.elements.kind;
    let n = kinds.len();
    let mut i: usize = 0;
    while i < n
        invariant
            n == state.elements@.kind.len(),
            kinds@ == state.elements@.kind,
            i <= n,
            state.elements@.wf(),
            seen@.len() == 256,
            table.wf(),
            forall|k: u8| #[trigger] seen@[k as int] == (k != 0 && first_slot(state.elements@.kind, k, i as int) is Some),
            forall|k: u8| #[trigger] table.matter_of(k) == if k == 0 {
                Matter::Other
            } else {
                match first_slot(state.elements@.kind, k, i as int) {
                    Some(j) => guessed(state.elements@.density[j]),
                    None => Matter::Other,
                }
            },
            forall|k: u8| #[trigger] table.horizontal_speed_of(k) == single::ONE,
            forall|k: u8| #[trigger] table.max_velocity_y_of(k) == single::ZERO,
            forall|k: u8| !#[trigger] table.reactive_with_others(k),
            forall|k: u8| !#[trigger] table.reactive_with_self(k),
            forall|a: u8, b: u8| !#[trigger] table.pair(a, b),
        decreases n - i,
    {
        let k = kinds[i];
        proof {
            assert forall|q: u8| #[trigger] first_slot(state.elements@.kind, q, i + 1) == (match first_slot(state.elements@.kind, q, i as int) {
                Some(j) => Some(j),
                None => if state.elements@.kind[i as int] == q {
                    Some(i as int)
                } else {
                    None
                },
            }) by {}
        }
        if k == 0 || seen[k as usize] {
            i = i + 1;
            continue;
        }
        seen.set(k as usize, true);
        let d = state.elements.density[i];
        if single::less_or_equal(d, LIQUID_DENSITY_MAX) {
            table.set(k, Matter::Liquid, single::ONE);
        } else {
            table.set(k, Matter::Solid, single::ONE);
        }
        i = i + 1;
    }
    table
}

} // verus!
