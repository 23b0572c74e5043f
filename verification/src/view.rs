//! The simulation state of a Sandustry world: the grid of cell identifiers
//! and the per-element fields, stored as the game stores them, slot by slot.
//!
//! Fields that the game keeps as single-precision numbers are held here as
//! their binary32 encodings (see `single`); this module only ever copies,
//! compares or overwrites them.
use vstd::prelude::*;

use crate::single;

pub mod skip;
pub mod terrain;

verus! {

/// Cell identifier: 0 is empty, 1..=1000 terrain, 1001..=1_000_000 damaged
/// ground, from 1_000_001 on elements.
pub type CellId = u32;

pub const EMPTY: CellId = 0;

pub const TERRAIN_MAX: CellId = 1000;

pub const DAMAGED_MIN: CellId = 1001;

pub const DAMAGED_MAX: CellId = 1_000_000;

pub const ELEMENT_MIN: CellId = 1_000_001;

pub const ELEMENT_MAX: CellId = 2_000_000;

/// What a read beyond the edge of the world returns: a wall, into which
/// nothing falls and through which nothing rises.
pub const OUT_OF_BOUNDS: CellId = TERRAIN_MAX;

/// Truncating division, as the machine divides signed integers.
pub open spec fn tdiv(a: int, b: int) -> int {
    if a >= 0 {
        a / b
    } else {
        -((-a) / b)
    }
}

/// Remainder of truncating division; it takes the sign of `a`.
pub open spec fn trem(a: int, b: int) -> int {
    if a >= 0 {
        a % b
    } else {
        -((-a) % b)
    }
}

pub open spec fn element_id(id: u32) -> bool {
    ELEMENT_MIN <= id <= ELEMENT_MAX
}

pub open spec fn terrain_id(id: u32) -> bool {
    id != EMPTY && id <= TERRAIN_MAX
}

pub fn is_element(id: CellId) -> (r: bool)
    ensures
        r == element_id(id),
{
    ELEMENT_MIN <= id && id <= ELEMENT_MAX
}

pub fn is_terrain(id: CellId) -> (r: bool)
    ensures
        r == terrain_id(id),
{
    id != EMPTY && id <= TERRAIN_MAX
}

/// Slot of the element that a cell identifier names.
pub fn element_index(id: CellId) -> (r: usize)
    requires
        id >= ELEMENT_MIN,
    ensures
        r == id - ELEMENT_MIN,
{
    (id - ELEMENT_MIN) as usize
}

/// The per-element fields, one vector per field, indexed by slot.
#[derive(Clone)]
pub struct Elements {
    pub kind: Vec<u8>,
    pub velocity_x: Vec<u32>,
    pub velocity_y: Vec<u32>,
    pub min_velocity_x: Vec<u32>,
    pub min_velocity_y: Vec<u32>,
    pub threshold_x: Vec<u32>,
    pub threshold_y: Vec<u32>,
    pub density: Vec<u32>,
    pub is_free_falling: Vec<u8>,
    pub has_been_updated: Vec<u8>,
    pub skip_physics: Vec<u8>,
    /// The element runs a timer: seeds grow, fire burns out, farms score.
    pub has_duration: Vec<u8>,
    /// What is left of the timer.
    pub duration_left: Vec<u32>,
    pub x: Vec<u16>,
    pub y: Vec<u16>,
    /// X coordinate of the last side checked by a sideways walk, not a
    /// direction.
    pub last_side_checked: Vec<i16>,
    /// The row on which the element keeps moving, and how many moves it made
    /// there.
    pub moves_y_axis: Vec<u16>,
    pub moves_y_axis_count: Vec<u16>,
}

#[verifier::ext_equal]
pub struct ElementsModel {
    pub kind: Seq<u8>,
    pub velocity_x: Seq<u32>,
    pub velocity_y: Seq<u32>,
    pub min_velocity_x: Seq<u32>,
    pub min_velocity_y: Seq<u32>,
    pub threshold_x: Seq<u32>,
    pub threshold_y: Seq<u32>,
    pub density: Seq<u32>,
    pub is_free_falling: Seq<u8>,
    pub has_been_updated: Seq<u8>,
    pub skip_physics: Seq<u8>,
    pub has_duration: Seq<u8>,
    pub duration_left: Seq<u32>,
    pub x: Seq<u16>,
    pub y: Seq<u16>,
    pub last_side_checked: Seq<i16>,
    pub moves_y_axis: Seq<u16>,
    pub moves_y_axis_count: Seq<u16>,
}

impl ElementsModel {
    /// Number of element slots.
    pub open spec fn len(self) -> nat {
        self.kind.len()
    }

    /// Every field has an entry for each slot; a field may be longer.
    pub open spec fn wf(self) -> bool {
        let n = self.kind.len();
        &&& self.velocity_x.len() >= n
        &&& self.velocity_y.len() >= n
        &&& self.min_velocity_x.len() >= n
        &&& self.min_velocity_y.len() >= n
        &&& self.threshold_x.len() >= n
        &&& self.threshold_y.len() >= n
        &&& self.density.len() >= n
        &&& self.is_free_falling.len() >= n
        &&& self.has_been_updated.len() >= n
        &&& self.skip_physics.len() >= n
        &&& self.has_duration.len() >= n
        &&& self.duration_left.len() >= n
        &&& self.x.len() >= n
        &&& self.y.len() >= n
        &&& self.last_side_checked.len() >= n
        &&& self.moves_y_axis.len() >= n
        &&& self.moves_y_axis_count.len() >= n
    }
}

impl View for Elements {
    type V = ElementsModel;

    open spec fn view(&self) -> ElementsModel {
        ElementsModel {
            kind: self.kind@,
            velocity_x: self.velocity_x@,
            velocity_y: self.velocity_y@,
            min_velocity_x: self.min_velocity_x@,
            min_velocity_y: self.min_velocity_y@,
            threshold_x: self.threshold_x@,
            threshold_y: self.threshold_y@,
            density: self.density@,
            is_free_falling: self.is_free_falling@,
            has_been_updated: self.has_been_updated@,
            skip_physics: self.skip_physics@,
            has_duration: self.has_duration@,
            duration_left: self.duration_left@,
            x: self.x@,
            y: self.y@,
            last_side_checked: self.last_side_checked@,
            moves_y_axis: self.moves_y_axis@,
            moves_y_axis_count: self.moves_y_axis_count@,
        }
    }
}

/// The world: the grid of cells and the elements on it.
pub struct World {
    pub width: i32,
    pub height: i32,
    pub chunk_size: i32,
    pub cells: Vec<CellId>,
    pub elements: Elements,
    /// "This chunk is simulated in the current frame".
    pub chunk_should_update: Vec<u8>,
    /// "Simulate this chunk in the next frame": set on every change of a cell
    /// and whenever an element still has somewhere to go.
    pub chunk_dirty_next: Vec<u8>,
    pub chunk_width: i32,
    pub chunk_height: i32,
    /// Terrain type by cell identifier.
    pub terrain_type: Vec<u8>,
    /// Indices `y * width + x` of the cells written, in order, so that the
    /// raster can be redrawn after the tick.
    pub changed: Vec<u32>,
}

#[verifier::ext_equal]
pub struct WorldModel {
    pub width: i32,
    pub height: i32,
    pub chunk_size: i32,
    pub cells: Seq<u32>,
    pub elements: ElementsModel,
    pub chunk_should_update: Seq<u8>,
    pub chunk_dirty_next: Seq<u8>,
    pub chunk_width: i32,
    pub chunk_height: i32,
    pub terrain_type: Seq<u8>,
    pub changed: Seq<u32>,
}

impl View for World {
    type V = WorldModel;

    open spec fn view(&self) -> WorldModel {
        WorldModel {
            width: self.width,
            height: self.height,
            chunk_size: self.chunk_size,
            cells: self.cells@,
            elements: self.elements@,
            chunk_should_update: self.chunk_should_update@,
            chunk_dirty_next: self.chunk_dirty_next@,
            chunk_width: self.chunk_width,
            chunk_height: self.chunk_height,
            terrain_type: self.terrain_type@,
            changed: self.changed@,
        }
    }
}

impl WorldModel {
    /// The two worlds have the same dimensions, chunking and terrain table.
    pub open spec fn same_shape(self, other: WorldModel) -> bool {
        &&& self.width == other.width
        &&& self.height == other.height
        &&& self.chunk_size == other.chunk_size
        &&& self.chunk_width == other.chunk_width
        &&& self.chunk_height == other.chunk_height
        &&& self.terrain_type == other.terrain_type
        &&& self.chunk_should_update == other.chunk_should_update
    }

    /// The grid fits the machine's integers, the cell vector covers the
    /// grid, and every element field has one entry per slot.
    pub open spec fn wf(self) -> bool {
        &&& self.width >= 0
        &&& self.height >= 0
        &&& self.width * self.height <= i32::MAX
        &&& self.cells.len() >= self.width * self.height
        &&& self.chunk_width * self.chunk_height <= i32::MAX
        &&& self.elements.wf()
    }

    /// The grid and the element fields agree: every cell inside the world
    /// that names a slot in range names a live element (a type other than
    /// zero) whose position fields name that very cell. So no identifier
    /// stands in two cells.
    pub open spec fn consistent(self) -> bool {
        forall|a: int, b: int|
            #![trigger self.cell(a, b)]
            self.in_bounds(a, b) && element_id(self.cell(a, b)) && self.cell(a, b) - ELEMENT_MIN
                < self.elements.kind.len() ==> {
                let s = self.cell(a, b) - ELEMENT_MIN;
                &&& self.elements.kind[s] != 0
                &&& self.elements.x[s] as int == a
                &&& self.elements.y[s] as int == b
            }
    }

    /// The grid and the element fields that consistency speaks of (the
    /// dimensions, the cells, the types and the positions) are those of
    /// `other`.
    pub open spec fn same_places(self, other: WorldModel) -> bool {
        &&& self.width == other.width
        &&& self.height == other.height
        &&& self.cells == other.cells
        &&& self.elements.kind == other.elements.kind
        &&& self.elements.x == other.elements.x
        &&& self.elements.y == other.elements.y
    }

    /// The world is consistent and the element of `slot` stands in its own
    /// cell `(x, y)`.
    pub open spec fn holds(self, slot: int, x: int, y: int) -> bool {
        &&& self.consistent()
        &&& self.cell(x, y) == ELEMENT_MIN + slot
        &&& element_id(self.cell(x, y))
    }

    /// Every cell has coordinates that the position fields can hold.
    pub open spec fn positions_fit(self) -> bool {
        self.width <= 0x1_0000 && self.height <= 0x1_0000
    }

    pub open spec fn in_bounds(self, x: int, y: int) -> bool {
        0 <= x < self.width && 0 <= y < self.height
    }

    pub open spec fn idx(self, x: int, y: int) -> int {
        y * self.width + x
    }

    /// The identifier in a cell; a wall beyond the edge.
    pub open spec fn cell(self, x: int, y: int) -> u32 {
        if self.in_bounds(x, y) {
            self.cells[self.idx(x, y)]
        } else {
            OUT_OF_BOUNDS
        }
    }

    /// Terrain type of an identifier: from the table for terrain, the
    /// identifier itself where the table is short, empty for the rest.
    pub open spec fn terrain_of(self, id: u32) -> u8 {
        if terrain_id(id) {
            if id < self.terrain_type.len() {
                self.terrain_type[id as int]
            } else {
                id as u8
            }
        } else {
            terrain::EMPTY
        }
    }

    /// Density of what lies in a cell: zero for nothing, infinity for
    /// terrain and for an element without a density entry.
    pub open spec fn density_at(self, x: int, y: int) -> u32 {
        let id = self.cell(x, y);
        if id == EMPTY {
            single::ZERO
        } else if !element_id(id) {
            single::INFINITY
        } else if id - ELEMENT_MIN < self.elements.density.len() {
            self.elements.density[id - ELEMENT_MIN]
        } else {
            single::INFINITY
        }
    }

    pub open spec fn chunk_in_range(self, cx: int, cy: int) -> bool {
        0 <= cx < self.chunk_width && 0 <= cy < self.chunk_height
    }

    pub open spec fn chunk_slot(self, cx: int, cy: int) -> int {
        cy * self.chunk_width + cx
    }

    /// The chunk exists and its flag for the current frame is 1.
    pub open spec fn chunk_active(self, cx: int, cy: int) -> bool {
        self.chunk_in_range(cx, cy) && self.chunk_slot(cx, cy) < self.chunk_should_update.len()
            && self.chunk_should_update[self.chunk_slot(cx, cy)] == 1
    }

    /// The chunk that holds a cell is active; without flags, every cell is.
    pub open spec fn cell_chunk_active(self, x: int, y: int) -> bool {
        self.chunk_should_update.len() == 0 || self.chunk_active(
            tdiv(x, self.chunk_size as int),
            tdiv(y, self.chunk_size as int),
        )
    }

    /// Flag a chunk for the next frame, if it exists.
    pub open spec fn mark_chunk(self, cx: int, cy: int) -> WorldModel {
        if self.chunk_in_range(cx, cy) && self.chunk_slot(cx, cy) < self.chunk_dirty_next.len() {
            WorldModel {
                chunk_dirty_next: self.chunk_dirty_next.update(self.chunk_slot(cx, cy), 1),
                ..self
            }
        } else {
            self
        }
    }

    /// Wake the chunk of a cell for the next frame, and the neighbour across
    /// each side on which the cell lies on the very edge of its chunk. No
    /// diagonal neighbour is woken.
    pub open spec fn report(self, x: int, y: int) -> WorldModel {
        if self.chunk_dirty_next.len() == 0 || self.chunk_size <= 0 {
            self
        } else {
            let cs = self.chunk_size as int;
            let cx = tdiv(x, cs);
            let cy = tdiv(y, cs);
            let lx = trem(x, cs);
            let ly = trem(y, cs);
            let m0 = self.mark_chunk(cx, cy);
            let m1 = if lx == 0 { m0.mark_chunk(cx - 1, cy) } else { m0 };
            let m2 = if lx == cs - 1 { m1.mark_chunk(cx + 1, cy) } else { m1 };
            let m3 = if ly == 0 { m2.mark_chunk(cx, cy - 1) } else { m2 };
            if ly == cs - 1 { m3.mark_chunk(cx, cy + 1) } else { m3 }
        }
    }

    /// Write an identifier into a cell inside the world, record the write,
    /// and wake the chunk. Outside the world nothing happens.
    pub open spec fn set_cell(self, x: int, y: int, id: u32) -> WorldModel {
        if !self.in_bounds(x, y) {
            self
        } else {
            let i = self.idx(x, y);
            WorldModel {
                cells: self.cells.update(i, id),
                changed: self.changed.push(i as u32),
                ..self
            }.report(x, y)
        }
    }

    /// The element in a slot is marked as simulated in this frame.
    pub open spec fn mark_updated(self, slot: int) -> WorldModel {
        WorldModel {
            elements: ElementsModel {
                has_been_updated: self.elements.has_been_updated.update(slot, 1),
                ..self.elements
            },
            ..self
        }
    }

    /// Carry an element to another cell: its position fields follow, the
    /// target takes its identifier and the origin is left empty.
    pub open spec fn move_element(self, slot: int, fx: int, fy: int, tx: int, ty: int) -> WorldModel {
        let id = self.cell(fx, fy);
        let moved = WorldModel {
            elements: ElementsModel {
                x: self.elements.x.update(slot, tx as u16),
                y: self.elements.y.update(slot, ty as u16),
                ..self.elements
            },
            ..self
        };
        moved.set_cell(tx, ty, id).set_cell(fx, fy, EMPTY)
    }

    /// Exchange two elements: each cell takes the other's identifier, the
    /// position fields follow, and the speed of the one pushed through is cut
    /// to 60 if it was faster.
    pub open spec fn swap_elements(self, sa: int, sb: int, ax: int, ay: int, bx: int, by: int) -> WorldModel {
        let id_a = self.cell(ax, ay);
        let id_b = self.cell(bx, by);
        let vy = self.elements.velocity_y;
        let vy2 = if single::gt(vy[sa], single::SIXTY) { vy.update(sa, single::SIXTY) } else { vy };
        let swapped = WorldModel {
            elements: ElementsModel {
                velocity_y: vy2,
                x: self.elements.x.update(sa, bx as u16).update(sb, ax as u16),
                y: self.elements.y.update(sa, by as u16).update(sb, ay as u16),
                ..self.elements
            },
            ..self
        };
        swapped.set_cell(ax, ay, id_b).set_cell(bx, by, id_a)
    }
}

impl WorldModel {
    /// Waking chunks touches nothing but the next-frame flags, and keeps
    /// their number.
    pub proof fn lemma_report_frame(self, x: int, y: int)
        ensures
            self.report(x, y) == (WorldModel {
                chunk_dirty_next: self.report(x, y).chunk_dirty_next,
                ..self
            }),
            self.report(x, y).chunk_dirty_next.len() == self.chunk_dirty_next.len(),
    {
    }

    /// Waking chunks keeps the world well formed.
    pub proof fn lemma_report_wf(self, x: int, y: int)
        requires
            self.wf(),
        ensures
            self.report(x, y).wf(),
            self.report(x, y).elements == self.elements,
            self.report(x, y).cells == self.cells,
    {
        self.lemma_report_frame(x, y);
    }

    /// A write keeps the world well formed.
    pub proof fn lemma_set_cell_wf(self, x: int, y: int, id: u32)
        requires
            self.wf(),
        ensures
            self.set_cell(x, y, id).wf(),
            self.set_cell(x, y, id).elements == self.elements,
            self.set_cell(x, y, id).cells.len() == self.cells.len(),
            self.set_cell(x, y, id).same_shape(self),
    {
        if self.in_bounds(x, y) {
            lemma_idx_in_grid(self.width as int, self.height as int, x, y);
            let i = self.idx(x, y);
            let m = WorldModel {
                cells: self.cells.update(i, id),
                changed: self.changed.push(i as u32),
                ..self
            };
            m.lemma_report_frame(x, y);
        }
    }
}

/// Consistency is decided by the grid and the positions alone.
pub proof fn lemma_same_places_consistent(v: WorldModel, w: WorldModel)
    requires
        v.same_places(w),
    ensures
        v.consistent() == w.consistent(),
        v.cells.to_multiset() == w.cells.to_multiset(),
{
    assert forall|a: int, b: int| #[trigger] v.cell(a, b) == w.cell(a, b) by {}
    if w.consistent() {
        assert forall|a: int, b: int|
            #![trigger v.cell(a, b)]
            v.in_bounds(a, b) && element_id(v.cell(a, b)) && v.cell(a, b) - ELEMENT_MIN < v.elements.kind.len()
                implies {
                let s = v.cell(a, b) - ELEMENT_MIN;
                &&& v.elements.kind[s] != 0
                &&& v.elements.x[s] as int == a
                &&& v.elements.y[s] as int == b
            } by {
            assert(w.cell(a, b) == v.cell(a, b));
        }
    }
    if v.consistent() {
        assert forall|a: int, b: int|
            #![trigger w.cell(a, b)]
            w.in_bounds(a, b) && element_id(w.cell(a, b)) && w.cell(a, b) - ELEMENT_MIN < w.elements.kind.len()
                implies {
                let s = w.cell(a, b) - ELEMENT_MIN;
                &&& w.elements.kind[s] != 0
                &&& w.elements.x[s] as int == a
                &&& w.elements.y[s] as int == b
            } by {
            assert(w.cell(a, b) == v.cell(a, b));
        }
    }
}

/// A machine integer divided by two or more leaves room on both sides.
proof fn lemma_tdiv_inside(a: int, b: int)
    requires
        b >= 2,
        i32::MIN <= a <= i32::MAX,
    ensures
        i32::MIN < tdiv(a, b) < i32::MAX,
{
    if a >= 0 {
        assert((a / b) * 2 <= a) by (nonlinear_arith)
            requires
                a >= 0,
                b >= 2,
        ;
    } else {
        assert(((-a) / b) * 2 <= -a) by (nonlinear_arith)
            requires
                -a > 0,
                b >= 2,
        ;
    }
}

proof fn lemma_div_negative_divisor(a: int, d: int)
    requires d < 0, a >= 0,
    ensures a / d == -(a / (-d)),
{
    let q = a / (-d);
    let r = a % (-d);
    assert(a == d * (-q) + r && 0 <= r < -d) by (nonlinear_arith) requires d < 0, q == a / (-d), r == a % (-d);
    assert(a / d == -q) by (nonlinear_arith) requires a == d * (-q) + r, 0 <= r < -d, d < 0;
}
/// Truncating division, for any divisor the machine accepts.
fn trunc_div(a: i32, b: i32) -> (r: i32)
    requires b != 0, !(a == i32::MIN && b == -1),
    ensures r == tdiv(a as int, b as int)
{
    if b > 0 {
        a / b
    } else if b == i32::MIN {
        proof {
            if a >= 0 { lemma_div_negative_divisor(a as int, b as int); 
               assert((a as int) / 0x8000_0000 == 0) by (nonlinear_arith) requires 0 <= a < 0x8000_0000; }
            else { lemma_div_negative_divisor(-a, b as int);
               assert((-a) / 0x8000_0000int == if a == i32::MIN { 1int } else { 0int }) by (nonlinear_arith) requires 0 < -a <= 0x8000_0000; }
        }
        if a == i32::MIN { 1 } else { 0 }
    } else {
        proof {
            if a >= 0 { lemma_div_negative_divisor(a as int, b as int); }
            else { lemma_div_negative_divisor(-a, b as int); }
            let n: int = if a >= 0 { a as int } else { -(a as int) };
            assert(0 <= n / (-b) <= n) by (nonlinear_arith) requires n >= 0, -b >= 1;
            if a == i32::MIN { assert(-b >= 2); assert(n / (-b) <= n / 2) by (nonlinear_arith) requires n >= 0, -b >= 2; }
        }
        let q = a / (-b);
        -q
    }
}

impl WorldModel {
    /// Moving, exchanging and marking elements keep the world well formed and
    /// the number of slots.
    pub proof fn lemma_moves_wf(self, sa: int, sb: int, ax: int, ay: int, bx: int, by: int)
        requires
            self.wf(),
            0 <= sa < self.elements.len(),
            0 <= sb < self.elements.len(),
        ensures
            self.move_element(sa, ax, ay, bx, by).wf(),
            self.move_element(sa, ax, ay, bx, by).elements.len() == self.elements.len(),
            self.move_element(sa, ax, ay, bx, by).same_shape(self),
            self.swap_elements(sa, sb, ax, ay, bx, by).same_shape(self),
            self.mark_updated(sa).same_shape(self),
            self.swap_elements(sa, sb, ax, ay, bx, by).wf(),
            self.swap_elements(sa, sb, ax, ay, bx, by).elements.len() == self.elements.len(),
            self.mark_updated(sa).wf(),
            self.mark_updated(sa).elements.len() == self.elements.len(),
            self.move_element(sa, ax, ay, bx, by).elements.duration_left == self.elements.duration_left,
            self.swap_elements(sa, sb, ax, ay, bx, by).elements.duration_left == self.elements.duration_left,
            self.mark_updated(sa).elements.duration_left == self.elements.duration_left,
    {
        let id = self.cell(ax, ay);
        let moved = WorldModel {
            elements: ElementsModel {
                x: self.elements.x.update(sa, bx as u16),
                y: self.elements.y.update(sa, by as u16),
                ..self.elements
            },
            ..self
        };
        moved.lemma_set_cell_wf(bx, by, id);
        moved.set_cell(bx, by, id).lemma_set_cell_wf(ax, ay, EMPTY);
        let id_a = self.cell(ax, ay);
        let id_b = self.cell(bx, by);
        let vy = self.elements.velocity_y;
        let vy2 = if single::gt(vy[sa], single::SIXTY) {
            vy.update(sa, single::SIXTY)
        } else {
            vy
        };
        let swapped = WorldModel {
            elements: ElementsModel {
                velocity_y: vy2,
                x: self.elements.x.update(sa, bx as u16).update(sb, ax as u16),
                y: self.elements.y.update(sa, by as u16).update(sb, ay as u16),
                ..self.elements
            },
            ..self
        };
        swapped.lemma_set_cell_wf(ax, ay, id_b);
        swapped.set_cell(ax, ay, id_b).lemma_set_cell_wf(bx, by, id_a);
    }
}

/// Two cells inside the grid share an index only if they are one cell.
pub proof fn lemma_idx_injective(w: int, h: int, a: int, b: int, c: int, d: int)
    requires
        0 <= a < w,
        0 <= b < h,
        0 <= c < w,
        0 <= d < h,
        b * w + a == d * w + c,
    ensures
        a == c,
        b == d,
{
    if b < d {
        assert(b * w + a < d * w + c) by (nonlinear_arith)
            requires
                0 <= a < w,
                0 <= c,
                b < d,
        ;
    } else if b > d {
        assert(b * w + a > d * w + c) by (nonlinear_arith)
            requires
                0 <= c < w,
                0 <= a,
                b > d,
        ;
    }
}

/// A write touches one cell only.
pub proof fn lemma_set_cell_frame(w: WorldModel, tx: int, ty: int, id: u32, a: int, b: int)
    requires
        w.wf(),
        a != tx || b != ty,
    ensures
        w.set_cell(tx, ty, id).cell(a, b) == w.cell(a, b),
        w.set_cell(tx, ty, id).cell(tx, ty) == if w.in_bounds(tx, ty) {
            id
        } else {
            OUT_OF_BOUNDS
        },
{
    w.lemma_set_cell_wf(tx, ty, id);
    if w.in_bounds(tx, ty) {
        lemma_idx_in_grid(w.width as int, w.height as int, tx, ty);
        let i = w.idx(tx, ty);
        WorldModel { cells: w.cells.update(i, id), changed: w.changed.push(i as u32), ..w }.lemma_report_frame(tx, ty);
        if w.in_bounds(a, b) {
            lemma_idx_in_grid(w.width as int, w.height as int, a, b);
            if w.idx(a, b) == i {
                lemma_idx_injective(w.width as int, w.height as int, a, b, tx, ty);
            }
        }
    }
}

/// A report wakes the cell's own chunk, and besides it only the chunk across
/// a side on which the cell lies on the very edge of its own: never a
/// diagonal neighbour, never one farther away. It never puts a chunk to
/// sleep. Waking the whole square around every grain would keep the world
/// awake for ever.
pub proof fn law_report_wakes_only_side_neighbours(w: WorldModel, x: int, y: int, i: int)
    requires
        w.chunk_size > 0,
        0 <= i < w.chunk_dirty_next.len(),
    ensures
        ({
            let r = w.report(x, y);
            let cs = w.chunk_size as int;
            let cx = tdiv(x, cs);
            let cy = tdiv(y, cs);
            let lx = trem(x, cs);
            let ly = trem(y, cs);
            &&& r.chunk_dirty_next.len() == w.chunk_dirty_next.len()
            &&& (w.chunk_in_range(cx, cy) && w.chunk_slot(cx, cy) == i ==> r.chunk_dirty_next[i] == 1)
            &&& (r.chunk_dirty_next[i] != w.chunk_dirty_next[i] ==> {
                &&& r.chunk_dirty_next[i] == 1
                &&& {
                    ||| w.chunk_in_range(cx, cy) && i == w.chunk_slot(cx, cy)
                    ||| lx == 0 && w.chunk_in_range(cx - 1, cy) && i == w.chunk_slot(cx - 1, cy)
                    ||| lx == cs - 1 && w.chunk_in_range(cx + 1, cy) && i == w.chunk_slot(cx + 1, cy)
                    ||| ly == 0 && w.chunk_in_range(cx, cy - 1) && i == w.chunk_slot(cx, cy - 1)
                    ||| ly == cs - 1 && w.chunk_in_range(cx, cy + 1) && i == w.chunk_slot(cx, cy + 1)
                }
            })
        }),
{
    w.lemma_report_frame(x, y);
}

/// A move carries the element: the target cell takes the identifier that
/// stood at the origin, the origin is left empty, the element's position
/// fields name the target, and no other cell and no other field changes.
pub proof fn law_move_carries_the_element(w: WorldModel, slot: int, fx: int, fy: int, tx: int, ty: int)
    requires
        w.wf(),
        0 <= slot < w.elements.len(),
        w.in_bounds(fx, fy),
        w.in_bounds(tx, ty),
        fx != tx || fy != ty,
    ensures
        ({
            let m = w.move_element(slot, fx, fy, tx, ty);
            &&& m.cell(tx, ty) == w.cell(fx, fy)
            &&& m.cell(fx, fy) == EMPTY
            &&& m.elements.x[slot] == tx as u16
            &&& m.elements.y[slot] == ty as u16
            &&& m.elements == (ElementsModel { x: m.elements.x, y: m.elements.y, ..w.elements })
            &&& forall|s: int| 0 <= s < w.elements.len() && s != slot ==> m.elements.x[s] == w.elements.x[s]
                && m.elements.y[s] == w.elements.y[s]
            &&& forall|a: int, b: int|
                #![trigger m.cell(a, b)]
                w.in_bounds(a, b) && (a != fx || b != fy) && (a != tx || b != ty) ==> m.cell(a, b) == w.cell(a, b)
        }),
{
    let m = w.move_element(slot, fx, fy, tx, ty);
    w.lemma_moves_wf(slot, slot, fx, fy, tx, ty);
    lemma_idx_in_grid(w.width as int, w.height as int, fx, fy);
    lemma_idx_in_grid(w.width as int, w.height as int, tx, ty);
    let id = w.cell(fx, fy);
    let moved = WorldModel {
        elements: ElementsModel {
            x: w.elements.x.update(slot, tx as u16),
            y: w.elements.y.update(slot, ty as u16),
            ..w.elements
        },
        ..w
    };
    let m1 = moved.set_cell(tx, ty, id);
    moved.lemma_set_cell_wf(tx, ty, id);
    m1.lemma_set_cell_wf(fx, fy, EMPTY);
    let i1 = moved.idx(tx, ty);
    WorldModel { cells: moved.cells.update(i1, id), changed: moved.changed.push(i1 as u32), ..moved }.lemma_report_frame(tx, ty);
    let i2 = m1.idx(fx, fy);
    WorldModel { cells: m1.cells.update(i2, EMPTY), changed: m1.changed.push(i2 as u32), ..m1 }.lemma_report_frame(fx, fy);
    if w.idx(fx, fy) == w.idx(tx, ty) {
        lemma_idx_injective(w.width as int, w.height as int, fx, fy, tx, ty);
    }
    assert forall|a: int, b: int|
        #![trigger m.cell(a, b)]
        w.in_bounds(a, b) && (a != fx || b != fy) && (a != tx || b != ty) implies m.cell(a, b) == w.cell(a, b) by {
        lemma_idx_in_grid(w.width as int, w.height as int, a, b);
        if w.idx(a, b) == w.idx(fx, fy) {
            lemma_idx_injective(w.width as int, w.height as int, a, b, fx, fy);
        }
        if w.idx(a, b) == w.idx(tx, ty) {
            lemma_idx_injective(w.width as int, w.height as int, a, b, tx, ty);
        }
    }
}

/// An exchange by density swaps two elements: each cell takes the other's
/// identifier, the position fields follow, the one pushed through is held
/// to 60 cells a second, and no other cell changes.
pub proof fn law_swap_exchanges(w: WorldModel, sa: int, sb: int, ax: int, ay: int, bx: int, by: int)
    requires
        w.wf(),
        0 <= sa < w.elements.len(),
        0 <= sb < w.elements.len(),
        sa != sb,
        w.in_bounds(ax, ay),
        w.in_bounds(bx, by),
        ax != bx || ay != by,
    ensures
        ({
            let m = w.swap_elements(sa, sb, ax, ay, bx, by);
            let vy = w.elements.velocity_y[sa];
            &&& m.cell(ax, ay) == w.cell(bx, by)
            &&& m.cell(bx, by) == w.cell(ax, ay)
            &&& m.elements.x[sa] == bx as u16 && m.elements.y[sa] == by as u16
            &&& m.elements.x[sb] == ax as u16 && m.elements.y[sb] == ay as u16
            &&& m.elements.velocity_y[sa] == if single::gt(vy, single::SIXTY) {
                single::SIXTY
            } else {
                vy
            }
            &&& forall|a: int, b: int|
                #![trigger m.cell(a, b)]
                w.in_bounds(a, b) && (a != ax || b != ay) && (a != bx || b != by) ==> m.cell(a, b) == w.cell(a, b)
        }),
{
    let m = w.swap_elements(sa, sb, ax, ay, bx, by);
    lemma_idx_in_grid(w.width as int, w.height as int, ax, ay);
    lemma_idx_in_grid(w.width as int, w.height as int, bx, by);
    let id_a = w.cell(ax, ay);
    let id_b = w.cell(bx, by);
    let vy = w.elements.velocity_y;
    let vy2 = if single::gt(vy[sa], single::SIXTY) {
        vy.update(sa, single::SIXTY)
    } else {
        vy
    };
    let swapped = WorldModel {
        elements: ElementsModel {
            velocity_y: vy2,
            x: w.elements.x.update(sa, bx as u16).update(sb, ax as u16),
            y: w.elements.y.update(sa, by as u16).update(sb, ay as u16),
            ..w.elements
        },
        ..w
    };
    let m1 = swapped.set_cell(ax, ay, id_b);
    let i1 = swapped.idx(ax, ay);
    WorldModel { cells: swapped.cells.update(i1, id_b), changed: swapped.changed.push(i1 as u32), ..swapped }.lemma_report_frame(ax, ay);
    let i2 = m1.idx(bx, by);
    WorldModel { cells: m1.cells.update(i2, id_a), changed: m1.changed.push(i2 as u32), ..m1 }.lemma_report_frame(bx, by);
    if w.idx(ax, ay) == w.idx(bx, by) {
        lemma_idx_injective(w.width as int, w.height as int, ax, ay, bx, by);
    }
    assert forall|a: int, b: int|
        #![trigger m.cell(a, b)]
        w.in_bounds(a, b) && (a != ax || b != ay) && (a != bx || b != by) implies m.cell(a, b) == w.cell(a, b) by {
        lemma_idx_in_grid(w.width as int, w.height as int, a, b);
        if w.idx(a, b) == w.idx(ax, ay) {
            lemma_idx_injective(w.width as int, w.height as int, a, b, ax, ay);
        }
        if w.idx(a, b) == w.idx(bx, by) {
            lemma_idx_injective(w.width as int, w.height as int, a, b, bx, by);
        }
    }
}

/// A write inside the world changes one entry of the cell vector.
pub proof fn lemma_set_cell_cells(w: WorldModel, x: int, y: int, id: u32)
    requires
        w.wf(),
    ensures
        w.in_bounds(x, y) ==> w.set_cell(x, y, id).cells == w.cells.update(w.idx(x, y), id),
        !w.in_bounds(x, y) ==> w.set_cell(x, y, id).cells == w.cells,
        w.set_cell(x, y, id).elements == w.elements,
{
    w.lemma_set_cell_wf(x, y, id);
    if w.in_bounds(x, y) {
        lemma_idx_in_grid(w.width as int, w.height as int, x, y);
        let i = w.idx(x, y);
        WorldModel { cells: w.cells.update(i, id), changed: w.changed.push(i as u32), ..w }.lemma_report_frame(x, y);
    }
}

/// Writing `a` over `b` at `i` and `b` over `a` at `j` keeps the multiset.
proof fn lemma_exchange_multiset(s: Seq<u32>, i: int, j: int)
    requires
        0 <= i < s.len(),
        0 <= j < s.len(),
        i != j,
    ensures
        s.update(i, s[j]).update(j, s[i]).to_multiset() =~= s.to_multiset(),
{
    broadcast use vstd::seq_lib::to_multiset_update, vstd::seq_lib::to_multiset_contains, vstd::multiset::group_multiset_axioms;
    let m = s.to_multiset();
    let s1 = s.update(i, s[j]);
    assert(s.contains(s[i]));
    assert(m.count(s[i]) > 0);
    assert(s1[j] == s[j]);
    assert(s1.to_multiset() =~= m.insert(s[j]).remove(s[i]));
    assert(s1.update(j, s[i]).to_multiset() =~= s1.to_multiset().insert(s[i]).remove(s[j]));
    assert(m.insert(s[j]).remove(s[i]).insert(s[i]).remove(s[j]) =~= m);
}

/// A move into an empty cell keeps the grid and the fields consistent and
/// the multiset of identifiers in the grid: the element only changes place.
pub proof fn lemma_move_consistent(w: WorldModel, slot: int, fx: int, fy: int, tx: int, ty: int)
    requires
        w.wf(),
        w.consistent(),
        0 <= slot < w.elements.len(),
        w.cell(fx, fy) == ELEMENT_MIN + slot,
        element_id(w.cell(fx, fy)),
        w.cell(tx, ty) == EMPTY,
        tx < 0x1_0000,
        ty < 0x1_0000,
    ensures
        w.move_element(slot, fx, fy, tx, ty).consistent(),
        w.move_element(slot, fx, fy, tx, ty).cells.to_multiset() == w.cells.to_multiset(),
{
    let m = w.move_element(slot, fx, fy, tx, ty);
    law_move_carries_the_element(w, slot, fx, fy, tx, ty);
    let id = w.cell(fx, fy);
    let moved = WorldModel {
        elements: ElementsModel {
            x: w.elements.x.update(slot, tx as u16),
            y: w.elements.y.update(slot, ty as u16),
            ..w.elements
        },
        ..w
    };
    lemma_set_cell_cells(moved, tx, ty, id);
    moved.lemma_set_cell_wf(tx, ty, id);
    lemma_set_cell_cells(moved.set_cell(tx, ty, id), fx, fy, EMPTY);
    lemma_idx_in_grid(w.width as int, w.height as int, fx, fy);
    lemma_idx_in_grid(w.width as int, w.height as int, tx, ty);
    if w.idx(fx, fy) == w.idx(tx, ty) {
        lemma_idx_injective(w.width as int, w.height as int, fx, fy, tx, ty);
    }
    assert(m.cells == w.cells.update(w.idx(tx, ty), id).update(w.idx(fx, fy), EMPTY));
    lemma_exchange_multiset(w.cells, w.idx(tx, ty), w.idx(fx, fy));
    assert forall|a: int, b: int|
        #![trigger m.cell(a, b)]
        m.in_bounds(a, b) && element_id(m.cell(a, b)) && m.cell(a, b) - ELEMENT_MIN < m.elements.kind.len()
            implies {
            let s = m.cell(a, b) - ELEMENT_MIN;
            &&& m.elements.kind[s] != 0
            &&& m.elements.x[s] as int == a
            &&& m.elements.y[s] as int == b
        } by {
        if (a != fx || b != fy) && (a != tx || b != ty) {
            assert(m.cell(a, b) == w.cell(a, b));
            assert(w.cell(fx, fy) == ELEMENT_MIN + slot);
        }
    }
}

/// An exchange of two elements standing in their own cells keeps the grid
/// and the fields consistent and the multiset of identifiers in the grid.
pub proof fn lemma_swap_consistent(w: WorldModel, sa: int, sb: int, ax: int, ay: int, bx: int, by: int)
    requires
        w.wf(),
        w.consistent(),
        0 <= sa < w.elements.len(),
        0 <= sb < w.elements.len(),
        w.cell(ax, ay) == ELEMENT_MIN + sa,
        w.cell(bx, by) == ELEMENT_MIN + sb,
        element_id(w.cell(ax, ay)),
        element_id(w.cell(bx, by)),
        ax != bx || ay != by,
    ensures
        w.swap_elements(sa, sb, ax, ay, bx, by).consistent(),
        w.swap_elements(sa, sb, ax, ay, bx, by).cells.to_multiset() == w.cells.to_multiset(),
{
    let m = w.swap_elements(sa, sb, ax, ay, bx, by);
    assert(w.in_bounds(ax, ay) && w.in_bounds(bx, by));
    assert(w.elements.x[sa] as int == ax && w.elements.y[sa] as int == ay && w.elements.kind[sa] != 0);
    assert(w.elements.x[sb] as int == bx && w.elements.y[sb] as int == by && w.elements.kind[sb] != 0);
    assert(sa != sb);
    law_swap_exchanges(w, sa, sb, ax, ay, bx, by);
    let id_a = w.cell(ax, ay);
    let id_b = w.cell(bx, by);
    let vy = w.elements.velocity_y;
    let vy2 = if single::gt(vy[sa], single::SIXTY) {
        vy.update(sa, single::SIXTY)
    } else {
        vy
    };
    let swapped = WorldModel {
        elements: ElementsModel {
            velocity_y: vy2,
            x: w.elements.x.update(sa, bx as u16).update(sb, ax as u16),
            y: w.elements.y.update(sa, by as u16).update(sb, ay as u16),
            ..w.elements
        },
        ..w
    };
    lemma_set_cell_cells(swapped, ax, ay, id_b);
    swapped.lemma_set_cell_wf(ax, ay, id_b);
    lemma_set_cell_cells(swapped.set_cell(ax, ay, id_b), bx, by, id_a);
    lemma_idx_in_grid(w.width as int, w.height as int, ax, ay);
    lemma_idx_in_grid(w.width as int, w.height as int, bx, by);
    if w.idx(ax, ay) == w.idx(bx, by) {
        lemma_idx_injective(w.width as int, w.height as int, ax, ay, bx, by);
    }
    assert(m.cells == w.cells.update(w.idx(ax, ay), id_b).update(w.idx(bx, by), id_a));
    lemma_exchange_multiset(w.cells, w.idx(ax, ay), w.idx(bx, by));
    assert(m.elements.kind == w.elements.kind);
    assert forall|a: int, b: int|
        #![trigger m.cell(a, b)]
        m.in_bounds(a, b) && element_id(m.cell(a, b)) && m.cell(a, b) - ELEMENT_MIN < m.elements.kind.len()
            implies {
            let s = m.cell(a, b) - ELEMENT_MIN;
            &&& m.elements.kind[s] != 0
            &&& m.elements.x[s] as int == a
            &&& m.elements.y[s] as int == b
        } by {
        assert(w.cell(ax, ay) == ELEMENT_MIN + sa);
        assert(w.cell(bx, by) == ELEMENT_MIN + sb);
        if (a != ax || b != ay) && (a != bx || b != by) {
            assert(m.cell(a, b) == w.cell(a, b));
        }
    }
}

pub proof fn lemma_idx_in_grid(w: int, h: int, x: int, y: int)
    requires
        0 <= x < w,
        0 <= y < h,
    ensures
        0 <= y * w + x < w * h,
        0 <= y * w,
{
    assert(0 <= y * w) by (nonlinear_arith)
        requires
            0 <= y,
            0 <= w,
    ;
    assert(y * w + x < w * h) by (nonlinear_arith)
        requires
            0 <= x < w,
            0 <= y < h,
    ;
}

impl World {
    pub fn idx(&self, x: i32, y: i32) -> (r: usize)
        requires
            i32::MIN <= y * self.width <= i32::MAX,
            i32::MIN <= y * self.width + x <= i32::MAX,
        ensures
            r == (y * self.width + x) as usize,
    {
        (y * self.width + x) as usize
    }

    pub fn in_bounds(&self, x: i32, y: i32) -> (r: bool)
        ensures
            r == self@.in_bounds(x as int, y as int),
    {
        x >= 0 && y >= 0 && x < self.width && y < self.height
    }

    /// `cellAccess.getCellId`.
    pub fn cell(&self, x: i32, y: i32) -> (r: CellId)
        requires
            self@.wf(),
        ensures
            r == self@.cell(x as int, y as int),
    {
        if self.in_bounds(x, y) {
            proof {
                lemma_idx_in_grid(self.width as int, self.height as int, x as int, y as int);
            }
            self.cells[self.idx(x, y)]
        } else {
            OUT_OF_BOUNDS
        }
    }

    /// `cellAccess.isCellEmpty`.
    pub fn is_empty(&self, x: i32, y: i32) -> (r: bool)
        requires
            self@.wf(),
        ensures
            r == (self@.cell(x as int, y as int) == EMPTY),
    {
        self.cell(x, y) == EMPTY
    }

    /// `cellAccess.getTerrainType`.
    pub fn terrain_of(&self, id: CellId) -> (r: u8)
        ensures
            r == self@.terrain_of(id),
    {
        if id != EMPTY && id <= TERRAIN_MAX {
            let i = id as usize;
            if i < self.terrain_type.len() {
                return self.terrain_type[i];
            }
            return id as u8;
        }
        terrain::EMPTY
    }

    /// Density of what lies in a cell, as a binary32 encoding.
    pub fn density_at(&self, x: i32, y: i32) -> (r: u32)
        requires
            self@.wf(),
        ensures
            r == self@.density_at(x as int, y as int),
    {
        let id = self.cell(x, y);
        if id == EMPTY {
            return single::ZERO;
        }
        if !is_element(id) {
            return single::INFINITY;
        }
        let i = element_index(id);
        if i < self.elements.density.len() {
            self.elements.density[i]
        } else {
            single::INFINITY
        }
    }

    fn chunk_slot(&self, cx: i32, cy: i32) -> (r: usize)
        requires
            self@.wf(),
            self@.chunk_in_range(cx as int, cy as int),
        ensures
            r == self@.chunk_slot(cx as int, cy as int),
    {
        proof {
            lemma_idx_in_grid(
                self.chunk_width as int,
                self.chunk_height as int,
                cx as int,
                cy as int,
            );
        }
        (cy * self.chunk_width + cx) as usize
    }

    /// `cellAccess.shouldChunkUpdate`: is the chunk simulated this frame.
    pub fn chunk_active(&self, cx: i32, cy: i32) -> (r: bool)
        requires
            self@.wf(),
        ensures
            r == self@.chunk_active(cx as int, cy as int),
    {
        if cx < 0 || cy < 0 || cx >= self.chunk_width || cy >= self.chunk_height {
            return false;
        }
        let i = self.chunk_slot(cx, cy);
        if i < self.chunk_should_update.len() {
            self.chunk_should_update[i] == 1
        } else {
            false
        }
    }

    /// `cellAccess.shouldCellInChunkUpdate`: a cell of the margin strip is
    /// simulated only if its own chunk is active.
    pub fn cell_chunk_active(&self, x: i32, y: i32) -> (r: bool)
        requires
            self@.wf(),
            self.chunk_should_update@.len() > 0 ==> self.chunk_size != 0,
            self.chunk_should_update@.len() > 0 && self.chunk_size == -1 ==> x != i32::MIN && y
                != i32::MIN,
        ensures
            r == self@.cell_chunk_active(x as int, y as int),
    {
        if self.chunk_should_update.len() == 0 {
            return true;
        }
        let cx = trunc_div(x, self.chunk_size);
        let cy = trunc_div(y, self.chunk_size);
        self.chunk_active(cx, cy)
    }

    fn set_chunk_next(&mut self, cx: i32, cy: i32)
        requires
            old(self)@.wf(),
        ensures
            final(self)@ == old(self)@.mark_chunk(cx as int, cy as int),
    {
        if cx < 0 || cy < 0 || cx >= self.chunk_width || cy >= self.chunk_height {
            return;
        }
        let i = self.chunk_slot(cx, cy);
        if i < self.chunk_dirty_next.len() {
            self.chunk_dirty_next.set(i, 1);
        }
    }

    /// `reportToChunkAtCellPos`: wake the cell's chunk for the next frame,
    /// and the neighbour across each side on which the cell touches the edge.
    pub fn report_to_chunk(&mut self, x: i32, y: i32)
        requires
            old(self)@.wf(),
            old(self).chunk_size == 1 ==> i32::MIN < x < i32::MAX && i32::MIN < y < i32::MAX,
        ensures
            final(self)@ == old(self)@.report(x as int, y as int),
            final(self)@.wf(),
    {
        proof {
            old(self)@.lemma_report_wf(x as int, y as int);
        }
        if self.chunk_dirty_next.len() == 0 || self.chunk_size <= 0 {
            return;
        }
        let cs = self.chunk_size;
        let cx = x / cs;
        let cy = y / cs;
        let lx = x % cs;
        let ly = y % cs;
        proof {
            if cs != 1 {
                assert(cx as int == tdiv(x as int, cs as int));
                assert(cy as int == tdiv(y as int, cs as int));
                lemma_tdiv_inside(x as int, cs as int);
                lemma_tdiv_inside(y as int, cs as int);
            }
        }
        self.set_chunk_next(cx, cy);
        if lx == 0 {
            self.set_chunk_next(cx - 1, cy);
        }
        if lx == cs - 1 {
            self.set_chunk_next(cx + 1, cy);
        }
        if ly == 0 {
            self.set_chunk_next(cx, cy - 1);
        }
        if ly == cs - 1 {
            self.set_chunk_next(cx, cy + 1);
        }
    }

    /// `setCell`: write an identifier, record the write, wake the chunk.
    pub fn set_cell(&mut self, x: i32, y: i32, id: CellId)
        requires
            old(self)@.wf(),
        ensures
            final(self)@ == old(self)@.set_cell(x as int, y as int, id),
            final(self)@.wf(),
    {
        proof {
            old(self)@.lemma_set_cell_wf(x as int, y as int, id);
        }
        if !self.in_bounds(x, y) {
            return;
        }
        proof {
            lemma_idx_in_grid(self.width as int, self.height as int, x as int, y as int);
        }
        let i = self.idx(x, y);
        self.cells.set(i, id);
        self.changed.push(i as u32);
        self.report_to_chunk(x, y);
    }

    /// `cellOps.cZ`: carry an element into another cell, leaving the origin
    /// empty.
    pub fn move_element(&mut self, slot: usize, from: (i32, i32), to: (i32, i32))
        requires
            old(self)@.wf(),
            slot < old(self)@.elements.len(),
        ensures
            final(self)@ == old(self)@.move_element(
                slot as int,
                from.0 as int,
                from.1 as int,
                to.0 as int,
                to.1 as int,
            ),
            final(self)@.wf(),
    {
        proof {
            old(self)@.lemma_moves_wf(slot as int, slot as int, from.0 as int, from.1 as int, to.0 as int, to.1 as int);
        }
        let id = self.cell(from.0, from.1);
        self.elements.x.set(slot, #[verifier::truncate] (to.0 as u16));
        self.elements.y.set(slot, #[verifier::truncate] (to.1 as u16));
        self.set_cell(to.0, to.1, id);
        self.set_cell(from.0, from.1, EMPTY);
    }

    /// `cellOps.Hc`: exchange two elements.
    pub fn swap_elements(&mut self, slot_a: usize, slot_b: usize, a: (i32, i32), b: (i32, i32))
        requires
            old(self)@.wf(),
            slot_a < old(self)@.elements.len(),
            slot_b < old(self)@.elements.len(),
        ensures
            final(self)@ == old(self)@.swap_elements(
                slot_a as int,
                slot_b as int,
                a.0 as int,
                a.1 as int,
                b.0 as int,
                b.1 as int,
            ),
            final(self)@.wf(),
    {
        proof {
            old(self)@.lemma_moves_wf(slot_a as int, slot_b as int, a.0 as int, a.1 as int, b.0 as int, b.1 as int);
        }
        let id_a = self.cell(a.0, a.1);
        let id_b = self.cell(b.0, b.1);
        if single::greater(self.elements.velocity_y[slot_a], single::SIXTY) {
            self.elements.velocity_y.set(slot_a, single::SIXTY);
        }
        self.elements.x.set(slot_a, #[verifier::truncate] (b.0 as u16));
        self.elements.y.set(slot_a, #[verifier::truncate] (b.1 as u16));
        self.elements.x.set(slot_b, #[verifier::truncate] (a.0 as u16));
        self.elements.y.set(slot_b, #[verifier::truncate] (a.1 as u16));
        self.set_cell(a.0, a.1, id_b);
        self.set_cell(b.0, b.1, id_a);
    }

    /// `cellOps.U7`: the cell becomes empty.
    pub fn remove_element(&mut self, x: i32, y: i32)
        requires
            old(self)@.wf(),
        ensures
            final(self)@ == old(self)@.set_cell(x as int, y as int, EMPTY),
            final(self)@.wf(),
    {
        self.set_cell(x, y, EMPTY);
    }
}

} // verus!
