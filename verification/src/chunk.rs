//! Selection of the chunks that the core can simulate whole.
//!
//! The rule of the project: take only what the core answers for completely.
//! A cell whose type has a mod hook, or a cell next to a structure, needs
//! things the core does not have; such chunks go back to the old code whole.
use vstd::prelude::*;

use crate::physics::{Matter, MatterTable};
use crate::view::{element_id, is_element, World, WorldModel, ELEMENT_MIN};

verus! {

/// What is known of a chunk before it is processed.
#[derive(Clone, Copy, Debug, PartialEq, Eq, Structural)]
pub enum Verdict {
    /// The core takes the chunk whole.
    Native,
    /// The chunk goes back to the game, and this is why.
    Skip(Reason),
}

#[derive(Clone, Copy, Debug, PartialEq, Eq, Structural)]
pub enum Reason {
    /// An element type in the chunk is missing from the matter table.
    UnknownMatter,
    /// A mod hook is subscribed to an element type in the chunk.
    ModHook,
    /// A structure stands in the chunk or next to it.
    Structure,
    /// A timer ran out. Kept for the counters: a whole chunk is no longer
    /// skipped for it, only the cell, by an event.
    Duration,
}

/// The outside data on which the decision is made.
pub struct Gate<'a> {
    /// Mod hooks by element type: a nonzero byte means someone listens.
    pub mod_hooks: &'a [u8],
    /// Grid of structures: a tile of `block_scale` cells a side, nonzero
    /// where a machine stands.
    pub block_types: &'a [u8],
    /// Width of the structure grid in tiles.
    pub block_width: i32,
    /// Cells on a side of a structure tile.
    pub block_scale: i32,
}

impl<'a> Gate<'a> {
    /// First and last tile rows and columns to look at for a cell rectangle,
    /// widened by one cell on each side: a structure past the edge still
    /// reaches the chunk with its ports. The columns stop at the last column
    /// of the grid: past it, an index would name a tile of the next row.
    pub open spec fn tile_x0(self, x0: int) -> int {
        let t = (x0 - 1) / (self.block_scale as int);
        if t < 0 {
            0
        } else {
            t
        }
    }

    pub open spec fn tile_y0(self, y0: int) -> int {
        let t = (y0 - 1) / (self.block_scale as int);
        if t < 0 {
            0
        } else {
            t
        }
    }

    pub open spec fn tile_x1(self, x1: int) -> int {
        let t = (x1 + 1) / (self.block_scale as int);
        if t > self.block_width - 1 {
            self.block_width - 1
        } else {
            t
        }
    }

    pub open spec fn tile_y1(self, y1: int) -> int {
        (y1 + 1) / (self.block_scale as int)
    }

    /// A machine stands on this tile.
    pub open spec fn machine_at(self, tx: int, ty: int) -> bool {
        let i = ty * (self.block_width as int) + tx;
        0 <= i < self.block_types@.len() && self.block_types@[i] != 0
    }

    /// A machine stands on one of the tiles of the grid that reach the
    /// rectangle: a column of the grid (`0 <= tx < block_width`) and a row
    /// from the widened rectangle.
    pub open spec fn structure_near(self, x0: int, y0: int, x1: int, y1: int) -> bool {
        &&& self.block_types@.len() > 0
        &&& self.block_scale > 0
        &&& self.block_width > 0
        &&& exists|tx: int, ty: int|
            0 <= tx < self.block_width && self.tile_x0(x0) <= tx <= self.tile_x1(x1) && self.tile_y0(y0) <= ty
                <= self.tile_y1(y1) && #[trigger] self.machine_at(tx, ty)
    }

    /// The tile arithmetic of a rectangle fits the machine's integers.
    pub open spec fn scan_fits(self, x0: int, y0: int, x1: int, y1: int) -> bool {
        &&& i32::MIN < x0 && i32::MIN < y0 && x1 < i32::MAX && y1 < i32::MAX
        &&& self.block_types@.len() > 0 && self.block_scale > 0 ==> forall|ty: int|
            self.tile_y0(y0) <= ty <= self.tile_y1(y1) ==> i32::MIN <= #[trigger] (ty * (
            self.block_width as int)) && ty * (self.block_width as int) + self.tile_x1(x1)
                <= i32::MAX
    }

    fn has_structure(&self, x0: i32, y0: i32, x1: i32, y1: i32) -> (r: bool)
        requires
            self.scan_fits(x0 as int, y0 as int, x1 as int, y1 as int),
        ensures
            r == self.structure_near(x0 as int, y0 as int, x1 as int, y1 as int),
    {
        if self.block_types.len() == 0 || self.block_scale <= 0 || self.block_width <= 0 {
            return false;
        }
        let bs = self.block_scale;
        let tx0 = floor_div(x0 - 1, bs);
        let tx0 = if tx0 < 0 { 0 } else { tx0 };
        let ty0 = floor_div(y0 - 1, bs);
        let ty0 = if ty0 < 0 { 0 } else { ty0 };
        let tx1 = floor_div(x1 + 1, bs);
        let tx1 = if tx1 > self.block_width - 1 {
            self.block_width - 1
        } else {
            tx1
        };
        let ty1 = floor_div(y1 + 1, bs);
        if ty0 > ty1 || tx0 > tx1 {
            return false;
        }
        let mut ty = ty0;
        loop
            invariant
                self.scan_fits(x0 as int, y0 as int, x1 as int, y1 as int),
                self.block_types@.len() > 0,
                self.block_width > 0,
                bs == self.block_scale,
                bs > 0,
                tx0 == self.tile_x0(x0 as int),
                ty0 == self.tile_y0(y0 as int),
                tx1 == self.tile_x1(x1 as int),
                ty1 == self.tile_y1(y1 as int),
                tx0 <= tx1,
                ty0 <= ty <= ty1,
                forall|a: int, b: int|
                    tx0 <= a <= tx1 && ty0 <= b < ty ==> !#[trigger] self.machine_at(a, b),
            ensures
                !self.structure_near(x0 as int, y0 as int, x1 as int, y1 as int),
            decreases ty1 - ty,
        {
            assert(i32::MIN <= ty * self.block_width && ty * self.block_width + tx1 <= i32::MAX);
            let row = ty * self.block_width;
            let mut tx = tx0;
            loop
                invariant
                    self.scan_fits(x0 as int, y0 as int, x1 as int, y1 as int),
                    self.block_types@.len() > 0,
                    self.block_width > 0,
                    tx0 <= tx <= tx1,
                    ty0 <= ty <= ty1,
                    row == ty * self.block_width,
                    i32::MIN <= row,
                    row + tx1 <= i32::MAX,
                    0 <= tx0,
                    tx0 == self.tile_x0(x0 as int),
                    ty0 == self.tile_y0(y0 as int),
                    tx1 == self.tile_x1(x1 as int),
                    ty1 == self.tile_y1(y1 as int),
                    bs == self.block_scale,
                    bs > 0,
                    forall|a: int, b: int|
                        tx0 <= a <= tx1 && ty0 <= b < ty ==> !#[trigger] self.machine_at(a, b),
                    forall|a: int| tx0 <= a < tx ==> !#[trigger] self.machine_at(a, ty as int),
                ensures
                    forall|a: int| tx0 <= a <= tx1 ==> !#[trigger] self.machine_at(a, ty as int),
                decreases tx1 - tx,
            {
                let i = row + tx;
                if i >= 0 && (i as usize) < self.block_types.len() && self.block_types[i as usize]
                    != 0 {
                    assert(self.machine_at(tx as int, ty as int));
                    assert(self.structure_near(x0 as int, y0 as int, x1 as int, y1 as int));
                    return true;
                }
                if tx == tx1 {
                    break;
                }
                tx = tx + 1;
            }
            if ty == ty1 {
                break;
            }
            ty = ty + 1;
        }
        false
    }
}

/// The tile under a cell: floor division of its coordinates by the scale.
proof fn lemma_tile_of_cell(c: int, lo: int, hi: int, bs: int)
    requires
        bs > 0,
        lo <= c <= hi,
    ensures
        lo / bs <= c / bs <= hi / bs,
{
    assert(lo / bs <= c / bs) by (nonlinear_arith)
        requires
            bs > 0,
            lo <= c,
    ;
    assert(c / bs <= hi / bs) by (nonlinear_arith)
        requires
            bs > 0,
            c <= hi,
    ;
}

/// A tile between two tile bounds holds cells between the cell bounds.
proof fn lemma_cells_of_tile(t: int, lo: int, hi: int, bs: int)
    requires
        bs > 0,
        lo / bs <= t <= hi / bs,
    ensures
        t * bs <= hi,
        lo < t * bs + bs,
{
    assert(t * bs <= hi) by (nonlinear_arith)
        requires
            bs > 0,
            t <= hi / bs,
    ;
    assert(lo < t * bs + bs) by (nonlinear_arith)
        requires
            bs > 0,
            lo / bs <= t,
    ;
}

/// A machine on a tile of the grid that holds a cell within one cell of the
/// rectangle `[x0, x1) x [y0, y1)` (a column or row just outside it
/// included) sends the chunk back to the game: its ports reach the chunk.
pub proof fn law_machine_next_to_the_chunk_sends_it_back(
    w: WorldModel,
    table: MatterTable,
    gate: Gate,
    x0: int,
    y0: int,
    x1: int,
    y1: int,
    cx: int,
    cy: int,
)
    requires
        gate.block_types@.len() > 0,
        gate.block_scale > 0,
        x0 - 1 <= cx <= x1,
        y0 - 1 <= cy <= y1,
        0 <= cx,
        0 <= cy,
        cx / (gate.block_scale as int) < gate.block_width,
        gate.machine_at(cx / (gate.block_scale as int), cy / (gate.block_scale as int)),
    ensures
        verdict_of(w, table, gate, x0, y0, x1, y1) == Verdict::Skip(Reason::Structure),
{
    let bs = gate.block_scale as int;
    lemma_tile_of_cell(cx, x0 - 1, x1 + 1, bs);
    lemma_tile_of_cell(cy, y0 - 1, y1 + 1, bs);
    assert(0 <= cx / bs) by (nonlinear_arith)
        requires
            bs > 0,
            cx >= 0,
    ;
    assert(0 <= cy / bs) by (nonlinear_arith)
        requires
            bs > 0,
            cy >= 0,
    ;
    assert(gate.structure_near(x0, y0, x1, y1));
}

/// A structure is found only on a tile of the grid (a column from zero to
/// the width of the grid) that holds a machine and whose cells lie within
/// one cell of the rectangle: no tile of another row stands in for a
/// column past the edge of the grid.
pub proof fn law_structure_is_a_machine_next_to_the_rectangle(gate: Gate, x0: int, y0: int, x1: int, y1: int)
    requires
        gate.structure_near(x0, y0, x1, y1),
    ensures
        exists|tx: int, ty: int|
            #![trigger gate.machine_at(tx, ty)]
            0 <= tx < gate.block_width && 0 <= ty && gate.machine_at(tx, ty) && tx * (gate.block_scale as int)
                <= x1 + 1 && x0 - 1 < tx * (gate.block_scale as int) + gate.block_scale && ty * (
            gate.block_scale as int) <= y1 + 1 && y0 - 1 < ty * (gate.block_scale as int) + gate.block_scale,
{
    let bs = gate.block_scale as int;
    let (tx, ty) = choose|tx: int, ty: int|
        0 <= tx < gate.block_width && gate.tile_x0(x0) <= tx <= gate.tile_x1(x1) && gate.tile_y0(y0) <= ty
            <= gate.tile_y1(y1) && #[trigger] gate.machine_at(tx, ty);
    lemma_cells_of_tile(tx, x0 - 1, x1 + 1, bs);
    lemma_cells_of_tile(ty, y0 - 1, y1 + 1, bs);
}

/// Floor division by a positive divisor.
fn floor_div(a: i32, b: i32) -> (r: i32)
    requires
        b > 0,
    ensures
        r == (a as int) / (b as int),
{
    match a.checked_div_euclid(b) {
        Some(q) => q,
        None => {
            assert(false) by (nonlinear_arith)
                requires
                    b > 0,
                    !(i32::MIN <= (a as int) / (b as int) <= i32::MAX),
            {
                assert(-0x8000_0000 <= (a as int) / (b as int) <= 0x7fff_ffff) by (nonlinear_arith)
                    requires
                        b > 0,
                        -0x8000_0000 <= a <= 0x7fff_ffff,
                ;
            }
            0
        },
    }
}

/// What one cell says about its chunk: nothing (the scan goes on), or the
/// reason to give the chunk back.
pub open spec fn finding(w: WorldModel, table: MatterTable, hooks: Seq<u8>, id: u32) -> Option<
    Verdict,
> {
    if !element_id(id) {
        None
    } else if id - ELEMENT_MIN >= w.elements.kind.len() {
        Some(Verdict::Skip(Reason::UnknownMatter))
    } else {
        let kind = w.elements.kind[id - ELEMENT_MIN];
        if kind == 0 {
            None
        } else if (kind as int) < hooks.len() && hooks[kind as int] != 0 {
            Some(Verdict::Skip(Reason::ModHook))
        } else if table.matter_of(kind) == Matter::Other {
            Some(Verdict::Skip(Reason::UnknownMatter))
        } else {
            None
        }
    }
}

/// First finding of a row, from column `x` to before `x1`.
pub open spec fn scan_row(
    w: WorldModel,
    table: MatterTable,
    hooks: Seq<u8>,
    y: int,
    x: int,
    x1: int,
) -> Option<Verdict>
    decreases x1 - x,
{
    if x >= x1 {
        None
    } else {
        match finding(w, table, hooks, w.cell(x, y)) {
            Some(v) => Some(v),
            None => scan_row(w, table, hooks, y, x + 1, x1),
        }
    }
}

/// First finding of the rows from `y` to before `y1`, row by row.
pub open spec fn scan_rows(
    w: WorldModel,
    table: MatterTable,
    hooks: Seq<u8>,
    y: int,
    y1: int,
    x0: int,
    x1: int,
) -> Option<Verdict>
    decreases y1 - y,
{
    if y >= y1 {
        None
    } else {
        match scan_row(w, table, hooks, y, x0, x1) {
            Some(v) => Some(v),
            None => scan_rows(w, table, hooks, y + 1, y1, x0, x1),
        }
    }
}

/// The verdict on a chunk: a structure near it first, then the first cell in
/// row order that the core cannot answer for, and otherwise the core takes it.
pub open spec fn verdict_of(
    w: WorldModel,
    table: MatterTable,
    gate: Gate,
    x0: int,
    y0: int,
    x1: int,
    y1: int,
) -> Verdict {
    if gate.structure_near(x0, y0, x1, y1) {
        Verdict::Skip(Reason::Structure)
    } else {
        match scan_rows(w, table, gate.mod_hooks@, y0, y1, x0, x1) {
            Some(v) => v,
            None => Verdict::Native,
        }
    }
}

/// The rectangle lies inside the grid, or is empty.
pub open spec fn window_in_grid(w: WorldModel, x0: int, y0: int, x1: int, y1: int) -> bool {
    x0 >= x1 || y0 >= y1 || (0 <= x0 && x1 <= w.width && 0 <= y0 && y1 <= w.height)
}

proof fn lemma_scan_rows_of_empty_rows(
    w: WorldModel,
    table: MatterTable,
    hooks: Seq<u8>,
    y: int,
    y1: int,
    x0: int,
    x1: int,
)
    requires
        x0 >= x1,
    ensures
        scan_rows(w, table, hooks, y, y1, x0, x1) is None,
    decreases y1 - y,
{
    if y < y1 {
        lemma_scan_rows_of_empty_rows(w, table, hooks, y + 1, y1, x0, x1);
    }
}

proof fn lemma_found(
    w: WorldModel,
    table: MatterTable,
    hooks: Seq<u8>,
    y0: int,
    y: int,
    y1: int,
    x0: int,
    x: int,
    x1: int,
    v: Verdict,
)
    requires
        y < y1,
        x < x1,
        scan_rows(w, table, hooks, y0, y1, x0, x1) == scan_rows(w, table, hooks, y, y1, x0, x1),
        scan_row(w, table, hooks, y, x0, x1) == scan_row(w, table, hooks, y, x, x1),
        finding(w, table, hooks, w.cell(x, y)) == Some(v),
    ensures
        scan_rows(w, table, hooks, y0, y1, x0, x1) == Some(v),
{
}

proof fn lemma_scan_row_step(w: WorldModel, table: MatterTable, hooks: Seq<u8>, y: int, x0: int, x: int, x1: int)
    requires
        x0 <= x < x1,
        scan_row(w, table, hooks, y, x0, x1) == scan_row(w, table, hooks, y, x, x1),
        finding(w, table, hooks, w.cell(x, y)) is None,
    ensures
        scan_row(w, table, hooks, y, x0, x1) == scan_row(w, table, hooks, y, x + 1, x1),
{
}

/// `inspect`: look over a chunk before processing it. Reads cell types and
/// two bytes from the masks, no movement arithmetic.
pub fn inspect(
    world: &World,
    table: &MatterTable,
    gate: &Gate,
    x0: i32,
    y0: i32,
    x1: i32,
    y1: i32,
) -> (r: Verdict)
    requires
        world@.wf(),
        table.wf(),
        window_in_grid(world@, x0 as int, y0 as int, x1 as int, y1 as int),
        gate.scan_fits(x0 as int, y0 as int, x1 as int, y1 as int),
    ensures
        r == verdict_of(world@, *table, *gate, x0 as int, y0 as int, x1 as int, y1 as int),
{
    if gate.has_structure(x0, y0, x1, y1) {
        return Verdict::Skip(Reason::Structure);
    }
    let ghost w = world@;
    let ghost hooks = gate.mod_hooks@;
    if x0 >= x1 || y0 >= y1 {
        proof {
            if x0 >= x1 {
                lemma_scan_rows_of_empty_rows(
                    w,
                    *table,
                    hooks,
                    y0 as int,
                    y1 as int,
                    x0 as int,
                    x1 as int,
                );
            }
        }
        return Verdict::Native;
    }
    let mut y = y0;
    while y < y1
        invariant
            world@ == w,
            w.wf(),
            table.wf(),
            hooks == gate.mod_hooks@,
            !gate.structure_near(x0 as int, y0 as int, x1 as int, y1 as int),
            0 <= x0 < x1 <= w.width,
            0 <= y0 <= y <= y1 <= w.height,
            scan_rows(w, *table, hooks, y0 as int, y1 as int, x0 as int, x1 as int) == scan_rows(
                w,
                *table,
                hooks,
                y as int,
                y1 as int,
                x0 as int,
                x1 as int,
            ),
        decreases y1 - y,
    {
        proof {
            crate::view::lemma_idx_in_grid(w.width as int, w.height as int, 0, y as int);
        }
        let row = (y * world.width) as usize;
        let mut x = x0;
        while x < x1
            invariant
                world@ == w,
                w.wf(),
                table.wf(),
                hooks == gate.mod_hooks@,
                !gate.structure_near(x0 as int, y0 as int, x1 as int, y1 as int),
                0 <= x0 <= x <= x1 <= w.width,
                0 <= y0 <= y < y1 <= w.height,
                row == y * w.width,
                scan_rows(w, *table, hooks, y0 as int, y1 as int, x0 as int, x1 as int)
                    == scan_rows(w, *table, hooks, y as int, y1 as int, x0 as int, x1 as int),
                scan_row(w, *table, hooks, y as int, x0 as int, x1 as int) == scan_row(
                    w,
                    *table,
                    hooks,
                    y as int,
                    x as int,
                    x1 as int,
                ),
            decreases x1 - x,
        {
            proof {
                crate::view::lemma_idx_in_grid(w.width as int, w.height as int, x as int, y as int);
            }
            let id = world.cells[row + x as usize];
            assert(id == w.cell(x as int, y as int));
            if is_element(id) {
                let slot = (id - ELEMENT_MIN) as usize;
                if slot >= world.elements.kind.len() {
                    proof {
                        lemma_found(w, *table, hooks, y0 as int, y as int, y1 as int, x0 as int, x as int, x1 as int, Verdict::Skip(Reason::UnknownMatter));
                    }
                    return Verdict::Skip(Reason::UnknownMatter);
                }
                let kind = world.elements.kind[slot];
                if kind != 0 {
                    let k = kind as usize;
                    if k < gate.mod_hooks.len() && gate.mod_hooks[k] != 0 {
                        proof {
                            lemma_found(w, *table, hooks, y0 as int, y as int, y1 as int, x0 as int, x as int, x1 as int, Verdict::Skip(Reason::ModHook));
                        }
                        return Verdict::Skip(Reason::ModHook);
                    }
                    if table.matter(kind) == Matter::Other {
                        proof {
                            lemma_found(w, *table, hooks, y0 as int, y as int, y1 as int, x0 as int, x as int, x1 as int, Verdict::Skip(Reason::UnknownMatter));
                        }
                        return Verdict::Skip(Reason::UnknownMatter);
                    }
                }
            }
            proof {
                lemma_scan_row_step(w, *table, hooks, y as int, x0 as int, x as int, x1 as int);
            }
            x = x + 1;
        }
        assert(scan_row(w, *table, hooks, y as int, x1 as int, x1 as int) is None);
        y = y + 1;
    }
    Verdict::Native
}

/// A chunk that the core takes has no machine within reach, and every
/// element in it is of a known type that no mod listens to.
pub proof fn law_native_chunk_is_owned(
    w: WorldModel,
    table: MatterTable,
    gate: Gate,
    x0: int,
    y0: int,
    x1: int,
    y1: int,
    x: int,
    y: int,
)
    requires
        verdict_of(w, table, gate, x0, y0, x1, y1) == Verdict::Native,
        x0 <= x < x1,
        y0 <= y < y1,
    ensures
        !gate.structure_near(x0, y0, x1, y1),
        finding(w, table, gate.mod_hooks@, w.cell(x, y)) is None,
        element_id(w.cell(x, y)) && w.elements.kind[w.cell(x, y) - ELEMENT_MIN] != 0 ==> {
            let kind = w.elements.kind[w.cell(x, y) - ELEMENT_MIN];
            &&& table.matter_of(kind) != Matter::Other
            &&& (kind as int) < gate.mod_hooks@.len() ==> gate.mod_hooks@[kind as int] == 0
        },
{
    lemma_scan_rows_never_native(w, table, gate.mod_hooks@, y0, y1, x0, x1);
    lemma_scan_rows_none(w, table, gate.mod_hooks@, y0, y1, x0, x1, x, y);
}

proof fn lemma_scan_row_never_native(
    w: WorldModel,
    table: MatterTable,
    hooks: Seq<u8>,
    y: int,
    x0: int,
    x1: int,
)
    ensures
        scan_row(w, table, hooks, y, x0, x1) != Some(Verdict::Native),
    decreases x1 - x0,
{
    if x0 < x1 {
        lemma_scan_row_never_native(w, table, hooks, y, x0 + 1, x1);
    }
}

proof fn lemma_scan_rows_never_native(
    w: WorldModel,
    table: MatterTable,
    hooks: Seq<u8>,
    y0: int,
    y1: int,
    x0: int,
    x1: int,
)
    ensures
        scan_rows(w, table, hooks, y0, y1, x0, x1) != Some(Verdict::Native),
    decreases y1 - y0,
{
    if y0 < y1 {
        lemma_scan_row_never_native(w, table, hooks, y0, x0, x1);
        lemma_scan_rows_never_native(w, table, hooks, y0 + 1, y1, x0, x1);
    }
}

proof fn lemma_scan_rows_none(
    w: WorldModel,
    table: MatterTable,
    hooks: Seq<u8>,
    y0: int,
    y1: int,
    x0: int,
    x1: int,
    x: int,
    y: int,
)
    requires
        scan_rows(w, table, hooks, y0, y1, x0, x1) is None,
        x0 <= x < x1,
        y0 <= y < y1,
    ensures
        finding(w, table, hooks, w.cell(x, y)) is None,
    decreases y1 - y0,
{
    if y0 < y {
        lemma_scan_rows_none(w, table, hooks, y0 + 1, y1, x0, x1, x, y);
    } else {
        lemma_scan_row_none(w, table, hooks, y, x0, x1, x);
    }
}

proof fn lemma_scan_row_none(
    w: WorldModel,
    table: MatterTable,
    hooks: Seq<u8>,
    y: int,
    x0: int,
    x1: int,
    x: int,
)
    requires
        scan_row(w, table, hooks, y, x0, x1) is None,
        x0 <= x < x1,
    ensures
        finding(w, table, hooks, w.cell(x, y)) is None,
    decreases x1 - x0,
{
    if x0 < x {
        lemma_scan_row_none(w, table, hooks, y, x0 + 1, x1, x);
    }
}

const VERDICT_UNKNOWN: u8 = 0;

const VERDICT_NATIVE: u8 = 1;

const VERDICT_SKIP_BASE: u8 = 2;

/// The byte that a verdict is stored as.
pub open spec fn encode(v: Verdict) -> u8 {
    match v {
        Verdict::Native => 1,
        Verdict::Skip(Reason::UnknownMatter) => 2,
        Verdict::Skip(Reason::ModHook) => 3,
        Verdict::Skip(Reason::Structure) => 4,
        Verdict::Skip(Reason::Duration) => 5,
    }
}

/// The verdict that a stored byte stands for; 0 is "none yet".
pub open spec fn decode(code: u8) -> Option<Verdict> {
    if code == 1 {
        Some(Verdict::Native)
    } else if code >= 2 {
        Some(
            Verdict::Skip(
                if code == 2 {
                    Reason::UnknownMatter
                } else if code == 3 {
                    Reason::ModHook
                } else if code == 4 {
                    Reason::Structure
                } else {
                    Reason::Duration
                },
            ),
        )
    } else {
        None
    }
}

/// Verdicts by chunk, each served for a number of lookups after it was
/// stored. A look over a chunk costs a pass over its cells, and the make-up of
/// a chunk changes slowly: so a verdict is kept a few ticks and renewed in
/// turn.
pub struct VerdictCache {
    verdicts: Vec<u8>,
    age: Vec<u16>,
    lifetime: u16,
}

impl VerdictCache {
    pub closed spec fn wf(self) -> bool {
        self.verdicts@.len() == self.age@.len()
    }

    /// Number of chunks covered.
    pub closed spec fn len(self) -> nat {
        self.verdicts@.len()
    }

    /// The stored byte of a chunk.
    pub closed spec fn code(self, chunk: int) -> u8 {
        self.verdicts@[chunk]
    }

    /// How many more lookups the verdict of a chunk is served for.
    pub closed spec fn age(self, chunk: int) -> u16 {
        self.age@[chunk]
    }

    /// How many lookups a fresh verdict is served for.
    pub closed spec fn lifetime(self) -> u16 {
        self.lifetime
    }

    /// `after` is `self` with chunk `chunk` given its own code and age, and
    /// nothing else changed.
    pub open spec fn with_entry(self, chunk: int, code: u8, age: u16, after: Self) -> bool {
        &&& after.wf()
        &&& after.len() == self.len()
        &&& after.lifetime() == self.lifetime()
        &&& after.code(chunk) == code
        &&& after.age(chunk) == age
        &&& forall|c: int|
            0 <= c < self.len() && c != chunk ==> #[trigger] after.code(c) == self.code(c)
                && after.age(c) == self.age(c)
    }

    /// `r` is what a lookup of `chunk` in `self` gives, and `after` is the
    /// cache after it: a fresh verdict is given back and uses up one unit of
    /// its age; otherwise nothing is found and nothing changes.
    pub open spec fn looked_up(self, chunk: int, r: Option<Verdict>, after: Self) -> bool {
        &&& after.wf()
        &&& chunk < 0 || chunk >= self.len() || self.age(chunk) == 0 ==> r is None && after == self
        &&& 0 <= chunk < self.len() && self.age(chunk) > 0 ==> r == decode(self.code(chunk))
            && self.with_entry(chunk, self.code(chunk), (self.age(chunk) - 1) as u16, after)
    }

    pub fn new(chunks: usize, lifetime: u16) -> (c: Self)
        ensures
            c.wf(),
            c.len() == chunks,
            c.lifetime() == lifetime,
            forall|i: int| 0 <= i < chunks ==> #[trigger] c.code(i) == 0 && c.age(i) == 0,
    {
        VerdictCache {
            verdicts: vec![VERDICT_UNKNOWN; chunks],
            age: vec![0u16; chunks],
            lifetime,
        }
    }

    /// The verdict of a chunk, if it is still fresh. Each lookup that finds
    /// one uses up one unit of its age.
    pub fn get(&mut self, chunk: usize) -> (r: Option<Verdict>)
        requires
            old(self).wf(),
        ensures
            final(self).wf(),
            old(self).looked_up(chunk as int, r, *final(self)),
    {
        if chunk >= self.verdicts.len() {
            return None;
        }
        if self.age[chunk] == 0 {
            return None;
        }
        let a = self.age[chunk];
        self.age.set(chunk, a - 1);
        let v = self.verdicts[chunk];
        if v == VERDICT_NATIVE {
            Some(Verdict::Native)
        } else if v >= VERDICT_SKIP_BASE {
            Some(
                Verdict::Skip(
                    match v - VERDICT_SKIP_BASE {
                        0 => Reason::UnknownMatter,
                        1 => Reason::ModHook,
                        2 => Reason::Structure,
                        _ => Reason::Duration,
                    },
                ),
            )
        } else {
            None
        }
    }

    /// Store the verdict of a chunk, fresh for the whole lifetime.
    pub fn put(&mut self, chunk: usize, verdict: Verdict)
        requires
            old(self).wf(),
        ensures
            final(self).wf(),
            chunk >= old(self).len() ==> *final(self) == *old(self),
            chunk < old(self).len() ==> old(self).with_entry(
                chunk as int,
                encode(verdict),
                old(self).lifetime(),
                *final(self),
            ),
    {
        if chunk >= self.verdicts.len() {
            return;
        }
        let code = match verdict {
            Verdict::Native => VERDICT_NATIVE,
            Verdict::Skip(Reason::UnknownMatter) => VERDICT_SKIP_BASE,
            Verdict::Skip(Reason::ModHook) => VERDICT_SKIP_BASE + 1,
            Verdict::Skip(Reason::Structure) => VERDICT_SKIP_BASE + 2,
            Verdict::Skip(Reason::Duration) => VERDICT_SKIP_BASE + 3,
        };
        self.verdicts.set(chunk, code);
        let lifetime = self.lifetime;
        self.age.set(chunk, lifetime);
    }

    /// Forget every verdict, for instance when the structures changed.
    pub fn clear(&mut self)
        requires
            old(self).wf(),
        ensures
            final(self).wf(),
            final(self).len() == old(self).len(),
            final(self).lifetime() == old(self).lifetime(),
            forall|c: int|
                0 <= c < old(self).len() ==> #[trigger] final(self).age(c) == 0 && final(self).code(c) == old(self).code(c),
    {
        let n = self.age.len();
        let mut i: usize = 0;
        while i < n
            invariant
                self.wf(),
                n == self.age.len(),
                i <= n,
                self.verdicts == old(self).verdicts,
                self.lifetime == old(self).lifetime,
                self.age.len() == old(self).age.len(),
                forall|c: int| 0 <= c < i ==> #[trigger] self.age@[c] == 0,
            decreases n - i,
        {
            self.age.set(i, 0);
            i = i + 1;
        }
    }
}

/// A verdict put into the cache is what the next lookup of that chunk gives
/// back, as long as verdicts live at all; after a clear, no lookup finds one.
pub proof fn law_cache_gives_back_what_was_put(
    empty: VerdictCache,
    chunk: int,
    verdict: Verdict,
    stored: VerdictCache,
    cleared: VerdictCache,
)
    requires
        0 <= chunk < empty.len(),
        empty.lifetime() > 0,
        empty.with_entry(chunk, encode(verdict), empty.lifetime(), stored),
        forall|c: int| 0 <= c < stored.len() ==> #[trigger] cleared.age(c) == 0,
    ensures
        stored.age(chunk) > 0,
        decode(stored.code(chunk)) == Some(verdict),
        cleared.age(chunk) == 0,
{
}

/// The cache after the first `k` lookups of a chunk whose verdict was just
/// put.
proof fn lemma_lookups(
    caches: Seq<VerdictCache>,
    results: Seq<Option<Verdict>>,
    chunk: int,
    verdict: Verdict,
    k: int,
)
    requires
        caches.len() == results.len() + 1,
        caches[0].wf(),
        0 <= chunk < caches[0].len(),
        caches[0].code(chunk) == encode(verdict),
        caches[0].age(chunk) == caches[0].lifetime(),
        forall|i: int| 0 <= i < results.len() ==> #[trigger] caches[i].looked_up(chunk, results[i], caches[i + 1]),
        0 <= k <= results.len(),
    ensures
        caches[k].wf(),
        caches[k].len() == caches[0].len(),
        caches[k].lifetime() == caches[0].lifetime(),
        caches[k].code(chunk) == encode(verdict),
        caches[k].age(chunk) == if k < caches[0].lifetime() {
            caches[0].lifetime() - k
        } else {
            0
        },
        k > 0 ==> results[k - 1] == if k - 1 < caches[0].lifetime() {
            Some(verdict)
        } else {
            None::<Verdict>
        },
    decreases k,
{
    if k > 0 {
        lemma_lookups(caches, results, chunk, verdict, k - 1);
        let j = k - 1;
        assert(caches[j].looked_up(chunk, results[j], caches[j + 1]));
    }
}

/// A verdict put into the cache is given back unchanged by exactly
/// `lifetime` lookups of its chunk, one after the other, and by none after
/// them: it expires.
pub proof fn law_verdict_is_served_lifetime_times(
    caches: Seq<VerdictCache>,
    results: Seq<Option<Verdict>>,
    chunk: int,
    verdict: Verdict,
)
    requires
        caches.len() == results.len() + 1,
        caches[0].wf(),
        0 <= chunk < caches[0].len(),
        caches[0].code(chunk) == encode(verdict),
        caches[0].age(chunk) == caches[0].lifetime(),
        forall|i: int| 0 <= i < results.len() ==> #[trigger] caches[i].looked_up(chunk, results[i], caches[i + 1]),
    ensures
        forall|i: int|
            0 <= i < results.len() ==> #[trigger] results[i] == if i < caches[0].lifetime() {
                Some(verdict)
            } else {
                None::<Verdict>
            },
{
    assert forall|i: int| 0 <= i < results.len() implies #[trigger] results[i] == if i < caches[0].lifetime() {
        Some(verdict)
    } else {
        None::<Verdict>
    } by {
        lemma_lookups(caches, results, chunk, verdict, i + 1);
    }
}

/// Summary of a tick: how many chunks the core took and how many it gave
/// back, with reasons.
#[derive(Clone, Copy, Debug)]
pub struct Stats {
    /// Chunks that nobody took: asleep, with no margin reaching them.
    pub sleeping: u32,
    pub native_chunks: u32,
    pub skipped_unknown: u32,
    pub skipped_hooks: u32,
    pub skipped_structures: u32,
    pub skipped_duration: u32,
    pub cells_touched: u32,
    /// Verdicts taken from the cache, without a pass over the cells.
    pub cached: u32,
    /// Cells that actually moved.
    pub moved: u32,
}

impl Stats {
    /// Chunks on which a verdict was recorded.
    pub open spec fn total(self) -> int {
        self.native_chunks + self.skipped_unknown + self.skipped_hooks + self.skipped_structures
            + self.skipped_duration
    }

    /// The counter that a verdict goes to.
    pub open spec fn counter(self, v: Verdict) -> u32 {
        match v {
            Verdict::Native => self.native_chunks,
            Verdict::Skip(Reason::UnknownMatter) => self.skipped_unknown,
            Verdict::Skip(Reason::ModHook) => self.skipped_hooks,
            Verdict::Skip(Reason::Structure) => self.skipped_structures,
            Verdict::Skip(Reason::Duration) => self.skipped_duration,
        }
    }

    /// Count a verdict under its reason.
    pub fn record(&mut self, verdict: Verdict)
        requires
            old(self).counter(verdict) < u32::MAX,
        ensures
            final(self).counter(verdict) == old(self).counter(verdict) + 1,
            forall|v: Verdict| v != verdict ==> #[trigger] final(self).counter(v) == old(self).counter(v),
            final(self).sleeping == old(self).sleeping,
            final(self).cells_touched == old(self).cells_touched,
            final(self).cached == old(self).cached,
            final(self).moved == old(self).moved,
            final(self).total() == old(self).total() + 1,
    {
        match verdict {
            Verdict::Native => self.native_chunks = self.native_chunks + 1,
            Verdict::Skip(Reason::UnknownMatter) => self.skipped_unknown = self.skipped_unknown + 1,
            Verdict::Skip(Reason::ModHook) => self.skipped_hooks = self.skipped_hooks + 1,
            Verdict::Skip(Reason::Structure) => self.skipped_structures = self.skipped_structures + 1,
            Verdict::Skip(Reason::Duration) => self.skipped_duration = self.skipped_duration + 1,
        }
    }

    /// Chunks on which a verdict was recorded, whatever it was.
    pub fn total_chunks(&self) -> (r: u32)
        requires
            self.total() <= u32::MAX,
        ensures
            r == self.total(),
    {
        self.native_chunks + self.skipped_unknown + self.skipped_hooks + self.skipped_structures
            + self.skipped_duration
    }
}

impl Default for Stats {
    fn default() -> (s: Self)
        ensures
            s.sleeping == 0 && s.native_chunks == 0 && s.skipped_unknown == 0 && s.skipped_hooks == 0
                && s.skipped_structures == 0 && s.skipped_duration == 0 && s.cells_touched == 0
                && s.cached == 0 && s.moved == 0,
    {
        Stats {
            sleeping: 0,
            native_chunks: 0,
            skipped_unknown: 0,
            skipped_hooks: 0,
            skipped_structures: 0,
            skipped_duration: 0,
            cells_touched: 0,
            cached: 0,
            moved: 0,
        }
    }
}

/// Each recorded verdict adds exactly one to the total, under its own reason.
pub proof fn law_every_verdict_is_counted_once(before: Stats, verdict: Verdict, after: Stats)
    requires
        after.counter(verdict) == before.counter(verdict) + 1,
        forall|v: Verdict| v != verdict ==> #[trigger] after.counter(v) == before.counter(v),
    ensures
        after.total() == before.total() + 1,
{
    assert(after.counter(Verdict::Native) == after.native_chunks);
    assert(after.counter(Verdict::Skip(Reason::UnknownMatter)) == after.skipped_unknown);
    assert(after.counter(Verdict::Skip(Reason::ModHook)) == after.skipped_hooks);
    assert(after.counter(Verdict::Skip(Reason::Structure)) == after.skipped_structures);
    assert(after.counter(Verdict::Skip(Reason::Duration)) == after.skipped_duration);
}

/// The rectangle of cells walked over for a chunk: the chunk shifted by the
/// margin, so that the seam between the bands of the threads moves every
/// frame.
#[derive(Clone, Copy, Debug, PartialEq, Eq, Structural)]
pub struct Window {
    pub x0: i32,
    pub y0: i32,
    pub x1: i32,
    pub y1: i32,
}

impl Window {
    pub fn is_empty(&self) -> (r: bool)
        ensures
            r == (self.x0 >= self.x1 || self.y0 >= self.y1),
    {
        self.x0 >= self.x1 || self.y0 >= self.y1
    }
}

/// The cells of chunk `(i, j)`, `[i * cs, i * cs + cs) x [j * cs, j * cs + cs)`
/// cut to the world, meet the window.
pub open spec fn chunk_meets(w: WorldModel, i: int, j: int, win: Window) -> bool {
    let cs = w.chunk_size as int;
    &&& i * cs < win.x1 && win.x0 < min_int(i * cs + cs, w.width as int)
    &&& j * cs < win.y1 && win.y0 < min_int(j * cs + cs, w.height as int)
}

/// The chunks cover the world: `count` is the number of chunks of `cs`
/// cells that it takes to cover `size` cells.
pub open spec fn covers(count: int, cs: int, size: int) -> bool {
    count * cs >= size && size > (count - 1) * cs
}

/// Along one axis: the window `[lo, hi)` of chunk `c`, shifted by `m` and cut
/// to `[0, size)`, meets chunk `c`, meets chunk `c + 1` where the shift is
/// positive and that chunk exists, and meets no other chunk.
proof fn lemma_window_axis(c: int, m: int, cs: int, size: int, count: int, lo: int, hi: int, i: int)
    requires
        cs > 0,
        0 <= m < cs,
        0 <= c < count,
        covers(count, cs, size),
        lo == (if c == 0 {
            0
        } else {
            min_int(c * cs + m, size)
        }),
        hi == min_int(c * cs + cs + m, size),
        lo < hi,
    ensures
        c * cs < hi && lo < min_int(c * cs + cs, size),
        m > 0 && c + 1 < count ==> (c + 1) * cs < hi && lo < min_int((c + 1) * cs + cs, size),
        0 <= i < count && i * cs < hi && lo < min_int(i * cs + cs, size) ==> i == c || (i == c + 1 && m > 0),
{
    assert((c + 1) * cs == c * cs + cs) by (nonlinear_arith);
    assert((c + 2) * cs == c * cs + cs + cs) by (nonlinear_arith);
    assert((i + 1) * cs == i * cs + cs) by (nonlinear_arith);
    if c + 1 < count {
        assert((c + 1) * cs <= (count - 1) * cs) by (nonlinear_arith)
            requires
                c + 1 <= count - 1,
                cs > 0,
        ;
    }
    if 0 <= i < count && i * cs < hi && lo < min_int(i * cs + cs, size) {
        assert(i * cs < (c + 2) * cs);
        assert(i < c + 2) by (nonlinear_arith)
            requires
                i * cs < (c + 2) * cs,
                cs > 0,
        ;
        if c > 0 {
            assert(c * cs < (i + 1) * cs);
            assert(c < i + 1) by (nonlinear_arith)
                requires
                    c * cs < (i + 1) * cs,
                    cs > 0,
            ;
        }
    }
}

/// A chunk is taken up exactly when its window, the chunk shifted by margins
/// smaller than a chunk and cut to the world, meets an awake chunk: a
/// sleeping chunk is visited only where the margin reaches into an awake
/// neighbour.
pub proof fn law_chunk_is_taken_where_its_window_meets_an_awake_one(
    w: WorldModel,
    cx: int,
    cy: int,
    margin_x: int,
    margin_y: int,
)
    requires
        w.chunk_size > 0,
        0 <= margin_x < w.chunk_size,
        0 <= margin_y < w.chunk_size,
        covers(w.chunk_width as int, w.chunk_size as int, w.width as int),
        covers(w.chunk_height as int, w.chunk_size as int, w.height as int),
        0 <= cx < w.chunk_width,
        0 <= cy < w.chunk_height,
        window_fits(w, cx, cy, margin_x, margin_y),
        ({
            let win = window_spec(w, cx, cy, margin_x, margin_y);
            win.x0 < win.x1 && win.y0 < win.y1
        }),
    ensures
        process_spec(w, cx, cy, margin_x, margin_y) <==> exists|i: int, j: int|
            #![trigger w.chunk_active(i, j)]
            w.chunk_active(i, j) && chunk_meets(w, i, j, window_spec(w, cx, cy, margin_x, margin_y)),
{
    let cs = w.chunk_size as int;
    let win = window_spec(w, cx, cy, margin_x, margin_y);
    let lo_x = if cx == 0 { 0 } else { min_int(cx * cs + margin_x, w.width as int) };
    let hi_x = min_int(cx * cs + cs + margin_x, w.width as int);
    let lo_y = if cy == 0 { 0 } else { min_int(cy * cs + margin_y, w.height as int) };
    let hi_y = min_int(cy * cs + cs + margin_y, w.height as int);
    assert(cx * cs >= 0) by (nonlinear_arith)
        requires
            cx >= 0,
            cs > 0,
    ;
    assert(cy * cs >= 0) by (nonlinear_arith)
        requires
            cy >= 0,
            cs > 0,
    ;
    assert(win.x0 as int == lo_x && win.x1 as int == hi_x);
    assert(win.y0 as int == lo_y && win.y1 as int == hi_y);
    if process_spec(w, cx, cy, margin_x, margin_y) {
        lemma_window_axis(cx, margin_x, cs, w.width as int, w.chunk_width as int, lo_x, hi_x, cx);
        lemma_window_axis(cy, margin_y, cs, w.height as int, w.chunk_height as int, lo_y, hi_y, cy);
        if w.chunk_active(cx, cy) {
            assert(chunk_meets(w, cx, cy, win));
        } else if margin_x > 0 && w.chunk_active(cx + 1, cy) {
            assert(chunk_meets(w, cx + 1, cy, win));
        } else if margin_y > 0 && w.chunk_active(cx, cy + 1) {
            assert(chunk_meets(w, cx, cy + 1, win));
        } else {
            assert(chunk_meets(w, cx + 1, cy + 1, win));
        }
    }
    if exists|i: int, j: int| #![trigger w.chunk_active(i, j)] w.chunk_active(i, j) && chunk_meets(w, i, j, win) {
        let (i, j) = choose|i: int, j: int| #![trigger w.chunk_active(i, j)] w.chunk_active(i, j) && chunk_meets(w, i, j, win);
        lemma_window_axis(cx, margin_x, cs, w.width as int, w.chunk_width as int, lo_x, hi_x, i);
        lemma_window_axis(cy, margin_y, cs, w.height as int, w.chunk_height as int, lo_y, hi_y, j);
    }
}

/// Whether to take up a chunk at all. A sleeping chunk is skipped, unless
/// the window shifted by the margin reaches into it from an active neighbour.
pub open spec fn process_spec(w: WorldModel, cx: int, cy: int, margin_x: int, margin_y: int) -> bool {
    ||| w.chunk_active(cx, cy)
    ||| margin_x > 0 && w.chunk_active(cx + 1, cy)
    ||| margin_y > 0 && w.chunk_active(cx, cy + 1)
    ||| margin_x > 0 && margin_y > 0 && w.chunk_active(cx + 1, cy + 1)
}

pub fn should_process(world: &World, cx: i32, cy: i32, margin_x: i32, margin_y: i32) -> (r: bool)
    requires
        world@.wf(),
        margin_x > 0 ==> cx < i32::MAX,
        margin_y > 0 ==> cy < i32::MAX,
    ensures
        r == process_spec(world@, cx as int, cy as int, margin_x as int, margin_y as int),
{
    if world.chunk_active(cx, cy) {
        return true;
    }
    if margin_x > 0 && world.chunk_active(cx + 1, cy) {
        return true;
    }
    if margin_y > 0 && world.chunk_active(cx, cy + 1) {
        return true;
    }
    if margin_x > 0 && margin_y > 0 && world.chunk_active(cx + 1, cy + 1) {
        return true;
    }
    false
}

/// The same for a walk by columns: the margin is along X only, and the
/// neighbour is the one on the side to which the window is shifted.
pub open spec fn process_in_column_spec(w: WorldModel, cx: int, cy: int, margin_x: int) -> bool {
    ||| w.chunk_active(cx, cy)
    ||| margin_x > 0 && w.chunk_active(cx + 1, cy)
    ||| margin_x < 0 && w.chunk_active(cx - 1, cy)
}

pub fn should_process_in_column(world: &World, cx: i32, cy: i32, margin_x: i32) -> (r: bool)
    requires
        world@.wf(),
        margin_x > 0 ==> cx < i32::MAX,
        margin_x < 0 ==> cx > i32::MIN,
    ensures
        r == process_in_column_spec(world@, cx as int, cy as int, margin_x as int),
{
    if world.chunk_active(cx, cy) {
        return true;
    }
    if margin_x == 0 {
        return false;
    }
    let neighbour = if margin_x > 0 {
        cx + 1
    } else {
        cx - 1
    };
    world.chunk_active(neighbour, cy)
}

pub open spec fn min_int(a: int, b: int) -> int {
    if a <= b {
        a
    } else {
        b
    }
}

pub open spec fn max_int(a: int, b: int) -> int {
    if a >= b {
        a
    } else {
        b
    }
}

/// The window of a chunk: the chunk shifted by the margin and cut to the
/// world. Chunk zero starts at the edge of the world: there is nowhere to
/// shift it to.
pub open spec fn window_spec(w: WorldModel, cx: int, cy: int, margin_x: int, margin_y: int) -> Window {
    let cs = w.chunk_size as int;
    let left = cx * cs + margin_x;
    let right = cx * cs + cs + margin_x;
    let top = cy * cs + margin_y;
    let bottom = cy * cs + cs + margin_y;
    let x0 = if cx == 0 {
        0
    } else {
        min_int(left, w.width as int)
    };
    let y0 = if cy == 0 {
        0
    } else {
        min_int(top, w.height as int)
    };
    Window {
        x0: max_int(x0, 0) as i32,
        y0: max_int(y0, 0) as i32,
        x1: min_int(right, w.width as int) as i32,
        y1: min_int(bottom, w.height as int) as i32,
    }
}

/// The window arithmetic fits the machine's integers.
pub open spec fn window_fits(w: WorldModel, cx: int, cy: int, margin_x: int, margin_y: int) -> bool {
    let cs = w.chunk_size as int;
    &&& i32::MIN <= cx * cs <= i32::MAX
    &&& i32::MIN <= cy * cs <= i32::MAX
    &&& i32::MIN <= cx * cs + margin_x <= i32::MAX
    &&& i32::MIN <= cy * cs + margin_y <= i32::MAX
    &&& i32::MIN <= cx * cs + cs <= i32::MAX
    &&& i32::MIN <= cy * cs + cs <= i32::MAX
    &&& i32::MIN <= cx * cs + cs + margin_x <= i32::MAX
    &&& i32::MIN <= cy * cs + cs + margin_y <= i32::MAX
}

/// The window of a chunk. A vertical margin of zero gives the window of a
/// walk by columns, which shifts along X only. The window never reaches
/// past the world: its start is inside it and its end at most its edge.
pub fn window(world: &World, cx: i32, cy: i32, margin_x: i32, margin_y: i32) -> (r: Window)
    requires
        world@.wf(),
        window_fits(world@, cx as int, cy as int, margin_x as int, margin_y as int),
    ensures
        r == window_spec(world@, cx as int, cy as int, margin_x as int, margin_y as int),
        0 <= r.x0 <= world.width,
        0 <= r.y0 <= world.height,
        r.x1 <= world.width,
        r.y1 <= world.height,
{
    let cs = world.chunk_size;
    let left = cx * cs + margin_x;
    let right = cx * cs + cs + margin_x;
    let x0 = if cx == 0 {
        0
    } else if left <= world.width {
        left
    } else {
        world.width
    };
    let x1 = if right <= world.width {
        right
    } else {
        world.width
    };
    let top = cy * cs + margin_y;
    let bottom = cy * cs + cs + margin_y;
    let y0 = if cy == 0 {
        0
    } else if top <= world.height {
        top
    } else {
        world.height
    };
    let y1 = if bottom <= world.height {
        bottom
    } else {
        world.height
    };
    Window {
        x0: if x0 >= 0 {
            x0
        } else {
            0
        },
        y0: if y0 >= 0 {
            y0
        } else {
            0
        },
        x1,
        y1,
    }
}

} // verus!
