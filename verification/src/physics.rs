//! Element movement: Sandustry's physics of cells with elements.
//!
//! This module holds the rules of the grid: where an element may go, what it
//! collides with, whom it displaces, which chunks wake up. The kinematics
//! (gravity, thresholds, damping, the sideways scatter) is in `motion`, and
//! the per-cell and per-region drivers are in `update`. Reactions between
//! elements, expired timers and unknown states of matter are never computed:
//! they go back to the game as events.
use vstd::prelude::*;

pub mod motion;
pub mod update;

pub use motion::{
    gas_fall, liquid_fall, on_blocked, slushy_fall, solid_fall, Blocked, Fall, GRAVITY, UPFLOW,
};
pub use update::{update_element_cell, update_region, Frame};

use crate::events::{Event, EventSink, Why};
use crate::single;
use crate::view::{
    element_id, element_index, is_element, law_move_carries_the_element, law_swap_exchanges,
    lemma_move_consistent, lemma_same_places_consistent, lemma_set_cell_frame, lemma_swap_consistent, skip,
    terrain, CellId, ElementsModel, World, WorldModel, ELEMENT_MIN, EMPTY,
};

verus! {

/// State of matter, as the game's element definitions give it.
#[derive(Clone, Copy, PartialEq, Eq, Debug, Structural)]
pub enum Matter {
    /// Sand, gold, seeds: falls and spreads.
    Solid,
    Liquid,
    Gas,
    /// Wet sand and residue: like a solid, but more viscous.
    Slushy,
    /// `Static` and `Powder`: the game has no movement for them. They stand
    /// still, and a chunk with them is still the core's to take.
    Inert,
    /// Particles, wisps and whatever is not known: they go back to the game.
    Other,
}

/// One step of the xorshift generator.
pub open spec fn xorshift(x: u32) -> u32 {
    let a = x ^ (x << 13u32);
    let b = a ^ (a >> 17u32);
    b ^ (b << 5u32)
}

/// The fraction that `Rng::unit` draws from a state: the top 24 bits of
/// the next state over `2^24`.
pub open spec fn unit_of(state: u32) -> u32 {
    single::quotient(single::from_u32_of(xorshift(state) / 256), single::TWO_POW_24)
}

/// Random number generator: a 32-bit xorshift, so that a run with one seed
/// repeats exactly.
pub struct Rng(u32);

impl Rng {
    /// The generator's state.
    pub closed spec fn state(self) -> u32 {
        self.0
    }

    pub fn new(seed: u64) -> (r: Self)
        ensures
            r.state() == ((seed as u32) << 1u32) | 1u32,
    {
        Rng(((seed as u32) << 1) | 1)
    }

    /// Advance the generator and return its new state.
    pub fn next(&mut self) -> (r: u32)
        ensures
            r == xorshift(old(self).state()),
            final(self).state() == r,
    {
        let mut x = self.0;
        x = x ^ (x << 13);
        x = x ^ (x >> 17);
        x = x ^ (x << 5);
        self.0 = x;
        x
    }

    /// `Math.random()`: the top 24 bits of the next state, as a binary32
    /// fraction in `[0, 1)`.
    pub fn unit(&mut self) -> (r: u32)
        ensures
            r == unit_of(old(self).state()),
            final(self).state() == xorshift(old(self).state()),
    {
        let n = self.next();
        single::over(single::from_u32(n / 256), single::TWO_POW_24)
    }

    /// `getRandomIntBetween(a, b)`: both ends included. For `b <= a` it is `a`
    /// and the generator does not move.
    pub fn int_between(&mut self, a: i32, b: i32) -> (r: i32)
        requires
            b > a ==> b - a + 1 <= i32::MAX,
        ensures
            b <= a ==> r == a && final(self).state() == old(self).state(),
            b > a ==> final(self).state() == xorshift(old(self).state()) && r == a + (xorshift(
                old(self).state(),
            ) as int) % (b - a + 1),
            b > a ==> a <= r <= b,
    {
        if b <= a {
            return a;
        }
        let n = self.next();
        let span = (b - a + 1) as u32;
        a + (n % span) as i32
    }
}

/// A generator that is not in the all-zero state never reaches it: xorshift
/// maps every nonzero state to a nonzero state, and every seed gives an odd
/// start.
pub proof fn law_generator_never_stalls(x: u32, seed: u64)
    ensures
        x != 0 ==> xorshift(x) != 0,
        ((seed as u32) << 1u32) | 1u32 != 0,
{
    assert(x != 0 ==> xorshift(x) != 0) by (bit_vector);
    let s = seed as u32;
    assert((s << 1u32) | 1u32 != 0) by (bit_vector);
}

/// The slots that the core has simulated in this frame. The game marks each
/// simulated element and clears the marks at the end of the tick from its own
/// list; the core has to do the same and hand its list over.
pub struct Marks {
    slots: Vec<u32>,
}

impl Marks {
    pub closed spec fn listed(self) -> Seq<u32> {
        self.slots@
    }

    pub fn new() -> (m: Self)
        ensures
            m.listed() == Seq::<u32>::empty(),
    {
        Marks { slots: Vec::new() }
    }

    pub fn clear(&mut self)
        ensures
            final(self).listed() == Seq::<u32>::empty(),
    {
        self.slots.clear();
    }

    pub fn slots(&self) -> (r: &[u32])
        ensures
            r@ == self.listed(),
    {
        self.slots.as_slice()
    }

    /// Mark a slot as simulated this frame and list it.
    pub fn mark(&mut self, world: &mut World, slot: usize)
        requires
            old(world)@.wf(),
            slot < old(world)@.elements.len(),
        ensures
            final(world)@.elements.duration_left == old(world)@.elements.duration_left,
            final(world)@ == old(world)@.mark_updated(slot as int),
            final(self).listed() == old(self).listed().push(slot as u32),
    {
        world.elements.has_been_updated.set(slot, 1);
        self.slots.push(#[verifier::truncate] (slot as u32));
    }
}

impl Default for Marks {
    fn default() -> (m: Self)
        ensures
            m.listed() == Seq::<u32>::empty(),
    {
        Self::new()
    }
}

/// Direction of fall: down for everything heavy, up for gas.
#[derive(Clone, Copy, PartialEq, Eq, Debug, Structural)]
pub enum Dir {
    Down,
    Up,
}

impl Dir {
    pub open spec fn spec_step(self) -> int {
        match self {
            Dir::Down => 1,
            Dir::Up => -1,
        }
    }

    pub fn step(self) -> (r: i32)
        ensures
            r == self.spec_step(),
    {
        match self {
            Dir::Down => 1,
            Dir::Up => -1,
        }
    }

    pub fn is_up(self) -> (r: bool)
        ensures
            r == (self == Dir::Up),
    {
        matches!(self, Dir::Up)
    }
}

/// Permission to slide diagonally past an occupied cell.
#[derive(Clone, Copy, PartialEq, Eq, Debug, Structural)]
pub enum Diag {
    Both,
    Neither,
    Left,
    Right,
}

/// Number of element types.
pub const KINDS: usize = 256;

/// Bytes of the pair map: one bit per ordered pair of types.
pub const PAIR_BYTES: usize = 8192;

/// Bit `k` of a byte.
pub open spec fn bit(byte: u8, k: u8) -> bool {
    (byte >> k) & 1u8 == 1u8
}

proof fn lemma_bit_test(byte: u8, k: u8)
    requires
        k < 8,
    ensures
        (byte & (1u8 << k) != 0) == bit(byte, k),
{
    assert((byte & (1u8 << k) != 0) == ((byte >> k) & 1u8 == 1u8)) by (bit_vector)
        requires
            k < 8,
    ;
}

proof fn lemma_bit_set(byte: u8, k: u8, j: u8)
    requires
        k < 8,
        j < 8,
    ensures
        bit(byte | (1u8 << k), j) == (j == k || bit(byte, j)),
{
    assert((((byte | (1u8 << k)) >> j) & 1u8 == 1u8) == (j == k || ((byte >> j) & 1u8 == 1u8)))
        by (bit_vector)
        requires
            k < 8,
            j < 8,
    ;
}

/// The table "element type to behaviour", filled from the game's element
/// definitions, mods included.
pub struct MatterTable {
    states: Vec<Matter>,
    /// `horizontalSpeed` of the definition, as a binary32 encoding: cells per
    /// tick sideways.
    horizontal_speed: Vec<u32>,
    /// Personal ceiling of vertical speed, as a binary32 encoding; zero for
    /// none.
    max_velocity_y: Vec<u32>,
    /// The type takes part in some reaction with another type.
    reactive: Vec<bool>,
    /// The type reacts with itself.
    self_reactive: Vec<bool>,
    /// Exact map of reacting pairs, one bit per ordered pair.
    pairs: Vec<u8>,
}

/// Position of the bit of an ordered pair in the pair map.
pub open spec fn pair_index(a: u8, b: u8) -> int {
    (a as int) * 256 + (b as int)
}

impl MatterTable {
    /// All tables have one entry per type and a symmetric pair map.
    pub closed spec fn wf(self) -> bool {
        &&& self.states.len() == KINDS
        &&& self.horizontal_speed.len() == KINDS
        &&& self.max_velocity_y.len() == KINDS
        &&& self.reactive.len() == KINDS
        &&& self.self_reactive.len() == KINDS
        &&& self.pairs.len() == PAIR_BYTES
        &&& forall|a: u8, b: u8| #[trigger] self.pair(a, b) == self.pair(b, a)
    }

    pub closed spec fn matter_of(self, kind: u8) -> Matter {
        self.states[kind as int]
    }

    pub closed spec fn horizontal_speed_of(self, kind: u8) -> u32 {
        self.horizontal_speed[kind as int]
    }

    pub closed spec fn max_velocity_y_of(self, kind: u8) -> u32 {
        self.max_velocity_y[kind as int]
    }

    pub closed spec fn reactive_with_others(self, kind: u8) -> bool {
        self.reactive[kind as int]
    }

    pub closed spec fn reactive_with_self(self, kind: u8) -> bool {
        self.self_reactive[kind as int]
    }

    /// The pair is marked as reacting.
    pub closed spec fn pair(self, a: u8, b: u8) -> bool {
        bit(self.pairs[pair_index(a, b) / 8], (pair_index(a, b) % 8) as u8)
    }

    /// The two types react: the exact pair is marked, or, failing that, one
    /// of them is marked as reactive at all.
    pub open spec fn reacting(self, a: u8, b: u8) -> bool {
        self.pair(a, b) || self.reactive_with_others(a) || self.reactive_with_others(b)
    }

    proof fn lemma_pairs_kept(before: Self, after: Self)
        requires
            before.wf(),
            after.pairs@ == before.pairs@,
            after.states.len() == KINDS,
            after.horizontal_speed.len() == KINDS,
            after.max_velocity_y.len() == KINDS,
            after.reactive.len() == KINDS,
            after.self_reactive.len() == KINDS,
        ensures
            after.wf(),
            forall|a: u8, b: u8| #[trigger] after.pair(a, b) == before.pair(a, b),
    {
        assert forall|a: u8, b: u8| #[trigger] after.pair(a, b) == after.pair(b, a) by {
            assert(before.pair(a, b) == before.pair(b, a));
        }
    }

    pub fn new() -> (t: Self)
        ensures
            t.wf(),
            forall|k: u8| #[trigger] t.matter_of(k) == Matter::Other,
            forall|k: u8| #[trigger] t.horizontal_speed_of(k) == single::ONE,
            forall|k: u8| #[trigger] t.max_velocity_y_of(k) == single::ZERO,
            forall|k: u8| !#[trigger] t.reactive_with_others(k),
            forall|k: u8| !#[trigger] t.reactive_with_self(k),
            forall|a: u8, b: u8| !#[trigger] t.pair(a, b),
    {
        let t = MatterTable {
            states: vec![Matter::Other; KINDS],
            horizontal_speed: vec![single::ONE; KINDS],
            max_velocity_y: vec![single::ZERO; KINDS],
            reactive: vec![false; KINDS],
            self_reactive: vec![false; KINDS],
            pairs: vec![0u8; PAIR_BYTES],
        };
        assert forall|a: u8, b: u8| !#[trigger] t.pair(a, b) by {
            let byte = t.pairs@[pair_index(a, b) / 8];
            let k = (pair_index(a, b) % 8) as u8;
            assert(byte == 0u8);
            assert(!bit(0u8, k)) by (bit_vector);
        }
        t
    }

    /// Set the state of matter and the sideways speed of a type.
    pub fn set(&mut self, kind: u8, matter: Matter, horizontal_speed: u32)
        requires
            old(self).wf(),
        ensures
            final(self).wf(),
            forall|k: u8| #[trigger]
                final(self).matter_of(k) == if k == kind {
                    matter
                } else {
                    old(self).matter_of(k)
                },
            forall|k: u8| #[trigger]
                final(self).horizontal_speed_of(k) == if k == kind {
                    horizontal_speed
                } else {
                    old(self).horizontal_speed_of(k)
                },
            forall|k: u8| #[trigger]
                final(self).max_velocity_y_of(k) == old(self).max_velocity_y_of(k),
            forall|k: u8| #[trigger]
                final(self).reactive_with_others(k) == old(self).reactive_with_others(k),
            forall|k: u8| #[trigger]
                final(self).reactive_with_self(k) == old(self).reactive_with_self(k),
            forall|a: u8, b: u8| #[trigger] final(self).pair(a, b) == old(self).pair(a, b),
    {
        self.states.set(kind as usize, matter);
        self.horizontal_speed.set(kind as usize, horizontal_speed);
        proof {
            Self::lemma_pairs_kept(*old(self), *self);
        }
    }

    pub fn set_max_velocity_y(&mut self, kind: u8, max: u32)
        requires
            old(self).wf(),
        ensures
            final(self).wf(),
            forall|k: u8| #[trigger] final(self).matter_of(k) == old(self).matter_of(k),
            forall|k: u8| #[trigger]
                final(self).horizontal_speed_of(k) == old(self).horizontal_speed_of(k),
            forall|k: u8| #[trigger]
                final(self).max_velocity_y_of(k) == if k == kind {
                    max
                } else {
                    old(self).max_velocity_y_of(k)
                },
            forall|k: u8| #[trigger]
                final(self).reactive_with_others(k) == old(self).reactive_with_others(k),
            forall|k: u8| #[trigger]
                final(self).reactive_with_self(k) == old(self).reactive_with_self(k),
            forall|a: u8, b: u8| #[trigger] final(self).pair(a, b) == old(self).pair(a, b),
    {
        self.max_velocity_y.set(kind as usize, max);
        proof {
            Self::lemma_pairs_kept(*old(self), *self);
        }
    }

    pub fn set_reactive(&mut self, kind: u8, with_others: bool, with_self: bool)
        requires
            old(self).wf(),
        ensures
            final(self).wf(),
            forall|k: u8| #[trigger] final(self).matter_of(k) == old(self).matter_of(k),
            forall|k: u8| #[trigger]
                final(self).horizontal_speed_of(k) == old(self).horizontal_speed_of(k),
            forall|k: u8| #[trigger]
                final(self).max_velocity_y_of(k) == old(self).max_velocity_y_of(k),
            forall|k: u8| #[trigger]
                final(self).reactive_with_others(k) == if k == kind {
                    with_others
                } else {
                    old(self).reactive_with_others(k)
                },
            forall|k: u8| #[trigger]
                final(self).reactive_with_self(k) == if k == kind {
                    with_self
                } else {
                    old(self).reactive_with_self(k)
                },
            forall|a: u8, b: u8| #[trigger] final(self).pair(a, b) == old(self).pair(a, b),
    {
        self.reactive.set(kind as usize, with_others);
        self.self_reactive.set(kind as usize, with_self);
        proof {
            Self::lemma_pairs_kept(*old(self), *self);
        }
    }

    fn mark_pair(&mut self, a: u8, b: u8)
        requires
            old(self).states.len() == KINDS,
            old(self).pairs.len() == PAIR_BYTES,
        ensures
            final(self).pairs.len() == PAIR_BYTES,
            final(self).states == old(self).states,
            final(self).horizontal_speed == old(self).horizontal_speed,
            final(self).max_velocity_y == old(self).max_velocity_y,
            final(self).reactive == old(self).reactive,
            final(self).self_reactive == old(self).self_reactive,
            forall|x: u8, y: u8| #[trigger]
                final(self).pair(x, y) == (old(self).pair(x, y) || (x == a && y == b)),
    {
        let i = (a as usize) * 256 + b as usize;
        let byte = self.pairs[i / 8];
        let k = (i % 8) as u8;
        self.pairs.set(i / 8, byte | (1u8 << k));
        assert forall|x: u8, y: u8| #[trigger]
            self.pair(x, y) == (old(self).pair(x, y) || (x == a && y == b)) by {
            let j = pair_index(x, y);
            if j / 8 == i / 8 {
                lemma_bit_set(byte, k, (j % 8) as u8);
            }
        }
    }

    /// Mark a pair of types as reacting. The mark is symmetric: the order of
    /// the collision plays no part.
    pub fn set_reaction(&mut self, a: u8, b: u8)
        requires
            old(self).wf(),
        ensures
            final(self).wf(),
            forall|k: u8| #[trigger] final(self).matter_of(k) == old(self).matter_of(k),
            forall|k: u8| #[trigger]
                final(self).horizontal_speed_of(k) == old(self).horizontal_speed_of(k),
            forall|k: u8| #[trigger]
                final(self).max_velocity_y_of(k) == old(self).max_velocity_y_of(k),
            forall|k: u8| #[trigger]
                final(self).reactive_with_others(k) == old(self).reactive_with_others(k),
            forall|k: u8| #[trigger]
                final(self).reactive_with_self(k) == old(self).reactive_with_self(k),
            forall|x: u8, y: u8| #[trigger]
                final(self).pair(x, y) == (old(self).pair(x, y) || (x == a && y == b) || (x == b
                    && y == a)),
    {
        self.mark_pair(a, b);
        self.mark_pair(b, a);
        assert forall|x: u8, y: u8| #[trigger] self.pair(x, y) == self.pair(y, x) by {
            assert(old(self).pair(x, y) == old(self).pair(y, x));
        }
    }

    /// Do these two react: the exact pair map, and failing that the coarse
    /// per-type mark. Better to hand a cell to the game once too often than
    /// to swallow a reaction silently.
    pub fn reacts(&self, a: u8, b: u8) -> (r: bool)
        requires
            self.wf(),
        ensures
            r == self.reacting(a, b),
    {
        let i = (a as usize) * 256 + b as usize;
        let k = (i % 8) as u8;
        proof {
            lemma_bit_test(self.pairs@[(i / 8) as int], k);
        }
        if self.pairs[i / 8] & (1u8 << k) != 0 {
            return true;
        }
        self.reactive[a as usize] || self.reactive[b as usize]
    }

    pub fn matter(&self, kind: u8) -> (r: Matter)
        requires
            self.wf(),
        ensures
            r == self.matter_of(kind),
    {
        self.states[kind as usize]
    }

    /// Sideways speed of a type, as a binary32 encoding.
    pub fn horizontal_speed(&self, kind: u8) -> (r: u32)
        requires
            self.wf(),
        ensures
            r == self.horizontal_speed_of(kind),
    {
        self.horizontal_speed[kind as usize]
    }

    /// Personal ceiling of vertical speed, as a binary32 encoding.
    pub fn max_velocity_y(&self, kind: u8) -> (r: u32)
        requires
            self.wf(),
        ensures
            r == self.max_velocity_y_of(kind),
    {
        self.max_velocity_y[kind as usize]
    }

    pub fn reactive(&self, kind: u8) -> (r: bool)
        requires
            self.wf(),
        ensures
            r == self.reactive_with_others(kind),
    {
        self.reactive[kind as usize]
    }

    pub fn self_reactive(&self, kind: u8) -> (r: bool)
        requires
            self.wf(),
        ensures
            r == self.reactive_with_self(kind),
    {
        self.self_reactive[kind as usize]
    }

    /// Whether two types react does not depend on the order in which they
    /// collide.
    pub proof fn law_reaction_is_symmetric(self, a: u8, b: u8)
        requires
            self.wf(),
        ensures
            self.reacting(a, b) == self.reacting(b, a),
    {
        assert(self.pair(a, b) == self.pair(b, a));
    }
}

impl Default for MatterTable {
    fn default() -> (t: Self)
        ensures
            t.wf(),
            forall|k: u8| #[trigger] t.matter_of(k) == Matter::Other,
            forall|a: u8, b: u8| !#[trigger] t.reacting(a, b),
    {
        Self::new()
    }
}

/// The type of the element in a cell, if an element is there.
pub open spec fn kind_at_spec(w: WorldModel, x: int, y: int) -> Option<u8> {
    let id = w.cell(x, y);
    if !element_id(id) {
        None
    } else if id - ELEMENT_MIN < w.elements.kind.len() {
        Some(w.elements.kind[id - ELEMENT_MIN])
    } else {
        None
    }
}

pub fn kind_at(world: &World, x: i32, y: i32) -> (r: Option<u8>)
    requires
        world@.wf(),
    ensures
        r == kind_at_spec(world@, x as int, y as int),
{
    let id = world.cell(x, y);
    if !is_element(id) {
        return None;
    }
    let i = element_index(id);
    if i < world.elements.kind.len() {
        Some(world.elements.kind[i])
    } else {
        None
    }
}

/// A body of this density may take the cell: it is empty, or holds an
/// element lighter than the body.
pub open spec fn free_for_spec(w: WorldModel, id: u32, density: u32) -> bool {
    if id == EMPTY {
        true
    } else if !element_id(id) {
        false
    } else if id - ELEMENT_MIN < w.elements.density.len() {
        single::gt(density, w.elements.density[id - ELEMENT_MIN])
    } else {
        false
    }
}

/// `j` of the game: may a body of this density take the cell.
pub fn free_for(world: &World, id: CellId, density: u32) -> (r: bool)
    ensures
        r == free_for_spec(world@, id, density),
{
    if id == EMPTY {
        return true;
    }
    if !is_element(id) {
        return false;
    }
    let i = element_index(id);
    if i < world.elements.density.len() {
        single::greater(density, world.elements.density[i])
    } else {
        false
    }
}

/// Permission to slide diagonally past an occupied cell: conveyors and
/// blocks refuse it, sliding blocks allow one side only.
pub open spec fn permission_spec(w: WorldModel, id: u32, is_empty: bool, always: bool) -> Diag {
    let t = w.terrain_of(id);
    if always {
        Diag::Both
    } else if !is_empty && (terrain::conveyor_type(t) || t == terrain::BLOCK) {
        Diag::Neither
    } else if !is_empty && t == terrain::SLIDING_BLOCK_LEFT {
        Diag::Left
    } else if !is_empty && t == terrain::SLIDING_BLOCK_RIGHT {
        Diag::Right
    } else {
        Diag::Both
    }
}

/// `$` of the game. Filters are structures, and chunks with structures are
/// never the core's, so their branch is absent.
pub fn diagonal_permission(world: &World, id: CellId, is_empty: bool, always: bool) -> (r: Diag)
    ensures
        r == permission_spec(world@, id, is_empty, always),
{
    if always {
        return Diag::Both;
    }
    let t = world.terrain_of(id);
    if !is_empty && (terrain::is_conveyor(t) || t == terrain::BLOCK) {
        return Diag::Neither;
    }
    if !is_empty {
        if t == terrain::SLIDING_BLOCK_LEFT {
            return Diag::Left;
        }
        if t == terrain::SLIDING_BLOCK_RIGHT {
            return Diag::Right;
        }
    }
    Diag::Both
}

pub open spec fn allows(perm: Diag, d: int) -> bool {
    perm == Diag::Both || (d == -1 && perm == Diag::Left) || (d == 1 && perm == Diag::Right)
}

pub fn diag_allows(perm: Diag, d: i32) -> (r: bool)
    ensures
        r == allows(perm, d as int),
{
    perm == Diag::Both || (d == -1 && perm == Diag::Left) || (d == 1 && perm == Diag::Right)
}

/// Is there somewhere to go, straight on or diagonally. The answer matters
/// even when the element does not move: if it will, its chunk has to stay
/// awake.
pub open spec fn keeps_moving(w: WorldModel, slot: int, x: int, y: int, dir: Dir, always: bool) -> bool {
    let ny = y + dir.spec_step();
    let density = w.elements.density[slot];
    let id = w.cell(x, ny);
    let perm = permission_spec(w, id, id == EMPTY, always);
    ||| free_for_spec(w, id, density)
    ||| (perm == Diag::Both || perm == Diag::Left) && free_for_spec(w, w.cell(x - 1, ny), density)
    ||| (perm == Diag::Both || perm == Diag::Right) && free_for_spec(w, w.cell(x + 1, ny), density)
}

/// `W` of the game.
pub fn can_keep_moving(world: &World, slot: usize, x: i32, y: i32, dir: Dir, always: bool) -> (r:
    bool)
    requires
        world@.wf(),
        slot < world@.elements.len(),
        i32::MIN < x < i32::MAX,
        i32::MIN < y < i32::MAX,
    ensures
        r == keeps_moving(world@, slot as int, x as int, y as int, dir, always),
{
    let ny = y + dir.step();
    let density = world.elements.density[slot];
    let id = world.cell(x, ny);
    if free_for(world, id, density) {
        return true;
    }
    let perm = diagonal_permission(world, id, id == EMPTY, always);
    if perm == Diag::Neither {
        return false;
    }
    if (perm == Diag::Both || perm == Diag::Left) && free_for(world, world.cell(x - 1, ny), density) {
        return true;
    }
    if (perm == Diag::Both || perm == Diag::Right) && free_for(world, world.cell(x + 1, ny), density)
    {
        return true;
    }
    false
}

/// What a collision with an occupied cell comes to.
#[derive(Clone, Copy, PartialEq, Eq, Debug, Structural)]
pub enum Contact {
    /// Nothing happens; the cell stays in the way.
    Pass,
    /// The cell named an element that is not there: the cell is erased, and
    /// it still stays in the way for this step.
    Phantom,
    /// The pair reacts: the game takes over, the mover is done.
    Reaction,
    /// The mover is heavier and takes the other's place.
    Swap,
}

/// The rules of a collision: ghost cells are erased, machines' elements
/// and equal types are left alone (unless the type reacts with itself),
/// reacting pairs go to the game, and otherwise the heavier displaces the
/// lighter, never an inert one and never one that is falling itself.
#[verifier::opaque]
pub open spec fn contact_spec(
    w: WorldModel,
    table: MatterTable,
    slot: int,
    kind: u8,
    tx: int,
    ty: int,
) -> Contact {
    let id = w.cell(tx, ty);
    let e = w.elements;
    if !element_id(id) {
        Contact::Pass
    } else if id - ELEMENT_MIN >= e.kind.len() {
        Contact::Pass
    } else {
        let other = id - ELEMENT_MIN;
        if e.kind[other] == 0 || e.x[other] as int != tx || e.y[other] as int != ty {
            Contact::Phantom
        } else if e.skip_physics[other] >= skip::AGGRESSIVE {
            Contact::Pass
        } else if kind == e.kind[other] {
            if table.reactive_with_self(kind) {
                Contact::Reaction
            } else {
                Contact::Pass
            }
        } else if table.reacting(kind, e.kind[other]) {
            Contact::Reaction
        } else if table.matter_of(e.kind[other]) == Matter::Inert {
            Contact::Pass
        } else if e.is_free_falling[other] == 1 {
            Contact::Pass
        } else if single::le(e.density[slot], e.density[other]) {
            Contact::Pass
        } else {
            Contact::Swap
        }
    }
}

/// The world after a collision of the element in `slot`, standing at
/// `(fx, fy)`, with the cell `(tx, ty)`.
#[verifier::opaque]
pub open spec fn after_contact(w: WorldModel, c: Contact, slot: int, fx: int, fy: int, tx: int, ty: int) -> WorldModel {
    match c {
        Contact::Phantom => w.set_cell(tx, ty, EMPTY),
        Contact::Swap => w.swap_elements(slot, w.cell(tx, ty) - ELEMENT_MIN, fx, fy, tx, ty),
        _ => w,
    }
}

/// The collision ends the mover's turn.
pub open spec fn consumes(c: Contact) -> bool {
    c == Contact::Reaction || c == Contact::Swap
}

/// The event that a reaction at `(x, y)` hands to the game.
pub open spec fn reaction_event(x: int, y: int) -> Event {
    Event::NeedsJs { x: x as i32, y: y as i32, why: Why::Reaction }
}

/// An exchange by density displaces only an element that is really there,
/// of another type it does not react with, not inert, not falling itself,
/// and not as heavy as the mover: lighter, where both densities are numbers
/// (a NaN density compares as neither).
pub proof fn law_swap_only_displaces_lighter_resting(
    w: WorldModel,
    table: MatterTable,
    slot: int,
    kind: u8,
    tx: int,
    ty: int,
)
    requires
        contact_spec(w, table, slot, kind, tx, ty) == Contact::Swap,
    ensures
        ({
            let id = w.cell(tx, ty);
            let other = id - ELEMENT_MIN;
            &&& element_id(id)
            &&& 0 <= other < w.elements.kind.len()
            &&& w.elements.kind[other] != 0
            &&& w.elements.x[other] as int == tx && w.elements.y[other] as int == ty
            &&& w.elements.kind[other] != kind
            &&& !table.reacting(kind, w.elements.kind[other])
            &&& table.matter_of(w.elements.kind[other]) != Matter::Inert
            &&& w.elements.is_free_falling[other] != 1
            &&& !single::le(w.elements.density[slot], w.elements.density[other])
            &&& !single::is_nan(w.elements.density[slot]) && !single::is_nan(w.elements.density[other])
                ==> single::gt(w.elements.density[slot], w.elements.density[other])
        }),
{
    reveal(contact_spec);
}

/// A collision that does not end the mover's turn changes no cell but the
/// one collided with.
pub proof fn lemma_contact_frame(
    w: WorldModel,
    table: MatterTable,
    slot: int,
    kind: u8,
    fx: int,
    fy: int,
    tx: int,
    ty: int,
    a: int,
    b: int,
)
    requires
        w.wf(),
        !consumes(contact_spec(w, table, slot, kind, tx, ty)),
        a != tx || b != ty,
    ensures
        after_contact(w, contact_spec(w, table, slot, kind, tx, ty), slot, fx, fy, tx, ty).cell(a, b) == w.cell(a, b),
{
    reveal(after_contact);
    lemma_set_cell_frame(w, tx, ty, EMPTY, a, b);
}

/// A contact keeps the world well formed.
pub proof fn lemma_contact_wf(w: WorldModel, table: MatterTable, slot: int, kind: u8, fx: int, fy: int, tx: int, ty: int)
    requires
        w.wf(),
        0 <= slot < w.elements.len(),
    ensures
        after_contact(w, contact_spec(w, table, slot, kind, tx, ty), slot, fx, fy, tx, ty).wf(),
        after_contact(w, contact_spec(w, table, slot, kind, tx, ty), slot, fx, fy, tx, ty).elements.len()
            == w.elements.len(),
        after_contact(w, contact_spec(w, table, slot, kind, tx, ty), slot, fx, fy, tx, ty).same_shape(w),
{
    reveal(contact_spec);
    reveal(after_contact);
    let c = contact_spec(w, table, slot, kind, tx, ty);
    w.lemma_set_cell_wf(tx, ty, EMPTY);
    if c == Contact::Swap {
        w.lemma_moves_wf(slot, w.cell(tx, ty) - ELEMENT_MIN, fx, fy, tx, ty);
    }
}

/// In a consistent world a collision from the mover's own cell keeps the
/// world consistent and the multiset of identifiers in the grid: a cell
/// that names an element always holds it, so nothing is erased as a ghost,
/// and an exchange only swaps two elements. Short of an exchange, the world
/// stays as it was.
pub proof fn lemma_contact_consistent(
    w: WorldModel,
    table: MatterTable,
    slot: int,
    kind: u8,
    fx: int,
    fy: int,
    tx: int,
    ty: int,
)
    requires
        w.wf(),
        w.consistent(),
        0 <= slot < w.elements.len(),
        w.cell(fx, fy) == ELEMENT_MIN + slot,
        element_id(w.cell(fx, fy)),
        fx != tx || fy != ty,
    ensures
        ({
            let c = contact_spec(w, table, slot, kind, tx, ty);
            let w1 = after_contact(w, c, slot, fx, fy, tx, ty);
            &&& w1.consistent()
            &&& w1.cells.to_multiset() == w.cells.to_multiset()
            &&& c != Contact::Phantom
            &&& c != Contact::Swap ==> w1 == w
            &&& c == Contact::Swap ==> w1.cell(fx, fy) != w.cell(fx, fy)
        }),
{
    reveal(contact_spec);
    reveal(after_contact);
    let c = contact_spec(w, table, slot, kind, tx, ty);
    let id = w.cell(tx, ty);
    if element_id(id) && id - ELEMENT_MIN < w.elements.kind.len() {
        assert(w.in_bounds(tx, ty));
        let other = id - ELEMENT_MIN;
        assert(w.elements.kind[other] != 0 && w.elements.x[other] as int == tx && w.elements.y[other] as int == ty);
        if c == Contact::Swap {
            lemma_swap_consistent(w, slot, other, fx, fy, tx, ty);
            law_swap_exchanges(w, slot, other, fx, fy, tx, ty);
        }
    }
}

/// Two types whose pair is marked as reacting always react on a real
/// collision: when the mover meets an element of the other type that really
/// stands in the cell and is not taken by a machine, the collision is a
/// reaction, whatever the coarse per-type marks say; the game takes over.
pub proof fn law_marked_pair_always_reacts(
    w: WorldModel,
    table: MatterTable,
    slot: int,
    kind: u8,
    tx: int,
    ty: int,
)
    requires
        element_id(w.cell(tx, ty)),
        ({
            let other = w.cell(tx, ty) - ELEMENT_MIN;
            &&& 0 <= other < w.elements.kind.len()
            &&& w.elements.kind[other] != 0
            &&& w.elements.x[other] as int == tx
            &&& w.elements.y[other] as int == ty
            &&& w.elements.skip_physics[other] < skip::AGGRESSIVE
            &&& w.elements.kind[other] != kind
            &&& table.pair(kind, w.elements.kind[other])
        }),
    ensures
        contact_spec(w, table, slot, kind, tx, ty) == Contact::Reaction,
        consumes(contact_spec(w, table, slot, kind, tx, ty)),
{
    reveal(contact_spec);
}

/// A collision with an occupied cell: `onActOnCell` of the game together
/// with its exchange by density. Returns whether the mover's turn is over.
/// Reactions are never computed here: they go to the game as an event.
#[verifier::rlimit(40)]
pub fn act_on_cell<S: EventSink>(
    world: &mut World,
    table: &MatterTable,
    sink: &mut S,
    slot: usize,
    kind: u8,
    from: (i32, i32),
    target: (i32, i32),
) -> (r: bool)
    requires
        old(world)@.wf(),
        table.wf(),
        slot < old(world)@.elements.len(),
    ensures
        final(world)@.elements.duration_left == old(world)@.elements.duration_left,
        ({
            let c = contact_spec(old(world)@, *table, slot as int, kind, target.0 as int, target.1 as int);
            &&& r == consumes(c)
            &&& final(world)@ == after_contact(
                old(world)@,
                c,
                slot as int,
                from.0 as int,
                from.1 as int,
                target.0 as int,
                target.1 as int,
            )
            &&& c == Contact::Reaction ==> old(sink).took(
                reaction_event(from.0 as int, from.1 as int),
                final(sink),
            )
            &&& c != Contact::Reaction ==> *final(sink) == *old(sink)
        }),
        final(world)@.wf(),
        final(world)@.elements.len() == old(world)@.elements.len(),
        final(world)@.same_shape(old(world)@),
        old(world)@.consistent() && old(world)@.cell(from.0 as int, from.1 as int) == ELEMENT_MIN + slot
            && element_id(old(world)@.cell(from.0 as int, from.1 as int)) && from != target ==> {
            &&& final(world)@.consistent()
            &&& final(world)@.cells.to_multiset() == old(world)@.cells.to_multiset()
            &&& !r ==> final(world)@ == old(world)@
        },
{
    proof {
        if old(world)@.consistent() && old(world)@.cell(from.0 as int, from.1 as int) == ELEMENT_MIN + slot
            && element_id(old(world)@.cell(from.0 as int, from.1 as int)) && from != target {
            lemma_contact_consistent(old(world)@, *table, slot as int, kind, from.0 as int, from.1 as int, target.0 as int, target.1 as int);
        }
        reveal(contact_spec);
        reveal(after_contact);
        lemma_contact_wf(old(world)@, *table, slot as int, kind, from.0 as int, from.1 as int, target.0 as int, target.1 as int);
    }
    let id = world.cell(target.0, target.1);
    if !is_element(id) {
        return false;
    }
    let other = element_index(id);
    if other >= world.elements.kind.len() {
        return false;
    }
    if world.elements.kind[other] == 0 || world.elements.x[other] as i32 != target.0
        || world.elements.y[other] as i32 != target.1 {
        world.set_cell(target.0, target.1, EMPTY);
        return false;
    }
    if world.elements.skip_physics[other] >= skip::AGGRESSIVE {
        return false;
    }
    let other_kind = world.elements.kind[other];
    if kind == other_kind {
        if table.self_reactive(kind) {
            sink.push(Event::NeedsJs { x: from.0, y: from.1, why: Why::Reaction });
            return true;
        }
        return false;
    }
    if table.reacts(kind, other_kind) {
        sink.push(Event::NeedsJs { x: from.0, y: from.1, why: Why::Reaction });
        return true;
    }
    if table.matter(other_kind) == Matter::Inert {
        return false;
    }
    if world.elements.is_free_falling[other] == 1 {
        return false;
    }
    if single::less_or_equal(world.elements.density[slot], world.elements.density[other]) {
        return false;
    }
    world.swap_elements(slot, other, from, target);
    true
}

/// The stay counter after one more move on row `y`: a move on another row
/// starts the count afresh.
pub open spec fn bumped(w: WorldModel, slot: int, y: int, by: u16) -> WorldModel {
    let e = w.elements;
    let same_row = e.moves_y_axis[slot] as int == y;
    let count = if same_row {
        e.moves_y_axis_count[slot]
    } else {
        0u16
    };
    let total = if count + by > u16::MAX {
        u16::MAX
    } else {
        (count + by) as u16
    };
    WorldModel {
        elements: ElementsModel {
            moves_y_axis: if same_row {
                e.moves_y_axis
            } else {
                e.moves_y_axis.update(slot, y as u16)
            },
            moves_y_axis_count: e.moves_y_axis_count.update(slot, total),
            ..e
        },
        ..w
    }
}

/// Count moves on one row: by this count the game evaporates water and
/// steam that have nowhere to go.
pub fn bump_moves(world: &mut World, slot: usize, y: i32, by: u16)
    requires
        old(world)@.wf(),
        slot < old(world)@.elements.len(),
    ensures
        final(world)@.elements.duration_left == old(world)@.elements.duration_left,
        final(world)@ == bumped(old(world)@, slot as int, y as int, by),
        final(world)@.wf(),
        final(world)@.same_shape(old(world)@),
{
    if world.elements.moves_y_axis[slot] as i32 != y {
        world.elements.moves_y_axis.set(slot, #[verifier::truncate] (y as u16));
        world.elements.moves_y_axis_count.set(slot, 0);
    }
    let c = world.elements.moves_y_axis_count[slot];
    world.elements.moves_y_axis_count.set(slot, c.saturating_add(by));
}

/// Moves on one row that the game tolerates before it evaporates the element.
pub const STAGNANT_LIMIT: u16 = 1000;

/// The common tail of all matters: if the element moved, carry it over and
/// mark it as simulated (`cellOps.cZ`). Returns whether it moved. A move
/// goes into an empty cell, never over another element: an exchange of two
/// occupied cells happens only by density, in a collision.
fn commit(world: &mut World, marks: &mut Marks, slot: usize, from: (i32, i32), to: (i32, i32)) -> (r: bool)
    requires
        old(world)@.wf(),
        slot < old(world)@.elements.len(),
        from != to ==> old(world)@.cell(to.0 as int, to.1 as int) == EMPTY,
    ensures
        final(world)@.elements.duration_left == old(world)@.elements.duration_left,
        r == (from != to),
        !r ==> final(world)@ == old(world)@ && final(marks).listed() == old(marks).listed(),
        r ==> final(world)@ == old(world)@.move_element(
            slot as int,
            from.0 as int,
            from.1 as int,
            to.0 as int,
            to.1 as int,
        ).mark_updated(slot as int),
        r ==> final(marks).listed() == old(marks).listed().push(slot as u32),
        old(world)@.holds(slot as int, from.0 as int, from.1 as int) && old(world)@.positions_fit() ==> {
            &&& final(world)@.consistent()
            &&& final(world)@.cells.to_multiset() == old(world)@.cells.to_multiset()
            &&& final(world)@.cell(from.0 as int, from.1 as int) == if r {
                EMPTY
            } else {
                old(world)@.cell(from.0 as int, from.1 as int)
            }
        },
        final(world)@.wf(),
        final(world)@.elements.len() == old(world)@.elements.len(),
        final(world)@.same_shape(old(world)@),
        r ==> final(world)@.elements.has_been_updated[slot as int] == 1,
{
    if from.0 == to.0 && from.1 == to.1 {
        return false;
    }
    proof {
        old(world)@.lemma_moves_wf(slot as int, slot as int, from.0 as int, from.1 as int, to.0 as int, to.1 as int);
        let w = old(world)@;
        if w.holds(slot as int, from.0 as int, from.1 as int) && w.positions_fit() {
            lemma_move_consistent(w, slot as int, from.0 as int, from.1 as int, to.0 as int, to.1 as int);
            law_move_carries_the_element(w, slot as int, from.0 as int, from.1 as int, to.0 as int, to.1 as int);
            let m = w.move_element(slot as int, from.0 as int, from.1 as int, to.0 as int, to.1 as int);
            assert(m.mark_updated(slot as int).same_places(m));
            lemma_same_places_consistent(m.mark_updated(slot as int), m);
        }
    }
    world.move_element(slot, from, to);
    proof {
        world@.lemma_moves_wf(slot as int, slot as int, 0, 0, 0, 0);
    }
    marks.mark(world, slot);
    true
}

/// The element was not simulated yet this frame, and its chunk is awake.
pub open spec fn processable(w: WorldModel, slot: int, x: int, y: int) -> bool {
    w.elements.has_been_updated[slot] != 1 && w.cell_chunk_active(x, y)
}

pub fn can_process(world: &World, slot: usize, x: i32, y: i32) -> (r: bool)
    requires
        world@.wf(),
        slot < world@.elements.len(),
        world.chunk_should_update@.len() > 0 ==> world.chunk_size != 0,
        i32::MIN < x,
        i32::MIN < y,
    ensures
        r == processable(world@, slot as int, x as int, y as int),
{
    world.elements.has_been_updated[slot] != 1 && world.cell_chunk_active(x, y)
}

/// Packed among its own kind: the cells below (`below` is the direction of
/// fall), below to each side and to each side hold the same type. Such an
/// element has nowhere to go and only gathers speed.
pub open spec fn packed(w: WorldModel, x: int, y: int, below: int, kind: u8) -> bool {
    &&& kind_at_spec(w, x, y + below) == Some(kind)
    &&& kind_at_spec(w, x - 1, y + below) == Some(kind)
    &&& kind_at_spec(w, x + 1, y + below) == Some(kind)
    &&& kind_at_spec(w, x - 1, y) == Some(kind)
    &&& kind_at_spec(w, x + 1, y) == Some(kind)
}

pub fn is_packed(world: &World, x: i32, y: i32, below: i32, kind: u8) -> (r: bool)
    requires
        world@.wf(),
        i32::MIN < x < i32::MAX,
        i32::MIN <= y + below <= i32::MAX,
    ensures
        r == packed(world@, x as int, y as int, below as int, kind),
{
    kind_at(world, x, y + below) == Some(kind) && kind_at(world, x - 1, y + below) == Some(kind)
        && kind_at(world, x + 1, y + below) == Some(kind) && kind_at(world, x - 1, y) == Some(kind)
        && kind_at(world, x + 1, y) == Some(kind)
}

/// An element with a free cell beside it is never packed: packed means
/// its own kind on both sides as well as below.
pub proof fn law_open_side_is_not_packed(w: WorldModel, x: int, y: int, below: int, kind: u8)
    requires
        w.cell(x - 1, y) == EMPTY || w.cell(x + 1, y) == EMPTY || w.cell(x, y + below) == EMPTY,
    ensures
        !packed(w, x, y, below, kind),
{
}

/// Clear the "simulated" marks of all elements: for runs on a snapshot,
/// where the game's own list is absent.
pub fn reset_updated(world: &mut World)
    requires
        old(world)@.wf(),
    ensures
        final(world)@.wf(),
        final(world)@.elements.has_been_updated == Seq::new(old(world)@.elements.has_been_updated.len(), |i: int| 0u8),
        final(world)@ == (WorldModel {
            elements: ElementsModel {
                has_been_updated: final(world)@.elements.has_been_updated,
                ..old(world)@.elements
            },
            ..old(world)@
        }),
{
    let n = world.elements.has_been_updated.len();
    let mut i: usize = 0;
    while i < n
        invariant
            n == old(world)@.elements.has_been_updated.len(),
            i <= n,
            world@ == (WorldModel {
                elements: ElementsModel {
                    has_been_updated: world@.elements.has_been_updated,
                    ..old(world)@.elements
                },
                ..old(world)@
            }),
            world@.elements.has_been_updated.len() == n,
            forall|j: int| 0 <= j < i ==> #[trigger] world@.elements.has_been_updated[j] == 0,
            old(world)@.wf(),
        decreases n - i,
    {
        world.elements.has_been_updated.set(i, 0);
        i = i + 1;
    }
    assert(world@.elements.has_been_updated =~= Seq::new(n as nat, |i: int| 0u8));
}

/// Outcome of a step of movement: the element stays, moved to a cell, or
/// its fate is no longer the core's (it reacted, or displaced another).
#[derive(Clone, Copy, PartialEq, Eq, Debug, Structural)]
pub enum Step {
    Stay,
    Moved(i32, i32),
    Consumed,
}

/// The world with the vertical speed of a slot replaced.
pub open spec fn with_velocity_y(w: WorldModel, slot: int, v: u32) -> WorldModel {
    WorldModel {
        elements: ElementsModel { velocity_y: w.elements.velocity_y.update(slot, v), ..w.elements },
        ..w
    }
}

/// Everything a vertical trace comes to.
pub struct Traced {
    pub world: WorldModel,
    pub end: Step,
    pub blocked: bool,
    pub event: Option<Event>,
}

/// The trace ended at `(px, py)` without being consumed.
pub open spec fn traced_to(w: WorldModel, x0: int, y0: int, px: int, py: int, blocked: bool) -> Traced {
    Traced {
        world: w,
        end: if px != x0 || py != y0 {
            Step::Moved(px as i32, py as i32)
        } else {
            Step::Stay
        },
        blocked,
        event: None,
    }
}

/// The trace ended in a collision that consumed the mover at `(px, py)`.
pub open spec fn traced_consumed(w: WorldModel, c: Contact, px: int, py: int) -> Traced {
    Traced {
        world: w,
        end: Step::Consumed,
        blocked: false,
        event: if c == Contact::Reaction {
            Some(reaction_event(px, py))
        } else {
            None
        },
    }
}

/// The diagonal attempts after hitting something at row `ny`: first on the
/// side where the sideways speed points, then on the other, each only where
/// the permission allows it. A free cell ends the trace there; an occupied
/// one is collided with.
pub open spec fn diagonal_spec(
    w: WorldModel,
    table: MatterTable,
    slot: int,
    kind: u8,
    x0: int,
    y0: int,
    px: int,
    py: int,
    ny: int,
    perm: Diag,
    k: int,
    attempt: int,
) -> Traced
    decreases 2 - attempt,
{
    if attempt >= 2 {
        traced_to(w, x0, y0, px, py, true)
    } else {
        let d = if attempt == 0 {
            k
        } else {
            -k
        };
        if !allows(perm, d) {
            diagonal_spec(w, table, slot, kind, x0, y0, px, py, ny, perm, k, attempt + 1)
        } else if w.cell(px + d, ny) == EMPTY {
            traced_to(w, x0, y0, px + d, ny, false)
        } else {
            let c = contact_spec(w, table, slot, kind, px + d, ny);
            let w1 = after_contact(w, c, slot, x0, y0, px + d, ny);
            if consumes(c) {
                traced_consumed(w1, c, x0, y0)
            } else {
                diagonal_spec(w1, table, slot, kind, x0, y0, px, py, ny, perm, k, attempt + 1)
            }
        }
    }
}

/// `F` of the game: trace the path along the direction of fall, cell by
/// cell, `remaining` more cells. A free cell is entered. An occupied one is
/// collided with; if that does not end the turn, the hit costs a tenth of
/// the vertical speed (`damped` is the speed after that cost) and the
/// element tries to slide diagonally past; failing that, it is blocked.
pub open spec fn trace_spec(
    w: WorldModel,
    table: MatterTable,
    slot: int,
    kind: u8,
    x0: int,
    y0: int,
    remaining: int,
    px: int,
    py: int,
    dir: Dir,
    always: bool,
    damped: u32,
) -> Traced
    decreases remaining,
{
    if remaining <= 0 {
        traced_to(w, x0, y0, px, py, false)
    } else {
        let ny = py + dir.spec_step();
        let id = w.cell(px, ny);
        if id == EMPTY {
            trace_spec(w, table, slot, kind, x0, y0, remaining - 1, px, ny, dir, always, damped)
        } else {
            let c = contact_spec(w, table, slot, kind, px, ny);
            let w1 = after_contact(w, c, slot, x0, y0, px, ny);
            if consumes(c) {
                traced_consumed(w1, c, x0, y0)
            } else {
                let w2 = with_velocity_y(w1, slot, damped);
                let perm = permission_spec(w2, id, false, always);
                let k = if single::lt(w2.elements.velocity_x[slot], single::ZERO) {
                    -1
                } else {
                    1
                };
                diagonal_spec(w2, table, slot, kind, x0, y0, px, py, ny, perm, k, 0)
            }
        }
    }
}

pub open spec fn abs_int(v: int) -> int {
    if v < 0 {
        -v
    } else {
        v
    }
}

/// The diagonal attempts never leave the world: a cell reached was free,
/// and a free cell lies inside. They shift the column by one at most, and
/// only a collision that consumes the mover gives an event.
pub proof fn lemma_diagonal_lands(
    w: WorldModel,
    table: MatterTable,
    slot: int,
    kind: u8,
    x0: int,
    y0: int,
    px: int,
    py: int,
    ny: int,
    perm: Diag,
    k: int,
    attempt: int,
)
    requires
        w.wf(),
        0 <= slot < w.elements.len(),
        k == 1 || k == -1,
        px == x0,
        ny != py,
        ny != y0,
        py == y0 || w.in_bounds(px, py) && w.cell(px, py) == EMPTY,
    ensures
        ({
            let t = diagonal_spec(w, table, slot, kind, x0, y0, px, py, ny, perm, k, attempt);
            &&& (t.end matches Step::Moved(a, b) ==> w.in_bounds(a as int, b as int) && x0 - 1 <= a
                <= x0 + 1 && b != y0 && t.world.cell(a as int, b as int) == EMPTY)
            &&& (t.end != Step::Consumed ==> t.event is None)
            &&& w.holds(slot, x0, y0) ==> {
                &&& t.world.consistent()
                &&& t.world.cells.to_multiset() == w.cells.to_multiset()
                &&& t.end != Step::Consumed ==> t.world.same_places(w)
            }
        }),
    decreases 2 - attempt,
{
    if attempt < 2 {
        let d = if attempt == 0 {
            k
        } else {
            -k
        };
        if !allows(perm, d) {
            lemma_diagonal_lands(w, table, slot, kind, x0, y0, px, py, ny, perm, k, attempt + 1);
        } else if w.cell(px + d, ny) != EMPTY {
            let c = contact_spec(w, table, slot, kind, px + d, ny);
            lemma_contact_wf(w, table, slot, kind, x0, y0, px + d, ny);
            let w1 = after_contact(w, c, slot, x0, y0, px + d, ny);
            if w.holds(slot, x0, y0) {
                lemma_contact_consistent(w, table, slot, kind, x0, y0, px + d, ny);
            }
            if !consumes(c) {
                lemma_contact_frame(w, table, slot, kind, x0, y0, px + d, ny, px, py);
                lemma_diagonal_lands(w1, table, slot, kind, x0, y0, px, py, ny, perm, k, attempt + 1);
            }
        }
    } else {
        if w.holds(slot, x0, y0) {
            lemma_same_places_consistent(w, w);
        }
    }
}

/// A trace never leaves the world and never leaves its column but by one
/// diagonal step; only a collision that consumes the mover gives an event.
pub proof fn lemma_trace_lands(
    w: WorldModel,
    table: MatterTable,
    slot: int,
    kind: u8,
    x0: int,
    y0: int,
    remaining: int,
    px: int,
    py: int,
    dir: Dir,
    always: bool,
    damped: u32,
)
    requires
        w.wf(),
        0 <= slot < w.elements.len(),
        px == x0,
        py == y0 || w.in_bounds(px, py) && w.cell(px, py) == EMPTY,
        (py - y0) * dir.spec_step() >= 0,
    ensures
        ({
            let t = trace_spec(w, table, slot, kind, x0, y0, remaining, px, py, dir, always, damped);
            &&& (t.end matches Step::Moved(a, b) ==> w.in_bounds(a as int, b as int) && x0 - 1 <= a
                <= x0 + 1 && b != y0 && t.world.cell(a as int, b as int) == EMPTY)
            &&& (t.end != Step::Consumed ==> t.event is None)
            &&& w.holds(slot, x0, y0) ==> {
                &&& t.world.consistent()
                &&& t.world.cells.to_multiset() == w.cells.to_multiset()
                &&& t.end != Step::Consumed ==> t.world.same_places(w)
            }
        }),
    decreases remaining,
{
    let ny = py + dir.spec_step();
    assert((ny - y0) * dir.spec_step() > 0) by (nonlinear_arith)
        requires
            ny == py + dir.spec_step(),
            (py - y0) * dir.spec_step() >= 0,
            dir.spec_step() == 1 || dir.spec_step() == -1,
    ;
    if remaining > 0 {
        let id = w.cell(px, ny);
        if id == EMPTY {
            lemma_trace_lands(w, table, slot, kind, x0, y0, remaining - 1, px, ny, dir, always, damped);
        } else {
            let c = contact_spec(w, table, slot, kind, px, ny);
            lemma_contact_wf(w, table, slot, kind, x0, y0, px, ny);
            let w1 = after_contact(w, c, slot, x0, y0, px, ny);
            if w.holds(slot, x0, y0) {
                lemma_contact_consistent(w, table, slot, kind, x0, y0, px, ny);
            }
            if !consumes(c) {
                lemma_contact_frame(w, table, slot, kind, x0, y0, px, ny, px, py);
                let w2 = with_velocity_y(w1, slot, damped);
                let perm = permission_spec(w2, id, false, always);
                let k = if single::lt(w2.elements.velocity_x[slot], single::ZERO) {
                    -1
                } else {
                    1
                };
                if w.holds(slot, x0, y0) {
                    assert(w2.same_places(w));
                    lemma_same_places_consistent(w2, w);
                }
                lemma_diagonal_lands(w2, table, slot, kind, x0, y0, px, py, ny, perm, k, 0);
            }
        }
    } else {
        if w.holds(slot, x0, y0) {
            lemma_same_places_consistent(w, w);
        }
    }
}

/// The diagonal attempts of a trace, from `(px, py)` into row `ny`.
fn try_diagonals<S: EventSink>(
    world: &mut World,
    table: &MatterTable,
    sink: &mut S,
    slot: usize,
    kind: u8,
    x0: i32,
    y0: i32,
    px: i32,
    py: i32,
    ny: i32,
    perm: Diag,
    k: i32,
) -> (r: (Step, bool))
    requires
        old(world)@.wf(),
        table.wf(),
        slot < old(world)@.elements.len(),
        k == 1 || k == -1,
        px == x0,
        i32::MIN < x0 < i32::MAX,
        py != ny,
    ensures
        final(world)@.elements.duration_left == old(world)@.elements.duration_left,
        ({
            let t = diagonal_spec(
                old(world)@,
                *table,
                slot as int,
                kind,
                x0 as int,
                y0 as int,
                px as int,
                py as int,
                ny as int,
                perm,
                k as int,
                0,
            );
            &&& final(world)@ == t.world
            &&& r.0 == t.end
            &&& r.1 == t.blocked
            &&& match t.event {
                Some(e) => old(sink).took(e, final(sink)),
                None => *final(sink) == *old(sink),
            }
        }),
        final(world)@.wf(),
        final(world)@.elements.len() == old(world)@.elements.len(),
        final(world)@.same_shape(old(world)@),
{
    let ghost goal = diagonal_spec(
        old(world)@,
        *table,
        slot as int,
        kind,
        x0 as int,
        y0 as int,
        px as int,
        py as int,
        ny as int,
        perm,
        k as int,
        0,
    );
    let mut attempt: i32 = 0;
    while attempt < 2
        invariant
            world@.wf(),
            table.wf(),
            slot < world@.elements.len(),
            world@.elements.len() == old(world)@.elements.len(),
            *sink == *old(sink),
            world@.same_shape(old(world)@),
            world@.elements.duration_left == old(world)@.elements.duration_left,
            0 <= attempt <= 2,
            k == 1 || k == -1,
            px == x0,
            i32::MIN < x0 < i32::MAX,
            goal == diagonal_spec(
                old(world)@,
                *table,
                slot as int,
                kind,
                x0 as int,
                y0 as int,
                px as int,
                py as int,
                ny as int,
                perm,
                k as int,
                0,
            ),
            goal == diagonal_spec(
                world@,
                *table,
                slot as int,
                kind,
                x0 as int,
                y0 as int,
                px as int,
                py as int,
                ny as int,
                perm,
                k as int,
                attempt as int,
            ),
        decreases 2 - attempt,
    {
        let d = if attempt == 0 {
            k
        } else {
            -k
        };
        if diag_allows(perm, d) {
            let nx = px + d;
            if world.cell(nx, ny) == EMPTY {
                return (Step::Moved(nx, ny), false);
            }
            let ghost w_before = world@;
            let ghost c = contact_spec(w_before, *table, slot as int, kind, nx as int, ny as int);
            if act_on_cell(world, table, sink, slot, kind, (x0, y0), (nx, ny)) {
                assert(goal == traced_consumed(world@, c, x0 as int, y0 as int));
                return (Step::Consumed, false);
            }
        }
        attempt = attempt + 1;
    }
    if px != x0 || py != y0 {
        (Step::Moved(px, py), true)
    } else {
        (Step::Stay, true)
    }
}

/// `F` of the game: trace the element in `slot` from `(x0, y0)` over
/// `delta` cells along `dir`. Returns where it got to and whether it was
/// blocked. `damped_velocity_y` is the element's vertical speed after the
/// tenth that a hit costs.
pub fn trace<S: EventSink>(
    world: &mut World,
    table: &MatterTable,
    sink: &mut S,
    slot: usize,
    kind: u8,
    x0: i32,
    y0: i32,
    delta: i32,
    dir: Dir,
    always_diagonal: bool,
    damped_velocity_y: u32,
) -> (r: (Step, bool))
    requires
        old(world)@.wf(),
        table.wf(),
        slot < old(world)@.elements.len(),
        i32::MIN < x0 < i32::MAX,
        i32::MIN < y0 < i32::MAX,
    ensures
        final(world)@.elements.duration_left == old(world)@.elements.duration_left,
        ({
            let t = trace_spec(
                old(world)@,
                *table,
                slot as int,
                kind,
                x0 as int,
                y0 as int,
                abs_int(delta as int),
                x0 as int,
                y0 as int,
                dir,
                always_diagonal,
                damped_velocity_y,
            );
            &&& final(world)@ == t.world
            &&& r.0 == t.end
            &&& r.1 == t.blocked
            &&& match t.event {
                Some(e) => old(sink).took(e, final(sink)),
                None => *final(sink) == *old(sink),
            }
        }),
        final(world)@.wf(),
        final(world)@.elements.len() == old(world)@.elements.len(),
        final(world)@.same_shape(old(world)@),
{
    let ghost goal = trace_spec(
        old(world)@,
        *table,
        slot as int,
        kind,
        x0 as int,
        y0 as int,
        abs_int(delta as int),
        x0 as int,
        y0 as int,
        dir,
        always_diagonal,
        damped_velocity_y,
    );
    let step = dir.step();
    let mut remaining: i64 = if delta < 0 {
        -(delta as i64)
    } else {
        delta as i64
    };
    let mut px = x0;
    let mut py = y0;
    while remaining > 0
        invariant
            world@.wf(),
            table.wf(),
            slot < world@.elements.len(),
            world@.elements.len() == old(world)@.elements.len(),
            *sink == *old(sink),
                step == dir.spec_step(),
            0 <= remaining,
            px == x0,
            py == y0 || world@.in_bounds(px as int, py as int),
            world@.same_shape(old(world)@),
            world@.elements.duration_left == old(world)@.elements.duration_left,
            i32::MIN < x0 < i32::MAX,
            i32::MIN < y0 < i32::MAX,
            goal == trace_spec(
                old(world)@,
                *table,
                slot as int,
                kind,
                x0 as int,
                y0 as int,
                abs_int(delta as int),
                x0 as int,
                y0 as int,
                dir,
                always_diagonal,
                damped_velocity_y,
            ),
            goal == trace_spec(
                world@,
                *table,
                slot as int,
                kind,
                x0 as int,
                y0 as int,
                remaining as int,
                px as int,
                py as int,
                dir,
                always_diagonal,
                damped_velocity_y,
            ),
        decreases remaining,
    {
        let ny = py + step;
        let id = world.cell(px, ny);
        if id == EMPTY {
            py = ny;
            remaining = remaining - 1;
            continue;
        }
        let ghost w_before = world@;
        let ghost c = contact_spec(w_before, *table, slot as int, kind, px as int, ny as int);
        assert(id == w_before.cell(px as int, ny as int));
        assert(goal == (if consumes(c) { traced_consumed(after_contact(w_before, c, slot as int, x0 as int, y0 as int, px as int, ny as int), c, x0 as int, y0 as int) } else {
                let w2 = with_velocity_y(after_contact(w_before, c, slot as int, x0 as int, y0 as int, px as int, ny as int), slot as int, damped_velocity_y);
                let perm = permission_spec(w2, id, false, always_diagonal);
                let k = if single::lt(w2.elements.velocity_x[slot as int], single::ZERO) { -1 } else { 1 };
                diagonal_spec(w2, *table, slot as int, kind, x0 as int, y0 as int, px as int, py as int, ny as int, perm, k, 0)
            }));
        if act_on_cell(world, table, sink, slot, kind, (x0, y0), (px, ny)) {
            assert(goal == traced_consumed(world@, c, x0 as int, y0 as int));
            return (Step::Consumed, false);
        }
        world.elements.velocity_y.set(slot, damped_velocity_y);
        let perm = diagonal_permission(world, id, false, always_diagonal);
        let k: i32 = if single::is_negative(world.elements.velocity_x[slot]) {
            -1
        } else {
            1
        };
        return try_diagonals(world, table, sink, slot, kind, x0, y0, px, py, ny, perm, k);
    }
    if px != x0 || py != y0 {
        (Step::Moved(px, py), false)
    } else {
        (Step::Stay, false)
    }
}

/// The cells of a sideways run along a slope: step by step toward the side
/// `dir`, stopping at the first occupied cell, and stepping down a row
/// wherever the cell below the new one is free. `last` is the last cell
/// reached.
pub open spec fn slope_path(w: WorldModel, cx: int, cy: int, left: int, dir: int, last: Option<(int, int)>) -> Option<(int, int)>
    decreases left,
{
    if left <= 0 {
        last
    } else {
        let nx = cx + dir;
        if w.cell(nx, cy) != EMPTY {
            last
        } else {
            let ny = if w.cell(nx, cy + 1) == EMPTY {
                cy + 1
            } else {
                cy
            };
            slope_path(w, nx, ny, left - 1, dir, Some((nx, ny)))
        }
    }
}

/// A run along a slope ends on a free cell of the world.
pub proof fn lemma_slope_lands(w: WorldModel, cx: int, cy: int, left: int, dir: int, last: Option<(int, int)>)
    requires
        last matches Some((a, b)) ==> w.cell(a, b) == EMPTY,
    ensures
        slope_path(w, cx, cy, left, dir, last) matches Some((a, b)) ==> w.in_bounds(a, b) && w.cell(a, b)
            == EMPTY,
    decreases left,
{
    if left > 0 {
        let nx = cx + dir;
        if w.cell(nx, cy) == EMPTY {
            let ny = if w.cell(nx, cy + 1) == EMPTY {
                cy + 1
            } else {
                cy
            };
            lemma_slope_lands(w, nx, ny, left - 1, dir, Some((nx, ny)));
        }
    }
}

/// How many columns lie between `cx` and `lx` in the direction `dir`.
pub open spec fn columns_run(cx: int, lx: int, dir: int) -> int {
    if dir == 1 {
        lx - cx
    } else {
        cx - lx
    }
}

proof fn lemma_slope_steps(w: WorldModel, cx: int, cy: int, left: int, dir: int, last: Option<(int, int)>)
    requires
        dir == 1 || dir == -1,
    ensures
        ({
            let r = slope_path(w, cx, cy, left, dir, last);
            ||| r == last
            ||| (r matches Some((lx, ly)) && {
                &&& columns_run(cx, lx, dir) >= 1
                &&& cy <= ly <= cy + columns_run(cx, lx, dir)
                &&& ly == cy ==> forall|c: int|
                    1 <= #[trigger] columns_run(cx, c, dir) <= columns_run(cx, lx, dir) ==> w.cell(c, cy + 1)
                        != EMPTY
            })
        }),
    decreases left,
{
    if left > 0 {
        let nx = cx + dir;
        if w.cell(nx, cy) == EMPTY {
            let ny = if w.cell(nx, cy + 1) == EMPTY {
                cy + 1
            } else {
                cy
            };
            lemma_slope_steps(w, nx, ny, left - 1, dir, Some((nx, ny)));
            let r = slope_path(w, nx, ny, left - 1, dir, Some((nx, ny)));
            if r != Some((nx, ny)) {
                let (lx, ly) = r.unwrap();
                if ly == cy {
                    assert forall|c: int|
                        1 <= #[trigger] columns_run(cx, c, dir) <= columns_run(cx, lx, dir) implies w.cell(c, cy + 1)
                            != EMPTY by {
                        if c != nx {
                            assert(1 <= columns_run(nx, c, dir));
                        }
                    }
                }
            } else {
                if ny == cy {
                    assert forall|c: int|
                        1 <= #[trigger] columns_run(cx, c, dir) <= columns_run(cx, nx, dir) implies w.cell(c, cy + 1)
                            != EMPTY by {
                        assert(c == nx);
                    }
                }
            }
        }
    }
}

/// The sideways run of a landed grain turns into a slope: it never climbs,
/// it goes down at most one row per column, and a run that ends on its own
/// row found something under every cell it crossed: wherever the cell
/// below the next one is free, the grain steps down.
pub proof fn law_sideways_run_steps_down_wherever_it_can(w: WorldModel, cx: int, cy: int, left: int, dir: int)
    requires
        dir == 1 || dir == -1,
    ensures
        slope_path(w, cx, cy, left, dir, None) matches Some((lx, ly)) ==> {
            &&& columns_run(cx, lx, dir) >= 1
            &&& cy <= ly <= cy + columns_run(cx, lx, dir)
            &&& ly == cy ==> forall|c: int|
                1 <= #[trigger] columns_run(cx, c, dir) <= columns_run(cx, lx, dir) ==> w.cell(c, cy + 1) != EMPTY
        },
        w.cell(cx + dir, cy) == EMPTY && w.cell(cx + dir, cy + 1) == EMPTY && left >= 1 ==> (slope_path(
            w,
            cx,
            cy,
            left,
            dir,
            None,
        ) matches Some((lx, ly)) && ly > cy),
{
    lemma_slope_steps(w, cx, cy, left, dir, None);
    if w.cell(cx + dir, cy) == EMPTY && left >= 1 {
        let ny = if w.cell(cx + dir, cy + 1) == EMPTY {
            cy + 1
        } else {
            cy
        };
        lemma_slope_steps(w, cx + dir, ny, left - 1, dir, Some((cx + dir, ny)));
        if w.cell(cx + dir, cy + 1) == EMPTY {
            let r = slope_path(w, cx, cy, left, dir, None);
            let (lx, ly) = r.unwrap();
            if ly == cy {
                assert(1 <= columns_run(cx, cx + dir, dir));
            }
        }
    }
}

/// The grid part of `N` of the game (the ballistic sideways step of solids):
/// run up to `steps` cells sideways from `(x, y)` (left for negative
/// `steps`), stepping down a row wherever possible. This step down on the way
/// is what turns the sideways scatter into a slope. Returns the last cell
/// reached, if any.
pub fn ballistic_path(world: &World, x: i32, y: i32, steps: i32) -> (r: Option<(i32, i32)>)
    requires
        world@.wf(),
        i32::MIN < x < i32::MAX,
        i32::MIN < y < i32::MAX,
    ensures
        match slope_path(
            world@,
            x as int,
            y as int,
            abs_int(steps as int),
            if steps < 0 {
                -1
            } else {
                1
            },
            None,
        ) {
            Some((lx, ly)) => r == Some((lx as i32, ly as i32)),
            None => r is None,
        },
{
    let dir: i32 = if steps < 0 {
        -1
    } else {
        1
    };
    let mut left: i64 = if steps < 0 {
        -(steps as i64)
    } else {
        steps as i64
    };
    let mut cx = x;
    let mut cy = y;
    let mut last: Option<(i32, i32)> = None;
    let mut blocked = false;
    let ghost goal = slope_path(world@, x as int, y as int, abs_int(steps as int), dir as int, None);
    while left > 0 && !blocked
        invariant
            world@.wf(),
            dir == 1 || dir == -1,
            steps < 0 <==> dir == -1,
            i32::MIN < x < i32::MAX,
            i32::MIN < y < i32::MAX,
            (cx == x && cy == y) || world@.in_bounds(cx as int, cy as int),
            left >= 0,
            goal == slope_path(world@, x as int, y as int, abs_int(steps as int), dir as int, None),
            goal == if blocked {
                match last {
                    Some((a, b)) => Some((a as int, b as int)),
                    None => None,
                }
            } else {
                slope_path(
                    world@,
                    cx as int,
                    cy as int,
                    left as int,
                    dir as int,
                    match last {
                        Some((a, b)) => Some((a as int, b as int)),
                        None => None,
                    },
                )
            },
        decreases left + if blocked { 0int } else { 1int },
    {
        let nx = cx + dir;
        if world.cell(nx, cy) != EMPTY {
            blocked = true;
        } else {
            cx = nx;
            if world.cell(cx, cy + 1) == EMPTY {
                cy = cy + 1;
            }
            last = Some((cx, cy));
            left = left - 1;
        }
    }
    last
}

/// How liquids and gases walk sideways.
pub struct Walk {
    /// A liquid displaces what is lighter right in its sideways step.
    pub swap_by_density: bool,
    /// A gas dives this way through a liquid.
    pub swap_matter: Option<Matter>,
}

/// The sideways walk of a liquid.
pub fn liquid_walk() -> (w: Walk)
    ensures
        w.swap_by_density,
        w.swap_matter is None,
{
    Walk { swap_by_density: true, swap_matter: None }
}

/// The sideways walk of a gas.
pub fn gas_walk() -> (w: Walk)
    ensures
        !w.swap_by_density,
        w.swap_matter == Some(Matter::Liquid),
{
    Walk { swap_by_density: false, swap_matter: Some(Matter::Liquid) }
}

/// What a sideways walk comes to.
pub struct Walked {
    pub world: WorldModel,
    pub end: Step,
    pub event: Option<Event>,
}

/// May the walker exchange with what stands in `(cx, y)`.
pub open spec fn may_swap(w: WorldModel, table: MatterTable, walk: Walk, cx: int, y: int) -> bool {
    walk.swap_by_density || match (walk.swap_matter, kind_at_spec(w, cx, y)) {
        (Some(m), Some(k)) => table.matter_of(k) == m,
        _ => false,
    }
}

/// The walk from `(x, y)` met an occupied cell at column `nx`: a collision,
/// if the walker may exchange with what stands there. The walker itself
/// still stands in its own cell `(ox, oy)`, where its fall began: an
/// exchange takes it from there, and a reaction is reported there. A liquid
/// that is heavier than what blocks it keeps its chunk awake.
pub open spec fn walk_collide(
    w: WorldModel,
    table: MatterTable,
    slot: int,
    kind: u8,
    ox: int,
    oy: int,
    x: int,
    y: int,
    nx: int,
    last: Option<int>,
    walk: Walk,
) -> (WorldModel, bool, Option<Event>, Option<int>) {
    let id = w.cell(nx, y);
    if may_swap(w, table, walk, nx, y) && element_id(id) {
        let c = contact_spec(w, table, slot, kind, nx, y);
        let w1 = after_contact(w, c, slot, ox, oy, nx, y);
        if consumes(c) {
            (
                bumped(w1, slot, y, 10),
                true,
                if c == Contact::Reaction {
                    Some(reaction_event(ox, oy))
                } else {
                    None
                },
                last,
            )
        } else {
            let other = id - ELEMENT_MIN;
            let lighter = other < w1.elements.density.len() && single::gt(
                w1.elements.density[slot],
                w1.elements.density[other],
            );
            (
                if walk.swap_by_density && lighter {
                    w1.report(x, y)
                } else {
                    w1
                },
                false,
                None,
                last,
            )
        }
    } else {
        (w, false, None, last)
    }
}

/// The cells of a sideways walk, `left` more steps toward `dir` from `cx`:
/// free cells are walked over; the first occupied one ends the walk, after a
/// collision if the walker may exchange with it. `last` is the last free
/// column reached. The result is the world, whether the collision consumed
/// the walker, the event of a reaction, and the last free column.
pub open spec fn walk_scan(
    w: WorldModel,
    table: MatterTable,
    slot: int,
    kind: u8,
    ox: int,
    oy: int,
    x: int,
    y: int,
    cx: int,
    left: int,
    dir: int,
    last: Option<int>,
    walk: Walk,
) -> (WorldModel, bool, Option<Event>, Option<int>)
    decreases left,
{
    if left <= 0 {
        (w, false, None, last)
    } else {
        let nx = cx + dir;
        if w.cell(nx, y) == EMPTY {
            walk_scan(w, table, slot, kind, ox, oy, x, y, nx, left - 1, dir, Some(nx), walk)
        } else {
            walk_collide(w, table, slot, kind, ox, oy, x, y, nx, last, walk)
        }
    }
}

/// The world after a walk that went nowhere: the chunk is woken if the side
/// behind is open to a liquid, or if this is not the side checked last time;
/// the side is remembered; the sideways speed turns around (from zero it
/// becomes -1). This splashing back and forth is what levels water out.
pub open spec fn turned_around(w: WorldModel, slot: int, x: int, y: int, walk: Walk) -> WorldModel {
    let e = w.elements;
    let vx = e.velocity_x[slot];
    let back = if single::lt(vx, single::ZERO) {
        1
    } else {
        -1
    };
    let side = e.last_side_checked[slot];
    let woken = if walk.swap_by_density && free_for_spec(w, w.cell(x + back, y), e.density[slot]) {
        w.report(x, y)
    } else if !(side != 0 && x == side as int) {
        w.report(x, y)
    } else {
        w
    };
    WorldModel {
        elements: ElementsModel {
            last_side_checked: woken.elements.last_side_checked.update(slot, x as i16),
            velocity_x: woken.elements.velocity_x.update(
                slot,
                if single::eq(vx, single::ZERO) {
                    single::MINUS_ONE
                } else {
                    single::neg(vx)
                },
            ),
            ..woken.elements
        },
        ..woken
    }
}

/// One or two cells sideways from `(x, y)` for a liquid or a gas, toward
/// where its sideways speed points; only once it has landed. The walker
/// stands in its own cell `(ox, oy)`, where its fall began. `rng` is the
/// state of the generator before the walk.
#[verifier::opaque]
pub open spec fn walk_spec(
    w: WorldModel,
    table: MatterTable,
    rng: u32,
    slot: int,
    kind: u8,
    ox: int,
    oy: int,
    x: int,
    y: int,
    walk: Walk,
) -> Walked {
    if w.elements.is_free_falling[slot] != 0 {
        Walked { world: w, end: Step::Stay, event: None }
    } else {
        let reach = 1 + (xorshift(rng) as int) % 2;
        let dir = if single::lt(w.elements.velocity_x[slot], single::ZERO) {
            -1
        } else {
            1
        };
        let (w1, consumed, event, last) = walk_scan(w, table, slot, kind, ox, oy, x, y, x, reach, dir, None, walk);
        if consumed {
            Walked { world: w1, end: Step::Consumed, event }
        } else {
            match last {
                Some(lx) => Walked { world: bumped(w1, slot, y, 1), end: Step::Moved(lx as i32, y as i32), event: None },
                None => Walked { world: turned_around(w1, slot, x, y, walk), end: Step::Stay, event: None },
            }
        }
    }
}

/// A walk that is not consumed leaves the walker's own cell as it was and
/// ends, if anywhere, on a free cell. Where the walker stands in its own
/// cell of a consistent world, the walk keeps the world consistent and the
/// multiset of identifiers in the grid; short of a collision that consumes
/// the walker, the grid and the positions stay as they were.
pub proof fn lemma_walk_lands(
    w: WorldModel,
    table: MatterTable,
    slot: int,
    kind: u8,
    ox: int,
    oy: int,
    x: int,
    y: int,
    cx: int,
    left: int,
    dir: int,
    last: Option<int>,
    walk: Walk,
)
    requires
        w.wf(),
        0 <= slot < w.elements.len(),
        dir == 1 ==> cx >= x,
        dir == -1 ==> cx <= x,
        dir == 1 || dir == -1,
        y == oy ==> x == ox,
        last matches Some(l) ==> l == cx && l != x && w.cell(l, y) == EMPTY,
    ensures
        ({
            let r = walk_scan(w, table, slot, kind, ox, oy, x, y, cx, left, dir, last, walk);
            &&& !r.1 ==> r.0.cell(x, y) == w.cell(x, y)
            &&& !r.1 ==> r.0.elements == w.elements
            &&& !r.1 && r.3 is Some ==> r.0.cell(r.3.unwrap(), y) == EMPTY
            &&& w.holds(slot, ox, oy) ==> {
                &&& r.0.consistent()
                &&& r.0.cells.to_multiset() == w.cells.to_multiset()
                &&& !r.1 ==> r.0.same_places(w)
            }
        }),
    decreases left,
{
    if left > 0 {
        let nx = cx + dir;
        if w.cell(nx, y) == EMPTY {
            lemma_walk_lands(w, table, slot, kind, ox, oy, x, y, nx, left - 1, dir, Some(nx), walk);
        } else {
            let id = w.cell(nx, y);
            if may_swap(w, table, walk, nx, y) && element_id(id) {
                let c = contact_spec(w, table, slot, kind, nx, y);
                lemma_contact_wf(w, table, slot, kind, ox, oy, nx, y);
                let w1 = after_contact(w, c, slot, ox, oy, nx, y);
                if w.holds(slot, ox, oy) {
                    lemma_contact_consistent(w, table, slot, kind, ox, oy, nx, y);
                    if consumes(c) {
                        let b = bumped(w1, slot, y, 10);
                        assert(b.same_places(w1));
                        lemma_same_places_consistent(b, w1);
                    } else {
                        w1.lemma_report_frame(x, y);
                        assert(w1.report(x, y).same_places(w));
                        lemma_same_places_consistent(w1.report(x, y), w);
                        lemma_same_places_consistent(w1, w);
                    }
                }
                if !consumes(c) {
                    lemma_contact_frame(w, table, slot, kind, ox, oy, nx, y, x, y);
                    reveal(after_contact);
                    w.lemma_set_cell_wf(nx, y, EMPTY);
                    assert(w1.elements == w.elements);
                    w1.lemma_report_frame(x, y);
                    if last is Some {
                        lemma_contact_frame(w, table, slot, kind, ox, oy, nx, y, last.unwrap(), y);
                    }
                }
            } else if w.holds(slot, ox, oy) {
                lemma_same_places_consistent(w, w);
            }
        }
    } else if w.holds(slot, ox, oy) {
        lemma_same_places_consistent(w, w);
    }
}

/// A walk that goes nowhere turns the sideways speed around, so that the
/// next walk goes the other way and a body of liquid levels out instead of
/// piling against a wall: a speed that is a number other than zero becomes
/// its opposite (same magnitude, other sign), and zero becomes -1.
pub proof fn law_walk_that_goes_nowhere_turns_around(
    w: WorldModel,
    table: MatterTable,
    rng: u32,
    slot: int,
    kind: u8,
    ox: int,
    oy: int,
    x: int,
    y: int,
    walk: Walk,
)
    requires
        w.wf(),
        0 <= slot < w.elements.len(),
        y == oy ==> x == ox,
        w.elements.is_free_falling[slot] == 0,
        walk_spec(w, table, rng, slot, kind, ox, oy, x, y, walk).end == Step::Stay,
    ensures
        ({
            let v = w.elements.velocity_x[slot];
            let after = walk_spec(w, table, rng, slot, kind, ox, oy, x, y, walk).world.elements.velocity_x[slot];
            &&& single::eq(v, single::ZERO) ==> after == single::MINUS_ONE
            &&& !single::is_nan(v) && !single::eq(v, single::ZERO) ==> {
                &&& !single::is_nan(after)
                &&& single::order_key(after) == -single::order_key(v)
                &&& single::lt(v, single::ZERO) ==> single::gt(after, single::ZERO)
                &&& single::gt(v, single::ZERO) ==> single::lt(after, single::ZERO)
            }
        }),
{
    reveal(walk_spec);
    let reach = 1 + (xorshift(rng) as int) % 2;
    let dir = if single::lt(w.elements.velocity_x[slot], single::ZERO) {
        -1
    } else {
        1
    };
    lemma_walk_lands(w, table, slot, kind, ox, oy, x, y, x, reach, dir, None, walk);
    let r = walk_scan(w, table, slot, kind, ox, oy, x, y, x, reach, dir, None, walk);
    let w1 = r.0;
    let v = w.elements.velocity_x[slot];
    assert(w1.elements.velocity_x[slot] == v);
    w1.lemma_report_frame(x, y);
    let n = single::neg(v);
    assert(single::magnitude(n) == single::magnitude(v));
    assert(single::negative(n) != single::negative(v));
}

/// The collision of a walk from `(x, y)` with the occupied cell at column
/// `cx`; the walker stands in `(ox, oy)`. Returns whether it consumed the
/// walker.
fn walk_collision<S: EventSink>(
    world: &mut World,
    table: &MatterTable,
    sink: &mut S,
    slot: usize,
    kind: u8,
    ox: i32,
    oy: i32,
    x: i32,
    y: i32,
    cx: i32,
    walk: &Walk,
) -> (r: bool)
    requires
        old(world)@.wf(),
        table.wf(),
        slot < old(world)@.elements.len(),
        i32::MIN < x < i32::MAX,
        i32::MIN < y < i32::MAX,
    ensures
        final(world)@.elements.duration_left == old(world)@.elements.duration_left,
        ({
            let t = walk_collide(old(world)@, *table, slot as int, kind, ox as int, oy as int, x as int, y as int, cx as int, None, *walk);
            &&& final(world)@ == t.0
            &&& r == t.1
            &&& match t.2 {
                Some(e) => old(sink).took(e, final(sink)),
                None => *final(sink) == *old(sink),
            }
        }),
        final(world)@.wf(),
        final(world)@.same_shape(old(world)@),
        final(world)@.elements.len() == old(world)@.elements.len(),
{
    let id = world.cell(cx, y);
    let can_swap = walk.swap_by_density || match (walk.swap_matter, kind_at(world, cx, y)) {
        (Some(m), Some(k)) => table.matter(k) == m,
        _ => false,
    };
    if can_swap && is_element(id) {
        if act_on_cell(world, table, sink, slot, kind, (ox, oy), (cx, y)) {
            bump_moves(world, slot, y, 10);
            return true;
        }
        if walk.swap_by_density {
            let other = element_index(id);
            if other < world.elements.density.len() && single::greater(
                world.elements.density[slot],
                world.elements.density[other],
            ) {
                world.report_to_chunk(x, y);
            }
        }
    }
    false
}

/// A walk that went nowhere turns around.
fn turn_around(world: &mut World, slot: usize, x: i32, y: i32, walk: &Walk)
    requires
        old(world)@.wf(),
        slot < old(world)@.elements.len(),
        i32::MIN + 1 < x < i32::MAX - 1,
        i32::MIN < y < i32::MAX,
    ensures
        final(world)@.elements.duration_left == old(world)@.elements.duration_left,
        final(world)@ == turned_around(old(world)@, slot as int, x as int, y as int, *walk),
        final(world)@.wf(),
        final(world)@.same_shape(old(world)@),
        final(world)@.elements.len() == old(world)@.elements.len(),
{
    let back: i32 = if single::is_negative(world.elements.velocity_x[slot]) {
        1
    } else {
        -1
    };
    let density = world.elements.density[slot];
    if walk.swap_by_density && free_for(world, world.cell(x + back, y), density) {
        world.report_to_chunk(x, y);
    } else {
        let side = world.elements.last_side_checked[slot];
        if !(side != 0 && x == side as i32) {
            world.report_to_chunk(x, y);
        }
    }
    world.elements.last_side_checked.set(slot, #[verifier::truncate] (x as i16));
    let vx = world.elements.velocity_x[slot];
    world.elements.velocity_x.set(
        slot,
        if single::is_zero(vx) {
            single::MINUS_ONE
        } else {
            single::negate(vx)
        },
    );
}

/// The sideways step of liquids and gases, from `(x, y)`, of the element
/// that stands in `(ox, oy)`.
pub fn horizontal_walk<S: EventSink>(
    world: &mut World,
    table: &MatterTable,
    sink: &mut S,
    rng: &mut Rng,
    slot: usize,
    kind: u8,
    ox: i32,
    oy: i32,
    x: i32,
    y: i32,
    walk: &Walk,
) -> (r: Step)
    requires
        old(world)@.wf(),
        table.wf(),
        slot < old(world)@.elements.len(),
        i32::MIN + 1 < x < i32::MAX - 1,
        i32::MIN < y < i32::MAX,
        y == oy ==> x == ox,
    ensures
        final(world)@.elements.duration_left == old(world)@.elements.duration_left,
        ({
            let t = walk_spec(old(world)@, *table, old(rng).state(), slot as int, kind, ox as int, oy as int, x as int, y as int, *walk);
            &&& final(world)@ == t.world
            &&& r == t.end
            &&& match t.event {
                Some(e) => old(sink).took(e, final(sink)),
                None => *final(sink) == *old(sink),
            }
        }),
        old(world)@.elements.is_free_falling[slot as int] != 0 ==> final(rng).state() == old(rng).state(),
        old(world)@.elements.is_free_falling[slot as int] == 0 ==> final(rng).state() == xorshift(old(rng).state()),
        r != Step::Consumed ==> final(world)@.cell(x as int, y as int) == old(world)@.cell(x as int, y as int),
        r matches Step::Moved(a, b) ==> final(world)@.cell(a as int, b as int) == EMPTY,
        old(world)@.holds(slot as int, ox as int, oy as int) ==> {
            &&& final(world)@.consistent()
            &&& final(world)@.cells.to_multiset() == old(world)@.cells.to_multiset()
            &&& r != Step::Consumed ==> final(world)@.same_places(old(world)@)
        },
        final(world)@.wf(),
        final(world)@.same_shape(old(world)@),
        final(world)@.elements.len() == old(world)@.elements.len(),
{
    proof {
        reveal(walk_spec);
        if old(world)@.holds(slot as int, ox as int, oy as int) {
            lemma_same_places_consistent(old(world)@, old(world)@);
        }
    }
    if world.elements.is_free_falling[slot] != 0 {
        return Step::Stay;
    }
    let ghost w0 = world@;
    let reach = rng.int_between(1, 2);
    let signed = if single::is_negative(world.elements.velocity_x[slot]) {
        -reach
    } else {
        reach
    };
    let target = x + signed;
    let dir: i32 = if signed < 0 {
        -1
    } else {
        1
    };
    let ghost goal = walk_scan(w0, *table, slot as int, kind, ox as int, oy as int, x as int, y as int, x as int, reach as int, dir as int, None, *walk);
    proof {
        lemma_walk_lands(w0, *table, slot as int, kind, ox as int, oy as int, x as int, y as int, x as int, reach as int, dir as int, None, *walk);
    }
    let mut cx = x;
    let mut last: Option<i32> = None;
    let mut hit = false;
    while cx != target && !hit
        invariant
            world@ == w0,
            w0.wf(),
            dir == 1 || dir == -1,
            1 <= reach <= 2,
            target == x + dir * reach,
            dir == 1 ==> x <= cx <= target,
            dir == -1 ==> target <= cx <= x,
            i32::MIN + 1 < x < i32::MAX - 1,
            !hit ==> (last is Some ==> last == Some(cx)),
            goal == walk_scan(w0, *table, slot as int, kind, ox as int, oy as int, x as int, y as int, x as int, reach as int, dir as int, None, *walk),
            goal == if hit {
                walk_collide(
                    w0,
                    *table,
                    slot as int,
                    kind,
                    ox as int,
                    oy as int,
                    x as int,
                    y as int,
                    cx as int,
                    match last {
                        Some(a) => Some(a as int),
                        None => None,
                    },
                    *walk,
                )
            } else {
                walk_scan(
                    w0,
                    *table,
                    slot as int,
                    kind,
                    ox as int,
                    oy as int,
                    x as int,
                    y as int,
                    cx as int,
                    abs_int(target - cx),
                    dir as int,
                    match last {
                        Some(a) => Some(a as int),
                        None => None,
                    },
                    *walk,
                )
            },
            hit ==> (last is Some ==> last.unwrap() == cx - dir),
        decreases abs_int(target - cx) + if hit { 0int } else { 1int },
    {
        let nx = cx + dir;
        if world.is_empty(nx, y) {
            cx = nx;
            last = Some(cx);
        } else {
            cx = nx;
            hit = true;
        }
    }
    if hit {
        if walk_collision(world, table, sink, slot, kind, ox, oy, x, y, cx, walk) {
            return Step::Consumed;
        }
    }
    let ghost w1 = world@;
    if let Some(lx) = last {
        bump_moves(world, slot, y, 1);
        proof {
            assert(world@.same_places(w1));
            if w0.holds(slot as int, ox as int, oy as int) {
                lemma_same_places_consistent(world@, w0);
            }
        }
        return Step::Moved(lx, y);
    }
    turn_around(world, slot, x, y, walk);
    proof {
        w1.lemma_report_frame(x as int, y as int);
        assert(world@.same_places(w1));
        if w0.holds(slot as int, ox as int, oy as int) {
            lemma_same_places_consistent(world@, w0);
        }
    }
    Step::Stay
}

} // verus!
