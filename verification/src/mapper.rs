//! Translation of logical polar addresses on the annular LED grid into
//! physical output indices.
//!
//! The grid has `RING_COUNT` rings of `STEP_COUNT` angular steps each.  A
//! coordinate is first linearized into a descending virtual address in
//! `[0, 80)`, so that `(ring 0, step 0)` gets the highest virtual address,
//! and the virtual address is then folded onto one of `NUM_LEDS` physical
//! elements: the outer rings are fully populated, a transitional region
//! collapses two virtual slots onto one element, and the innermost region
//! converges on a single shared element.

use vstd::prelude::*;

verus! {

/// Number of rings on the grid.
pub const RING_COUNT: usize = 5;

/// Number of angular steps per ring.
pub const STEP_COUNT: usize = 16;

/// Number of physical output elements.
pub const NUM_LEDS: usize = 57;

/// A logical polar address on the grid: a ring and an angular step.
///
/// Valid coordinates have `ring < RING_COUNT` and `step < STEP_COUNT`;
/// the constructors only produce valid coordinates.
#[derive(Debug, Clone, Copy, Default, PartialEq, Eq, PartialOrd, Ord, Structural)]
pub struct Coordinate {
    ring: u8,
    step: u8,
}

impl Coordinate {
    /// The ring field, for use in specifications.
    pub closed spec fn spec_ring(self) -> int {
        self.ring as int
    }

    /// The step field, for use in specifications.
    pub closed spec fn spec_step(self) -> int {
        self.step as int
    }

    /// The coordinate with the given fields, for use in specifications.
    pub closed spec fn spec_new(ring: int, step: int) -> Coordinate {
        Coordinate { ring: ring as u8, step: step as u8 }
    }

    /// Both fields are in range.
    pub open spec fn is_valid(self) -> bool {
        self.spec_ring() < RING_COUNT && self.spec_step() < STEP_COUNT
    }

    /// Builds the coordinate directly from its fields.
    pub fn new(ring: u8, step: u8) -> (r: Self)
        requires
            ring < RING_COUNT as u8,
            step < STEP_COUNT as u8,
        ensures
            r == Coordinate::spec_new(ring as int, step as int),
            r.spec_ring() == ring,
            r.spec_step() == step,
            r.is_valid(),
    {
        Self { ring, step }
    }

    /// The ring of this coordinate.
    pub fn ring(&self) -> (r: u8)
        ensures
            r == self.spec_ring(),
    {
        self.ring
    }

    /// The angular step of this coordinate.
    pub fn step(&self) -> (r: u8)
        ensures
            r == self.spec_step(),
    {
        self.step
    }

    /// Quantizes a world position, given as a distance from the center and
    /// an angle in degrees, onto the grid: the distance is clamped to the
    /// outermost ring and the angle is normalized modulo 360 and rounded
    /// half-up to the nearest of the 16 angular sectors.  Total: every
    /// input, including an out-of-range distance or angle, yields a valid
    /// coordinate.
    pub fn from_world_coordinates(distance: u8, angle: u16) -> (r: Self)
        ensures
            r == Coordinate::spec_new(spec_ring_of(distance), spec_step_of(angle)),
            r.spec_ring() == spec_ring_of(distance),
            r.spec_step() == spec_step_of(angle),
            r.is_valid(),
    {
        let ring: u8 = if distance < 4 {
            distance
        } else {
            4
        };
        let angle: u16 = angle % 360;
        let step: u16 = ((angle * 16) + 180) / 360;
        let step: u8 = (step % 16) as u8;
        Self { ring, step }
    }
}

/// The ring that `from_world_coordinates` picks: the distance, clamped to
/// the outermost ring.
pub open spec fn spec_ring_of(distance: u8) -> int {
    if distance < 4 {
        distance as int
    } else {
        4
    }
}

/// The step that `from_world_coordinates` picks: the angle, normalized
/// modulo 360 degrees, rounded half-up to one of the 16 sectors of
/// 360/16 degrees each, computed in integers as `((a * 16) + 180) / 360`.
pub open spec fn spec_step_of(angle: u16) -> int {
    ((((angle as int) % 360) * 16 + 180) / 360) % 16
}

/// The virtual address of a coordinate: the grid linearized into a
/// descending address space, `79 - (ring * 16 + step)`, kept inside
/// defensive modulo reductions so that even an out-of-range coordinate
/// yields an address in `[0, 80)`.
pub open spec fn spec_virtual_index_of(c: Coordinate) -> int {
    (159 - (c.spec_ring() * 16 + c.spec_step()) % 80) % 80
}

/// The physical element for a virtual address: identity on `[0, 48)`,
/// two-to-one on `[48, 64)`, and the single innermost element `56` on
/// `[64, 80)`; the address is first reduced modulo 80.
pub open spec fn spec_devirtualize(v: int) -> int {
    let x = v % 80;
    if x < 48 {
        x
    } else if x < 64 {
        48 + (x - 48) / 2
    } else {
        56
    }
}

/// The physical element for a coordinate.
pub open spec fn spec_index_of(c: Coordinate) -> int {
    spec_devirtualize(spec_virtual_index_of(c))
}

/// Linearizes a coordinate into the descending virtual address space,
/// `(ring 0, step 0)` highest.  Total for every coordinate value.
pub fn virtual_index_of(coordinate: Coordinate) -> (r: u8)
    ensures
        r == spec_virtual_index_of(coordinate),
        r < 80,
{
    let lin: u16 = (coordinate.ring as u16) * 16 + (coordinate.step as u16);
    let lin: u16 = lin % 80;
    let r: u16 = (159 - lin) % 80;
    r as u8
}

/// Folds a virtual address onto its physical element.  Total for every
/// input: the address is reduced modulo 80 first.
pub fn devirtualize_led_index(virtual_index: u8) -> (r: u8)
    ensures
        r == spec_devirtualize(virtual_index as int),
        r < NUM_LEDS as u8,
{
    let x: u8 = virtual_index % 80;
    if x < 48 {
        x
    } else if x < 64 {
        48 + (x - 48) / 2
    } else {
        56
    }
}

/// Maps a coordinate to exactly one physical output index.  Total for
/// every coordinate value, and always below `NUM_LEDS`.
pub fn index_of(coordinate: Coordinate) -> (r: u8)
    ensures
        r == spec_index_of(coordinate),
        r < NUM_LEDS as u8,
{
    let virtual_index = virtual_index_of(coordinate);
    devirtualize_led_index(virtual_index)
}

/// Builds the lookup table of physical indices for every valid
/// coordinate.  The table is a cache, never an independent source of
/// truth: every entry equals what `index_of` computes for that ring and
/// step.
pub fn make_table() -> (t: Vec<Vec<u8>>)
    ensures
        t@.len() == RING_COUNT,
        forall|r: int| 0 <= r < RING_COUNT ==> #[trigger] t@[r]@.len() == STEP_COUNT,
        forall|r: int, s: int|
            0 <= r < RING_COUNT && 0 <= s < STEP_COUNT ==> #[trigger] t@[r]@[s]
                == spec_index_of(Coordinate::spec_new(r, s)),
{
    let mut table: Vec<Vec<u8>> = Vec::new();
    let mut ring: u8 = 0;
    while ring < RING_COUNT as u8
        invariant
            ring <= RING_COUNT as u8,
            table@.len() == ring as int,
            forall|r: int| 0 <= r < ring as int ==> #[trigger] table@[r]@.len() == STEP_COUNT,
            forall|r: int, s: int|
                0 <= r < ring as int && 0 <= s < STEP_COUNT ==> #[trigger] table@[r]@[s]
                    == spec_index_of(Coordinate::spec_new(r, s)),
        decreases RING_COUNT as u8 - ring,
    {
        let mut row: Vec<u8> = Vec::new();
        let mut step: u8 = 0;
        while step < STEP_COUNT as u8
            invariant
                ring < RING_COUNT as u8,
                step <= STEP_COUNT as u8,
                row@.len() == step as int,
                forall|s: int|
                    0 <= s < step as int ==> #[trigger] row@[s]
                        == spec_index_of(Coordinate::spec_new(ring as int, s)),
            decreases STEP_COUNT as u8 - step,
        {
            let entry = index_of(Coordinate::new(ring, step));
            row.push(entry);
            step = step + 1;
        }
        table.push(row);
        ring = ring + 1;
    }
    table
}

} // verus!
