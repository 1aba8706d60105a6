//! Morton keys: 64-bit addresses of octree cells.
//!
//! A key is a sentinel one bit followed by one octal digit per level, the
//! digit of the deepest level last. In each digit the high bit selects the
//! half along x, the middle bit the half along y, the low bit the half
//! along z. The root is the bare sentinel.

use crate::key_laws::{
    lemma_child, lemma_component_bound, lemma_dilated_bound, lemma_gathered_is_component,
    lemma_key_of_fits, lemma_key_of_inverts, lemma_level_at_most, lemma_level_bounds,
    lemma_or_is_sum, lemma_path_length, lemma_spread_is_dilated,
};
use vstd::arithmetic::power2::{
    lemma2_to64, lemma2_to64_rest, lemma_pow2_adds, lemma_pow2_strictly_increases, pow2,
};
use vstd::bits::{lemma_u32_shl_is_mul, lemma_u64_shl_is_mul};
use vstd::prelude::*;

verus! {

/// Deepest level that a key may address.
pub const MAX_LEVEL: usize = 16;

/// Masks that keep every third bit, the bit of one axis in each octal
/// digit: here the bits of x.
pub const ISOLATE_X: u64 = 0x4924_9249_2492_4924;

/// The bits of y.
pub const ISOLATE_Y: u64 = 0x2492_4924_9249_2492;

/// The bits of z.
pub const ISOLATE_Z: u64 = 0x1249_2492_4924_9249;

/// Masks of the contraction rounds, named by the runs of kept bits that a
/// round leaves: runs of two, ...
pub const CONTRACT_PAIRS: u64 = 0x00c3_0c30_c30c_30c3;

/// ... of four, ...
pub const CONTRACT_NIBBLES: u64 = 0x000f_00f0_0f00_f00f;

/// ... of eight, ...
pub const CONTRACT_BYTES: u64 = 0x0000_0000_ff00_00ff;

/// ... and one run of sixteen.
pub const CONTRACT_HALVES: u64 = 0x0000_0000_0000_ffff;

/// Number of octal digits below the leading digit of `k`: the depth of
/// the cell that `k` addresses.
pub open spec fn level_of(k: nat) -> nat
    decreases k,
{
    if k < 8 {
        0
    } else {
        1 + level_of(k / 8)
    }
}

/// The leading octal digit of `k` is exactly one: the sentinel that marks
/// where the path begins.
pub open spec fn has_sentinel(k: nat) -> bool
    decreases k,
{
    if k < 8 {
        k == 1
    } else {
        has_sentinel(k / 8)
    }
}

/// The octal digits of `k` below the leading one, the deepest last: the
/// octants chosen on the way down from the root.
pub open spec fn path_of(k: nat) -> Seq<u64>
    decreases k,
{
    if k < 8 {
        Seq::empty()
    } else {
        path_of(k / 8).push((k % 8) as u64)
    }
}

/// Bit pattern of the `i`-th child of the cell with bit pattern `k`.
pub open spec fn child_of(k: u64, i: u64) -> u64 {
    (k << 3) | i
}

/// The bit of the octal digit `digit` that selects the half along `axis`
/// (0 is x, 1 is y, 2 is z): x is the digit's high bit, z its low bit.
pub open spec fn axis_bit(digit: nat, axis: nat) -> nat {
    if axis == 0 {
        (digit / 4) % 2
    } else if axis == 1 {
        (digit / 2) % 2
    } else {
        digit % 2
    }
}

/// Integer coordinate along `axis` of the cell that `k` addresses: one bit
/// from each octal digit below the leading one, the deepest digit last.
pub open spec fn component_of(k: nat, axis: nat) -> nat
    decreases k,
{
    if k < 8 {
        0
    } else {
        2 * component_of(k / 8, axis) + axis_bit(k % 8, axis)
    }
}

/// The bits of `c` spread out so that bit `i` of `c` stands at bit `3 * i`.
pub open spec fn dilated(c: nat) -> nat
    decreases c,
{
    if c == 0 {
        0
    } else {
        8 * dilated(c / 2) + c % 2
    }
}

/// Bit pattern of the cell at level `level` with the coordinates `x`, `y`
/// and `z`: the sentinel above the interleaved bits of the three.
pub open spec fn key_of(x: nat, y: nat, z: nat, level: nat) -> nat {
    pow2(3 * level) + 4 * dilated(x) + 2 * dilated(y) + dilated(z)
}

/// Mask that keeps the bits of one axis.
pub open spec fn isolate_mask(axis: nat) -> u64 {
    if axis == 0 {
        ISOLATE_X
    } else if axis == 1 {
        ISOLATE_Y
    } else {
        ISOLATE_Z
    }
}

/// Five rounds that close the gaps between every third bit of `d`, so that
/// bit `3 * i` of `d` becomes bit `i`, for `i < 16`.
pub open spec fn contracted(d: u64) -> u64 {
    let a = (d | (d >> 2)) & CONTRACT_PAIRS;
    let b = (a | (a >> 4)) & CONTRACT_NIBBLES;
    let c = (b | (b >> 8)) & CONTRACT_BYTES;
    let e = (c | (c >> 16)) & CONTRACT_HALVES;
    (e | (e >> 32)) & CONTRACT_HALVES
}

/// The bits of one axis of `k`, gathered into the low 16 bits.
pub open spec fn gathered(k: u64, axis: nat) -> u64 {
    contracted((k & isolate_mask(axis)) >> ((2 - axis) as u64))
}

/// Mask of the `l` lowest bits.
pub open spec fn low_mask(l: u64) -> u64 {
    ((1u64 << l) - 1) as u64
}

/// Five rounds that open gaps of two bits between the 16 low bits of `c`:
/// the contraction rounds, undone in reverse order.
pub open spec fn spread(c: u64) -> u64 {
    let e = (c | (c << 32)) & CONTRACT_HALVES;
    let d = (e | (e << 16)) & CONTRACT_BYTES;
    let b = (d | (d << 8)) & CONTRACT_NIBBLES;
    let a = (b | (b << 4)) & CONTRACT_PAIRS;
    (a | (a << 2)) & ISOLATE_Z
}

/// Step along x of the `j`-th of the 27 offsets with steps in {-1, 0, 1},
/// x slowest; the offset with `j == 13` is no step at all.
pub open spec fn step_x(j: int) -> int {
    j / 9 - 1
}

/// Step along y of the `j`-th offset.
pub open spec fn step_y(j: int) -> int {
    (j / 3) % 3 - 1
}

/// Step along z of the `j`-th offset, z fastest.
pub open spec fn step_z(j: int) -> int {
    j % 3 - 1
}

/// Whether the `child`-th octant of a cell lies in the upper half of the
/// cell along `axis` (0 is x, 1 is y, 2 is z).
pub fn in_upper_half(child: u64, axis: usize) -> (upper: bool)
    requires
        child < 8,
        axis < 3,
    ensures
        upper == (axis_bit(child as nat, axis as nat) == 1),
{
    proof {
        assert((child >> 2) & 1 == (child / 4) % 2) by (bit_vector);
        assert((child >> 1) & 1 == (child / 2) % 2) by (bit_vector);
        assert(child & 1 == child % 2) by (bit_vector);
    }
    if axis == 0 {
        (child >> 2) & 1 == 1
    } else if axis == 1 {
        (child >> 1) & 1 == 1
    } else {
        child & 1 == 1
    }
}

/// What every addressing scheme of octree cells offers.
pub trait Key: Sized {
    /// The value addresses a cell.
    spec fn valid(&self) -> bool;

    /// Depth of the addressed cell below the root.
    spec fn depth(&self) -> nat;

    /// Greatest depth that the scheme can address.
    spec fn depth_limit() -> nat;

    /// The key of the root cell.
    fn root_key() -> (k: Self)
        ensures
            k.valid(),
            k.depth() == 0,
    ;

    /// The key of the `i`-th of the eight children.
    fn child_key(&self, i: u64) -> (k: Self)
        ensures
            self.valid() && self.depth() < Self::depth_limit() && i < 8 ==> k.valid() && k.depth()
                == self.depth() + 1,
    ;

    /// Depth of the addressed cell below the root.
    fn level(&self) -> (l: usize)
        ensures
            l == self.depth(),
    ;

    /// The cell one step further along each chosen axis, if there is one.
    fn neighbor(&self, x: bool, y: bool, z: bool) -> (n: Option<Self>)
        requires
            self.valid(),
        ensures
            n matches Some(m) ==> m.valid() && m.depth() == self.depth(),
            !x && !y && !z ==> n is None,
    ;
}

/// The address of an octree cell. Keys are equal, ordered and hashed as
/// their bit patterns are.
#[derive(Debug, Copy, Clone, Hash, PartialEq, Eq, PartialOrd, Ord, Structural)]
pub struct MortonKey(pub u64);

impl View for MortonKey {
    type V = Seq<u64>;

    /// The octants chosen on the way down from the root.
    open spec fn view(&self) -> Seq<u64> {
        path_of(self.0 as nat)
    }
}

impl MortonKey {
    /// The key addresses a cell: a sentinel bit, then at most
    /// `MAX_LEVEL` octal digits.
    pub open spec fn well_formed(&self) -> bool {
        has_sentinel(self.0 as nat) && level_of(self.0 as nat) <= MAX_LEVEL
    }

    /// Depth of the addressed cell below the root.
    pub open spec fn spec_level(&self) -> nat {
        level_of(self.0 as nat)
    }

    /// Integer coordinate of the addressed cell along `axis`, in cells of
    /// its level.
    pub open spec fn spec_component(&self, axis: nat) -> nat {
        component_of(self.0 as nat, axis)
    }

    /// The cell whose coordinates are those of `self` moved by the given
    /// steps, if the steps are not all zero and lead to a cell of the grid
    /// at the level of `self`.
    pub open spec fn spec_neighbor_at(&self, dx: int, dy: int, dz: int) -> Option<MortonKey> {
        let side = pow2(self.spec_level());
        let x = self.spec_component(0) + dx;
        let y = self.spec_component(1) + dy;
        let z = self.spec_component(2) + dz;
        if (dx != 0 || dy != 0 || dz != 0) && 0 <= x < side && 0 <= y < side && 0 <= z < side {
            Some(MortonKey(key_of(x as nat, y as nat, z as nat, self.spec_level()) as u64))
        } else {
            None
        }
    }

    /// The cells that the first `n` of the 27 offsets lead to, in the order
    /// of the offsets.
    pub open spec fn neighbors_upto(&self, n: nat) -> Seq<MortonKey>
        decreases n,
    {
        if n == 0 {
            Seq::empty()
        } else {
            let j = n - 1;
            let before = self.neighbors_upto(j as nat);
            match self.spec_neighbor_at(step_x(j), step_y(j), step_z(j)) {
                Some(m) => before.push(m),
                None => before,
            }
        }
    }

    /// The face, edge and corner neighbors of the cell at its own level.
    pub open spec fn spec_neighbors(&self) -> Seq<MortonKey> {
        self.neighbors_upto(27)
    }

    /// Whether the key addresses a cell.
    pub fn is_well_formed(&self) -> (b: bool)
        ensures
            b == self.well_formed(),
    {
        let level: usize = self.level();
        if self.0 == 0 || level > MAX_LEVEL {
            return false;
        }
        let t: u64 = 3 * (level as u64);
        let s: u64 = 1u64 << t;
        proof {
            lemma2_to64_rest();
            if t < 48 {
                lemma_pow2_strictly_increases(t as nat, 48);
            }
            lemma_u64_shl_is_mul(1, t);
            lemma_pow2_adds(t as nat, 1);
            lemma2_to64();
            lemma_level_bounds(self.0 as nat);
        }
        self.0 < 2 * s
    }

    /// Coordinate of the cell along one axis (0 is x, 1 is y, 2 is z), cut
    /// to 16 bits where the key lies deeper than `MAX_LEVEL`.
    pub fn get_component(&self, component: usize) -> (c: u16)
        requires
            component < 3,
        ensures
            c == self.spec_component(component as nat) % 0x1_0000,
            self.spec_level() <= MAX_LEVEL ==> c == self.spec_component(component as nat),
    {
        let mask: u64 = if component == 0 {
            ISOLATE_X
        } else if component == 1 {
            ISOLATE_Y
        } else {
            ISOLATE_Z
        };
        let shift: u64 = 2 - component as u64;
        let d: u64 = (self.0 & mask) >> shift;
        let a: u64 = (d | (d >> 2)) & CONTRACT_PAIRS;
        let b: u64 = (a | (a >> 4)) & CONTRACT_NIBBLES;
        let c: u64 = (b | (b >> 8)) & CONTRACT_BYTES;
        let e: u64 = (c | (c >> 16)) & CONTRACT_HALVES;
        let g: u64 = (e | (e >> 32)) & CONTRACT_HALVES;
        let l: u64 = self.level() as u64;
        proof {
            lemma_gathered_is_component(self.0, component as nat);
            lemma_component_bound(self.0 as nat, component as nat);
            lemma2_to64();
            if l < 16 {
                lemma_pow2_strictly_increases(l as nat, 16);
            }
            assert(g == gathered(self.0, component as nat));
            assert(g <= 0xffff) by (bit_vector)
                requires
                    g == (e | (e >> 32)) & CONTRACT_HALVES,
            ;
            assert(1u64 << l >= 1 && g & (((1u64 << l) - 1) as u64) <= 0xffff) by (bit_vector)
                requires
                    l <= 21,
                    g <= 0xffff,
            ;
        }
        let length_mask: u64 = (1u64 << l) - 1;
        (g & length_mask) as u16
    }

    /// Spreads the bits of a coordinate so that two free bits follow each.
    pub fn dilate_component(c: u16) -> (d: u64)
        ensures
            d == dilated(c as nat),
            d < pow2(48),
    {
        let x: u64 = c as u64;
        let e: u64 = (x | (x << 32)) & CONTRACT_HALVES;
        let d: u64 = (e | (e << 16)) & CONTRACT_BYTES;
        let b: u64 = (d | (d << 8)) & CONTRACT_NIBBLES;
        let a: u64 = (b | (b << 4)) & CONTRACT_PAIRS;
        proof {
            lemma_spread_is_dilated(x);
            lemma2_to64();
            lemma_dilated_bound(c as nat, 16);
        }
        (a | (a << 2)) & ISOLATE_Z
    }

    /// The key of the cell at `level` with the given coordinates.
    pub fn from_components(x: u16, y: u16, z: u16, level: usize) -> (k: MortonKey)
        requires
            level <= MAX_LEVEL,
            x < pow2(level as nat),
            y < pow2(level as nat),
            z < pow2(level as nat),
        ensures
            k.0 == key_of(x as nat, y as nat, z as nat, level as nat),
            k.well_formed(),
            k.spec_level() == level,
            k.spec_component(0) == x,
            k.spec_component(1) == y,
            k.spec_component(2) == z,
    {
        let dx: u64 = Self::dilate_component(x);
        let dy: u64 = Self::dilate_component(y);
        let dz: u64 = Self::dilate_component(z);
        let t: u64 = 3 * (level as u64);
        let s: u64 = 1u64 << t;
        proof {
            lemma2_to64_rest();
            if t < 48 {
                lemma_pow2_strictly_increases(t as nat, 48);
            }
            lemma_u64_shl_is_mul(1, t);
            lemma_or_is_sum(x, y, z, level as nat);
            lemma_key_of_inverts(x as nat, y as nat, z as nat, level as nat);
        }
        MortonKey(s | (dx << 2) | (dy << 1) | dz)
    }

    /// The cell one step of -1, 0 or 1 away along each axis, if the steps
    /// are not all zero and the cell lies in the grid.
    pub fn neighbor_at(&self, dx: i8, dy: i8, dz: i8) -> (n: Option<MortonKey>)
        requires
            self.well_formed(),
            -1 <= dx <= 1,
            -1 <= dy <= 1,
            -1 <= dz <= 1,
        ensures
            n == self.spec_neighbor_at(dx as int, dy as int, dz as int),
    {
        if dx == 0 && dy == 0 && dz == 0 {
            return None;
        }
        let level: usize = self.level();
        let shift: u32 = level as u32;
        let side: u32 = 1u32 << shift;
        proof {
            lemma2_to64();
            if level < 16 {
                lemma_pow2_strictly_increases(level as nat, 16);
            }
            lemma_u32_shl_is_mul(1, shift);
        }
        let x: i64 = self.get_component(0) as i64 + dx as i64;
        let y: i64 = self.get_component(1) as i64 + dy as i64;
        let z: i64 = self.get_component(2) as i64 + dz as i64;
        if x < 0 || x >= side as i64 || y < 0 || y >= side as i64 || z < 0 || z >= side as i64 {
            return None;
        }
        Some(Self::from_components(x as u16, y as u16, z as u16, level))
    }

    /// The face, edge and corner neighbors of the cell at its own level:
    /// up to 26 keys, those outside the grid left out.
    pub fn neighbors(&self) -> (out: Vec<MortonKey>)
        requires
            self.well_formed(),
        ensures
            out@ == self.spec_neighbors(),
    {
        let mut out: Vec<MortonKey> = Vec::new();
        let mut j: u8 = 0;
        while j < 27
            invariant
                j <= 27,
                self.well_formed(),
                out@ == self.neighbors_upto(j as nat),
            decreases 27 - j,
        {
            let dx: i8 = (j / 9) as i8 - 1;
            let dy: i8 = ((j / 3) % 3) as i8 - 1;
            let dz: i8 = (j % 3) as i8 - 1;
            match self.neighbor_at(dx, dy, dz) {
                Some(m) => {
                    out.push(m);
                },
                None => {},
            }
            j = j + 1;
        }
        out
    }
}

impl Key for MortonKey {
    open spec fn valid(&self) -> bool {
        self.well_formed()
    }

    open spec fn depth(&self) -> nat {
        self.spec_level()
    }

    open spec fn depth_limit() -> nat {
        MAX_LEVEL as nat
    }

    fn root_key() -> (k: MortonKey)
        ensures
            k.0 == 1,
            k@ == Seq::<u64>::empty(),
    {
        MortonKey(1)
    }

    /// The `child`-th octant of the cell: the key moved up by one octal
    /// digit, with `child` as the new digit.
    fn child_key(&self, child: u64) -> (k: MortonKey)
        ensures
            k.0 == child_of(self.0, child),
            self.well_formed() && self.spec_level() < MAX_LEVEL && child < 8 ==> {
                &&& k.0 == 8 * self.0 + child
                &&& k@ == self@.push(child)
                &&& forall|axis: nat|
                    axis < 3 ==> #[trigger] k.spec_component(axis) == 2 * self.spec_component(axis)
                        + axis_bit(child as nat, axis)
            },
    {
        proof {
            if self.well_formed() && self.spec_level() < MAX_LEVEL && child < 8 {
                lemma_child(self.0, child);
            }
        }
        MortonKey((self.0 << 3) | child)
    }

    fn level(&self) -> (l: usize)
        ensures
            l == self@.len(),
            l <= 21,
    {
        let mut rest: u64 = self.0;
        let mut l: usize = 0;
        proof {
            lemma2_to64();
            lemma2_to64_rest();
            lemma_pow2_adds(64, 2);
            lemma_level_at_most(self.0 as nat, 21);
            lemma_path_length(self.0 as nat);
        }
        while rest >= 8
            invariant
                level_of(self.0 as nat) == l + level_of(rest as nat),
                level_of(self.0 as nat) <= 21,
            decreases rest,
        {
            assert(rest >> 3 == rest / 8) by (bit_vector);
            rest = rest >> 3;
            l = l + 1;
        }
        l
    }

    fn neighbor(&self, x: bool, y: bool, z: bool) -> (n: Option<MortonKey>)
        ensures
            n == self.spec_neighbor_at(
                if x {
                    1int
                } else {
                    0int
                },
                if y {
                    1int
                } else {
                    0int
                },
                if z {
                    1int
                } else {
                    0int
                },
            ),
    {
        let dx: i8 = if x {
            1
        } else {
            0
        };
        let dy: i8 = if y {
            1
        } else {
            0
        };
        let dz: i8 = if z {
            1
        } else {
            0
        };
        let n = self.neighbor_at(dx, dy, dz);
        proof {
            if n is Some {
                let side = pow2(self.spec_level());
                lemma_key_of_inverts(
                    (self.spec_component(0) + dx) as nat,
                    (self.spec_component(1) + dy) as nat,
                    (self.spec_component(2) + dz) as nat,
                    self.spec_level(),
                );
                lemma_key_of_fits(
                    (self.spec_component(0) + dx) as nat,
                    (self.spec_component(1) + dy) as nat,
                    (self.spec_component(2) + dz) as nat,
                    self.spec_level(),
                );
            }
        }
        n
    }
}

} // verus!
