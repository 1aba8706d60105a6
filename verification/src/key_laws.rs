//! What holds of Morton keys: bounds, the steps of the bit manipulation, and
//! the laws that relate paths, levels, coordinates and keys.

use crate::key::{
    axis_bit, child_of, component_of, contracted, dilated, gathered, has_sentinel, key_of,
    level_of, low_mask, path_of, spread, step_x, step_y, step_z, MortonKey, ISOLATE_X, ISOLATE_Y,
    ISOLATE_Z, MAX_LEVEL,
};
use vstd::arithmetic::div_mod::{lemma_fundamental_div_mod, lemma_mod_multiples_vanish};
use vstd::arithmetic::power2::{
    lemma2_to64, lemma2_to64_rest, lemma_pow2_adds, lemma_pow2_pos, lemma_pow2_strictly_increases,
    pow2,
};
use vstd::bits::lemma_u64_shl_is_mul;
use vstd::prelude::*;

verus! {

/// A bit pattern with `level_of(k) == n` lies between `8^n` and `8^(n+1)`,
/// and below `2 * 8^n` exactly when its leading digit is the sentinel.
pub proof fn lemma_level_bounds(k: nat)
    requires
        k >= 1,
    ensures
        pow2(3 * level_of(k)) <= k < pow2(3 * level_of(k) + 3),
        has_sentinel(k) <==> k < pow2(3 * level_of(k) + 1),
    decreases k,
{
    lemma2_to64();
    if k >= 8 {
        let n = level_of(k / 8);
        lemma_level_bounds(k / 8);
        lemma_pow2_adds(3 * n, 3);
        lemma_pow2_adds(3 * n + 1, 3);
        lemma_pow2_adds(3 * n + 3, 3);
    }
}

/// A bit pattern below `8^(n+1)` has level at most `n`.
pub proof fn lemma_level_at_most(k: nat, n: nat)
    requires
        k < pow2(3 * n + 3),
    ensures
        level_of(k) <= n,
    decreases n,
{
    lemma2_to64();
    if k >= 8 {
        lemma_pow2_adds(3 * n, 3);
        if n > 0 {
            lemma_pow2_adds(3 * (n - 1) as nat + 3, 3);
            lemma_level_at_most(k / 8, (n - 1) as nat);
        }
    }
}

/// A well-formed key is below `2^49`.
pub proof fn lemma_well_formed_fits(k: MortonKey)
    requires
        k.well_formed(),
    ensures
        1 <= k.0 < 0x2_0000_0000_0000,
        pow2(3 * k.spec_level()) <= k.0 < 2 * pow2(3 * k.spec_level()),
{
    lemma2_to64_rest();
    lemma_level_bounds(k.0 as nat);
    let n = k.spec_level();
    lemma_pow2_adds(3 * n, 1);
    lemma2_to64();
    if 3 * n + 1 < 49 {
        lemma_pow2_strictly_increases(3 * n + 1, 49);
    }
}

/// The path has one octant for each level.
pub proof fn lemma_path_length(k: nat)
    ensures
        path_of(k).len() == level_of(k),
    decreases k,
{
    if k >= 8 {
        lemma_path_length(k / 8);
    }
}

/// A coordinate at level `n` lies below `2^n`.
pub proof fn lemma_component_bound(k: nat, axis: nat)
    ensures
        component_of(k, axis) < pow2(level_of(k)),
    decreases k,
{
    lemma2_to64();
    if k >= 8 {
        lemma_component_bound(k / 8, axis);
        lemma_pow2_adds(level_of(k / 8), 1);
    }
}

proof fn lemma_gathered_step(k: u64, axis: nat)
    requires
        axis < 3,
    ensures
        gathered(k, axis) <= 0xffff,
        gathered(k, axis) == ((gathered(k >> 3, axis) << 1) | ((k >> ((2 - axis) as u64)) & 1))
            & 0xffff,
        (k >> ((2 - axis) as u64)) & 1 == axis_bit((k % 8) as nat, axis),
        k >> 3 == k / 8,
{
    assert(k >> 3 == k / 8) by (bit_vector);
    if axis == 0 {
        assert(contracted((k & ISOLATE_X) >> 2) == ((contracted(((k >> 3) & ISOLATE_X) >> 2) << 1)
            | ((k >> 2) & 1)) & 0xffff) by (bit_vector);
        assert(contracted((k & ISOLATE_X) >> 2) <= 0xffff) by (bit_vector);
        assert((k >> 2) & 1 == ((k % 8) / 4) % 2) by (bit_vector);
    } else if axis == 1 {
        assert(contracted((k & ISOLATE_Y) >> 1) == ((contracted(((k >> 3) & ISOLATE_Y) >> 1) << 1)
            | ((k >> 1) & 1)) & 0xffff) by (bit_vector);
        assert(contracted((k & ISOLATE_Y) >> 1) <= 0xffff) by (bit_vector);
        assert((k >> 1) & 1 == ((k % 8) / 2) % 2) by (bit_vector);
    } else {
        assert(contracted((k & ISOLATE_Z) >> 0) == ((contracted(((k >> 3) & ISOLATE_Z) >> 0) << 1)
            | ((k >> 0) & 1)) & 0xffff) by (bit_vector);
        assert(contracted((k & ISOLATE_Z) >> 0) <= 0xffff) by (bit_vector);
        assert((k >> 0) & 1 == (k % 8) % 2) by (bit_vector);
    }
}

/// What the contraction rounds leave below the key's level is the cell's
/// coordinate, cut to 16 bits.
pub proof fn lemma_gathered_is_component(k: u64, axis: nat)
    requires
        axis < 3,
    ensures
        level_of(k as nat) <= 21,
        gathered(k, axis) & low_mask(level_of(k as nat) as u64) == component_of(k as nat, axis)
            % 0x10000,
    decreases k,
{
    lemma2_to64();
    lemma2_to64_rest();
    lemma_pow2_adds(64, 2);
    lemma_level_at_most(k as nat, 21);
    let g = gathered(k, axis);
    if k < 8 {
        assert(g & low_mask(0) == 0) by (bit_vector);
    } else {
        lemma_gathered_step(k, axis);
        lemma_gathered_step(k >> 3, axis);
        lemma_gathered_is_component(k >> 3, axis);
        let p = gathered(k >> 3, axis);
        let l = level_of((k >> 3) as nat) as u64;
        let shifted = k >> ((2 - axis) as u64);
        let b = shifted & 1;
        let c = component_of((k >> 3) as nat, axis);
        assert(shifted & 1 <= 1) by (bit_vector);
        assert((((p << 1) | b) & 0xffff) & low_mask((l + 1) as u64) == (2 * (p & low_mask(l)) + b)
            % 0x10000) by (bit_vector)
            requires
                p <= 0xffff,
                l <= 20,
                b <= 1,
        ;
        assert((2 * (c % 0x10000) + b) % 0x10000 == (2 * c + b) % 0x10000) by {
            lemma_fundamental_div_mod(c as int, 0x10000);
            lemma_mod_multiples_vanish(-2 * (c as int / 0x10000), 2 * c + b, 0x10000);
        }
    }
}

/// A value below `2^n` spreads to a value below `8^n`.
pub proof fn lemma_dilated_bound(c: nat, n: nat)
    requires
        c < pow2(n),
    ensures
        dilated(c) < pow2(3 * n),
    decreases c,
{
    lemma2_to64();
    lemma_pow2_pos(3 * n);
    if c != 0 {
        lemma_pow2_adds((n - 1) as nat, 1);
        lemma_pow2_adds(3 * (n - 1) as nat, 3);
        lemma_dilated_bound(c / 2, (n - 1) as nat);
    }
}

/// The five spreading rounds put bit `i` of a 16-bit value at bit `3 * i`
/// and leave every other bit clear.
pub proof fn lemma_spread_is_dilated(c: u64)
    requires
        c <= 0xffff,
    ensures
        spread(c) == dilated(c as nat),
        spread(c) & !ISOLATE_Z == 0,
    decreases c,
{
    assert(spread(c) & !ISOLATE_Z == 0) by (bit_vector);
    if c == 0 {
        assert(spread(0) == 0) by (bit_vector);
    } else {
        let h = c >> 1;
        assert(h == c / 2 && h <= 0xffff) by (bit_vector)
            requires
                h == c >> 1,
                c <= 0xffff,
        ;
        lemma_spread_is_dilated(h);
        assert(spread(c) == 8 * spread(c >> 1) + c % 2) by (bit_vector)
            requires
                c <= 0xffff,
        ;
    }
}

/// The sentinel and the three spread coordinates occupy different bits, so
/// that joining them with `|` adds them up.
pub proof fn lemma_or_is_sum(x: u16, y: u16, z: u16, level: nat)
    requires
        level <= MAX_LEVEL,
        x < pow2(level),
        y < pow2(level),
        z < pow2(level),
    ensures
        ({
            let s = 1u64 << ((3 * level) as u64);
            let dx = dilated(x as nat) as u64;
            let dy = dilated(y as nat) as u64;
            let dz = dilated(z as nat) as u64;
            s | (dx << 2) | (dy << 1) | dz == key_of(x as nat, y as nat, z as nat, level)
        }),
{
    let t = (3 * level) as u64;
    let s = 1u64 << t;
    lemma2_to64();
    lemma2_to64_rest();
    lemma_spread_is_dilated(x as u64);
    lemma_spread_is_dilated(y as u64);
    lemma_spread_is_dilated(z as u64);
    lemma_dilated_bound(x as nat, level);
    lemma_dilated_bound(y as nat, level);
    lemma_dilated_bound(z as nat, level);
    if t < 48 {
        lemma_pow2_strictly_increases(t as nat, 48);
    }
    lemma_u64_shl_is_mul(1, t);
    let dx = dilated(x as nat) as u64;
    let dy = dilated(y as nat) as u64;
    let dz = dilated(z as nat) as u64;
    assert(s | (dx << 2) | (dy << 1) | dz == s + 4 * dx + 2 * dy + dz) by (bit_vector)
        requires
            s == 1u64 << t,
            t <= 48,
            t % 3 == 0,
            dx < s,
            dy < s,
            dz < s,
            dx & !ISOLATE_Z == 0,
            dy & !ISOLATE_Z == 0,
            dz & !ISOLATE_Z == 0,
    ;
}

/// The key of coordinates at level `level >= 1` is the key of the halved
/// coordinates one level up, followed by the octal digit made of the
/// coordinates' low bits.
pub proof fn lemma_key_of_step(x: nat, y: nat, z: nat, level: nat)
    requires
        level >= 1,
    ensures
        key_of(x, y, z, level) == 8 * key_of(x / 2, y / 2, z / 2, (level - 1) as nat) + 4 * (x % 2)
            + 2 * (y % 2) + z % 2,
        key_of(x, y, z, level) / 8 == key_of(x / 2, y / 2, z / 2, (level - 1) as nat),
        key_of(x, y, z, level) % 8 == 4 * (x % 2) + 2 * (y % 2) + z % 2,
{
    lemma2_to64();
    lemma_pow2_adds(3 * (level - 1) as nat, 3);
}

/// The key built from coordinates below `2^level` carries the sentinel,
/// lies at `level`, and has these coordinates.
pub proof fn lemma_key_of_inverts(x: nat, y: nat, z: nat, level: nat)
    requires
        x < pow2(level),
        y < pow2(level),
        z < pow2(level),
    ensures
        has_sentinel(key_of(x, y, z, level)),
        level_of(key_of(x, y, z, level)) == level,
        component_of(key_of(x, y, z, level), 0) == x,
        component_of(key_of(x, y, z, level), 1) == y,
        component_of(key_of(x, y, z, level), 2) == z,
    decreases level,
{
    lemma2_to64();
    if level > 0 {
        lemma_pow2_adds((level - 1) as nat, 1);
        lemma_key_of_step(x, y, z, level);
        lemma_key_of_inverts(x / 2, y / 2, z / 2, (level - 1) as nat);
        lemma_pow2_pos(3 * (level - 1) as nat);
    }
}

/// The key built from coordinates below `2^level` is below `2 * 8^level`,
/// and below `2^49` where `level` is at most `MAX_LEVEL`.
pub proof fn lemma_key_of_fits(x: nat, y: nat, z: nat, level: nat)
    requires
        x < pow2(level),
        y < pow2(level),
        z < pow2(level),
    ensures
        pow2(3 * level) <= key_of(x, y, z, level) < pow2(3 * level + 1),
        level <= MAX_LEVEL ==> key_of(x, y, z, level) < 0x2_0000_0000_0000,
{
    lemma_key_of_inverts(x, y, z, level);
    lemma_pow2_pos(3 * level);
    lemma_level_bounds(key_of(x, y, z, level));
    lemma2_to64_rest();
    if 3 * level + 1 < 49 {
        lemma_pow2_strictly_increases(3 * level + 1, 49);
    }
}

/// A bit pattern with the sentinel is the key of its own coordinates and
/// level.
pub proof fn lemma_components_invert(k: nat)
    requires
        has_sentinel(k),
    ensures
        key_of(component_of(k, 0), component_of(k, 1), component_of(k, 2), level_of(k)) == k,
    decreases k,
{
    lemma2_to64();
    if k >= 8 {
        lemma_components_invert(k / 8);
        lemma_key_of_step(
            component_of(k, 0),
            component_of(k, 1),
            component_of(k, 2),
            level_of(k),
        );
    }
}

/// The child of a cell above the deepest level: one octal digit more, one
/// level deeper, and along each axis twice the coordinate plus the digit's
/// bit for that axis.
pub proof fn lemma_child(k: u64, i: u64)
    requires
        has_sentinel(k as nat),
        level_of(k as nat) < MAX_LEVEL,
        i < 8,
    ensures
        child_of(k, i) == 8 * k + i,
        has_sentinel(child_of(k, i) as nat),
        level_of(child_of(k, i) as nat) == level_of(k as nat) + 1,
        path_of(child_of(k, i) as nat) == path_of(k as nat).push(i),
        forall|axis: nat| #[trigger]
            component_of(child_of(k, i) as nat, axis) == 2 * component_of(k as nat, axis)
                + axis_bit(i as nat, axis),
{
    lemma2_to64_rest();
    lemma_level_bounds(k as nat);
    let n = level_of(k as nat);
    if 3 * n + 1 < 46 {
        lemma_pow2_strictly_increases(3 * n + 1, 46);
    }
    assert((k << 3) | i == 8 * k + i) by (bit_vector)
        requires
            k < 0x4000_0000_0000,
            i < 8,
    ;
}

/// The key reached from the root by taking the octants of `path` in order.
pub open spec fn descend(path: Seq<u64>) -> MortonKey
    decreases path.len(),
{
    if path.len() == 0 {
        MortonKey(1)
    } else {
        MortonKey(child_of(descend(path.drop_last()).0, path.last()))
    }
}

/// The coordinate along `axis` that a path leads to: the bits that its
/// octants hold for that axis, the first octant's bit highest.
pub open spec fn path_component(path: Seq<u64>, axis: nat) -> nat
    decreases path.len(),
{
    if path.len() == 0 {
        0
    } else {
        2 * path_component(path.drop_last(), axis) + axis_bit(path.last() as nat, axis)
    }
}

/// Every entry of `path` is an octant.
pub open spec fn is_path(path: Seq<u64>) -> bool {
    forall|i: int| 0 <= i < path.len() ==> #[trigger] path[i] < 8
}

/// Taking at most `MAX_LEVEL` octants from the root gives a well-formed key
/// whose level is the number of octants taken, whose path is the octants
/// taken, and whose coordinate along each axis is the bit pattern that the
/// octants hold for that axis.
pub proof fn lemma_descend(path: Seq<u64>)
    requires
        path.len() <= MAX_LEVEL,
        is_path(path),
    ensures
        descend(path).well_formed(),
        descend(path).spec_level() == path.len(),
        descend(path)@ == path,
        forall|axis: nat| #[trigger]
            descend(path).spec_component(axis) == path_component(path, axis),
    decreases path.len(),
{
    if path.len() > 0 {
        let up = path.drop_last();
        lemma_descend(up);
        lemma_child(descend(up).0, path.last());
        assert(up.push(path.last()) =~= path);
        assert forall|axis: nat| #[trigger]
            descend(path).spec_component(axis) == path_component(path, axis) by {
            assert(descend(up).spec_component(axis) == path_component(up, axis));
        }
    }
}

/// Where every octant taken lies in the upper half along `axis`, the
/// coordinate along that axis is the greatest of the level, `2^l - 1`;
/// where every octant lies in the lower half, it is zero.
pub proof fn lemma_straight_descent(path: Seq<u64>, axis: nat)
    requires
        path.len() <= MAX_LEVEL,
        is_path(path),
    ensures
        (forall|i: int| 0 <= i < path.len() ==> axis_bit(#[trigger] path[i] as nat, axis) == 1)
            ==> descend(path).spec_component(axis) == pow2(path.len()) - 1,
        (forall|i: int| 0 <= i < path.len() ==> axis_bit(#[trigger] path[i] as nat, axis) == 0)
            ==> descend(path).spec_component(axis) == 0,
    decreases path.len(),
{
    lemma2_to64();
    lemma_descend(path);
    if path.len() > 0 {
        let up = path.drop_last();
        lemma_descend(up);
        lemma_straight_descent(up, axis);
        lemma_pow2_adds(up.len(), 1);
        assert(descend(up).spec_component(axis) == path_component(up, axis));
        assert(descend(path).spec_component(axis) == path_component(path, axis));
        assert(forall|i: int| 0 <= i < up.len() ==> up[i] == path[i]);
        assert(path.last() == path[path.len() - 1]);
    }
}

/// A well-formed key is where its own path leads.
pub proof fn lemma_path_round_trip(k: MortonKey)
    requires
        k.well_formed(),
    ensures
        is_path(k@),
        k@.len() == k.spec_level(),
        descend(k@) == k,
    decreases k.0,
{
    lemma_path_length(k.0 as nat);
    if k.0 >= 8 {
        let up = MortonKey((k.0 / 8) as u64);
        lemma_path_round_trip(up);
        let digit = (k.0 % 8) as u64;
        assert(k@.drop_last() =~= up@);
        assert(k@.last() == digit);
        lemma_child(up.0, digit);
        assert forall|i: int| 0 <= i < k@.len() implies #[trigger] k@[i] < 8 by {
            if i < up@.len() {
                assert(k@[i] == up@[i]);
            }
        }
    }
}

/// The `j`-th offset leads from `k` to `m`.
pub open spec fn reaches(k: MortonKey, j: int, m: MortonKey) -> bool {
    k.spec_neighbor_at(step_x(j), step_y(j), step_z(j)) == Some(m)
}

/// The cells `k` and `m` lie at one level, differ, and are at most one step
/// apart along each axis.
pub open spec fn adjacent(k: MortonKey, m: MortonKey) -> bool {
    &&& k.spec_level() == m.spec_level()
    &&& k != m
    &&& forall|axis: nat|
        axis < 3 ==> -1 <= #[trigger] m.spec_component(axis) - k.spec_component(axis) <= 1
}

/// The cell that a step leads to is well formed, lies at the level of the
/// cell that the step starts from, and has that cell's coordinates moved
/// by the step.
pub proof fn lemma_neighbor_at(k: MortonKey, dx: int, dy: int, dz: int)
    requires
        k.well_formed(),
        k.spec_neighbor_at(dx, dy, dz) is Some,
    ensures
        ({
            let m = k.spec_neighbor_at(dx, dy, dz).unwrap();
            &&& m.well_formed()
            &&& m.spec_level() == k.spec_level()
            &&& m.spec_component(0) == k.spec_component(0) + dx
            &&& m.spec_component(1) == k.spec_component(1) + dy
            &&& m.spec_component(2) == k.spec_component(2) + dz
            &&& m != k
        }),
{
    let n = k.spec_level();
    let x = (k.spec_component(0) + dx) as nat;
    let y = (k.spec_component(1) + dy) as nat;
    let z = (k.spec_component(2) + dz) as nat;
    lemma_key_of_inverts(x, y, z, n);
    lemma_key_of_fits(x, y, z, n);
}

/// The first `n` offsets lead to `m` exactly if one of them does.
pub proof fn lemma_upto_members(k: MortonKey, n: nat, m: MortonKey)
    ensures
        k.neighbors_upto(n).contains(m) <==> exists|j: int| 0 <= j < n && reaches(k, j, m),
    decreases n,
{
    if n > 0 {
        let j = n - 1;
        let before = k.neighbors_upto(j as nat);
        lemma_upto_members(k, j as nat, m);
        let now = k.neighbors_upto(n);
        if now.contains(m) {
            let i = choose|i: int| 0 <= i < now.len() && now[i] == m;
            if i < before.len() {
                assert(before[i] == m);
                let w = choose|w: int| 0 <= w < j && reaches(k, w, m);
                assert(0 <= w < n && reaches(k, w, m));
            } else {
                assert(0 <= j < n && reaches(k, j, m));
            }
        }
        if exists|w: int| 0 <= w < n && reaches(k, w, m) {
            let w = choose|w: int| 0 <= w < n && reaches(k, w, m);
            if w < j {
                let i = choose|i: int| 0 <= i < before.len() && before[i] == m;
                assert(now[i] == m);
            } else {
                assert(now[now.len() - 1] == m);
            }
        }
    }
}

/// The neighbors of a cell are the cells adjacent to it.
pub proof fn lemma_neighbors_are_adjacent(k: MortonKey, m: MortonKey)
    requires
        k.well_formed(),
    ensures
        k.spec_neighbors().contains(m) <==> m.well_formed() && adjacent(k, m),
{
    lemma_upto_members(k, 27, m);
    if k.spec_neighbors().contains(m) {
        let j = choose|j: int| 0 <= j < 27 && reaches(k, j, m);
        lemma_neighbor_at(k, step_x(j), step_y(j), step_z(j));
        assert(adjacent(k, m)) by {
            assert forall|axis: nat| axis < 3 implies -1 <= #[trigger] m.spec_component(axis)
                - k.spec_component(axis) <= 1 by {}
        }
    }
    if m.well_formed() && adjacent(k, m) {
        let dx = m.spec_component(0) - k.spec_component(0);
        let dy = m.spec_component(1) - k.spec_component(1);
        let dz = m.spec_component(2) - k.spec_component(2);
        let j = 9 * (dx + 1) + 3 * (dy + 1) + (dz + 1);
        assert(-1 <= dx <= 1 && -1 <= dy <= 1 && -1 <= dz <= 1);
        assert(step_x(j) == dx && step_y(j) == dy && step_z(j) == dz);
        lemma_component_bound(m.0 as nat, 0);
        lemma_component_bound(m.0 as nat, 1);
        lemma_component_bound(m.0 as nat, 2);
        lemma_components_invert(m.0 as nat);
        lemma_components_invert(k.0 as nat);
        assert(reaches(k, j, m));
    }
}

/// Being a neighbor is mutual.
pub proof fn lemma_neighbors_symmetric(k: MortonKey, m: MortonKey)
    requires
        k.well_formed(),
        m.well_formed(),
    ensures
        k.spec_neighbors().contains(m) <==> m.spec_neighbors().contains(k),
{
    lemma_neighbors_are_adjacent(k, m);
    lemma_neighbors_are_adjacent(m, k);
    if adjacent(k, m) {
        assert forall|axis: nat| axis < 3 implies -1 <= #[trigger] k.spec_component(axis)
            - m.spec_component(axis) <= 1 by {
            assert(-1 <= m.spec_component(axis) - k.spec_component(axis) <= 1);
        }
    }
    if adjacent(m, k) {
        assert forall|axis: nat| axis < 3 implies -1 <= #[trigger] m.spec_component(axis)
            - k.spec_component(axis) <= 1 by {
            assert(-1 <= k.spec_component(axis) - m.spec_component(axis) <= 1);
        }
    }
}

/// An offset is determined by its three steps.
pub proof fn lemma_steps_determine(j: int)
    requires
        0 <= j < 27,
    ensures
        j == 9 * (step_x(j) + 1) + 3 * (step_y(j) + 1) + (step_z(j) + 1),
        -1 <= step_x(j) <= 1,
        -1 <= step_y(j) <= 1,
        -1 <= step_z(j) <= 1,
        (step_x(j) == 0 && step_y(j) == 0 && step_z(j) == 0) <==> j == 13,
{
    let q = j / 3;
    assert(j == 3 * q + j % 3);
    assert(q == 3 * (q / 3) + q % 3);
    assert(j / 9 == q / 3);
}

/// No cell occurs twice among the cells that the first `n` offsets lead to.
pub proof fn lemma_upto_distinct(k: MortonKey, n: nat)
    requires
        k.well_formed(),
        n <= 27,
    ensures
        k.neighbors_upto(n).no_duplicates(),
        k.neighbors_upto(n).len() <= n,
        n > 13 ==> k.neighbors_upto(n).len() < n,
    decreases n,
{
    if n > 0 {
        let j = n - 1;
        let before = k.neighbors_upto(j as nat);
        lemma_upto_distinct(k, j as nat);
        match k.spec_neighbor_at(step_x(j), step_y(j), step_z(j)) {
            Some(m) => {
                lemma_upto_members(k, j as nat, m);
                if before.contains(m) {
                    let w = choose|w: int| 0 <= w < j && reaches(k, w, m);
                    lemma_neighbor_at(k, step_x(j), step_y(j), step_z(j));
                    lemma_neighbor_at(k, step_x(w), step_y(w), step_z(w));
                    lemma_steps_determine(j);
                    lemma_steps_determine(w);
                    assert(false);
                }
            },
            None => {},
        }
        if j == 13 {
            lemma_steps_determine(j);
        }
    }
}

/// A cell has at most 26 neighbors, each of them once.
pub proof fn lemma_neighbors_distinct(k: MortonKey)
    requires
        k.well_formed(),
    ensures
        k.spec_neighbors().no_duplicates(),
        k.spec_neighbors().len() <= 26,
{
    lemma_upto_distinct(k, 27);
}

/// The step `d` along `axis` keeps the cell `k` in the grid of its level.
pub open spec fn in_grid(k: MortonKey, d: int, axis: nat) -> bool {
    0 <= k.spec_component(axis) + d < pow2(k.spec_level())
}

/// Number of the steps -1, 0 and 1 along `axis` that keep a cell in the
/// grid of its level.
pub open spec fn steps_in_grid(k: MortonKey, axis: nat) -> nat {
    let back: nat = if in_grid(k, -1, axis) {
        1
    } else {
        0
    };
    let forth: nat = if in_grid(k, 1, axis) {
        1
    } else {
        0
    };
    1 + back + forth
}

/// Number of the first `n` offsets that lead to a cell.
pub open spec fn hits_upto(k: MortonKey, n: nat) -> nat
    decreases n,
{
    if n == 0 {
        0
    } else {
        let j = n - 1;
        let hit: nat = if k.spec_neighbor_at(step_x(j), step_y(j), step_z(j)) is Some {
            1
        } else {
            0
        };
        hits_upto(k, j as nat) + hit
    }
}

proof fn lemma_upto_len(k: MortonKey, n: nat)
    ensures
        k.neighbors_upto(n).len() == hits_upto(k, n),
    decreases n,
{
    if n > 0 {
        lemma_upto_len(k, (n - 1) as nat);
    }
}

/// Number of cells that the three offsets with the `r`-th pair of steps
/// along x and y lead to.
spec fn row_hits(k: MortonKey, r: int) -> int {
    let center: int = if r == 4 {
        1
    } else {
        0
    };
    if in_grid(k, r / 3 - 1, 0) && in_grid(k, r % 3 - 1, 1) {
        steps_in_grid(k, 2) - center
    } else {
        0
    }
}

proof fn lemma_row(k: MortonKey, r: int)
    requires
        k.well_formed(),
        0 <= r < 9,
    ensures
        hits_upto(k, (3 * r + 3) as nat) == hits_upto(k, (3 * r) as nat) + row_hits(k, r),
{
    lemma_component_bound(k.0 as nat, 2);
    reveal_with_fuel(hits_upto, 4);
    lemma_steps_determine(3 * r);
    lemma_steps_determine(3 * r + 1);
    lemma_steps_determine(3 * r + 2);
    assert(step_z(3 * r) == -1 && step_z(3 * r + 1) == 0 && step_z(3 * r + 2) == 1);
    assert(step_x(3 * r) == r / 3 - 1 && step_y(3 * r) == r % 3 - 1);
    assert(step_x(3 * r + 1) == r / 3 - 1 && step_y(3 * r + 1) == r % 3 - 1);
    assert(step_x(3 * r + 2) == r / 3 - 1 && step_y(3 * r + 2) == r % 3 - 1);
}

/// A cell has one neighbor for each choice of steps that stay in the grid,
/// but for the choice of no step: 26 in the interior, 7 in a corner, none
/// for the root.
pub proof fn lemma_neighbors_count(k: MortonKey)
    requires
        k.well_formed(),
    ensures
        k.spec_neighbors().len() == steps_in_grid(k, 0) * steps_in_grid(k, 1) * steps_in_grid(
            k,
            2,
        ) - 1,
        k.spec_level() >= 1 ==> 7 <= k.spec_neighbors().len() <= 26,
        k.spec_level() == 0 ==> k.spec_neighbors().len() == 0,
{
    lemma2_to64();
    lemma_component_bound(k.0 as nat, 0);
    lemma_component_bound(k.0 as nat, 1);
    lemma_component_bound(k.0 as nat, 2);
    if k.spec_level() >= 1 {
        lemma_pow2_adds((k.spec_level() - 1) as nat, 1);
        lemma_pow2_pos((k.spec_level() - 1) as nat);
    }
    let a = steps_in_grid(k, 0);
    let b = steps_in_grid(k, 1);
    let c = steps_in_grid(k, 2);
    let q = b * c;
    assert(q == if b == 1 {
        c
    } else if b == 2 {
        c + c
    } else {
        c + c + c
    }) by (nonlinear_arith)
        requires
            q == b * c,
            1 <= b <= 3,
    ;
    assert(a * b * c == if a == 1 {
        q
    } else if a == 2 {
        q + q
    } else {
        q + q + q
    }) by (nonlinear_arith)
        requires
            q == b * c,
            1 <= a <= 3,
    ;
    lemma_upto_len(k, 27);
    lemma_row(k, 0);
    lemma_row(k, 1);
    lemma_row(k, 2);
    lemma_row(k, 3);
    lemma_row(k, 4);
    lemma_row(k, 5);
    lemma_row(k, 6);
    lemma_row(k, 7);
    lemma_row(k, 8);
    assert(hits_upto(k, 0) == 0);
}

} // verus!
