use vstd::prelude::*;
use vstd::arithmetic::div_mod::lemma_fundamental_div_mod;

verus! {

/// An integer 3-vector: a voxel, brick or chunk coordinate.
#[derive(Clone, Copy, Debug, PartialEq, Eq, Hash, Structural)]
pub struct IVec3 {
    pub x: i32,
    pub y: i32,
    pub z: i32,
}

/// World-space voxel coordinates.
pub type VoxelCoord = IVec3;

impl IVec3 {
    pub fn new(x: i32, y: i32, z: i32) -> (v: IVec3)
        ensures
            v.x == x,
            v.y == y,
            v.z == z,
    {
        IVec3 { x, y, z }
    }

    pub fn splat(v: i32) -> (r: IVec3)
        ensures
            r == (IVec3 { x: v, y: v, z: v }),
    {
        IVec3 { x: v, y: v, z: v }
    }

    pub open spec fn zero() -> IVec3 {
        IVec3 { x: 0, y: 0, z: 0 }
    }
}

pub open spec fn abs(a: int) -> int {
    if a >= 0 { a } else { -a }
}

/// Truncating integer division, as Rust's `/` computes it on signed integers.
pub open spec fn trunc_div(a: int, b: int) -> int {
    if (a >= 0) == (b > 0) { abs(a) / abs(b) } else { -(abs(a) / abs(b)) }
}

/// The remainder that goes with `trunc_div`, as Rust's `%` computes it.
pub open spec fn trunc_rem(a: int, b: int) -> int {
    if a >= 0 { a % b } else { -((-a) % b) }
}

proof fn lemma_mod_neg_divisor(a: int, b: int)
    requires
        b < 0,
    ensures
        a % b == a % (-b),
{
    lemma_fundamental_div_mod(a, b);
    lemma_fundamental_div_mod(a, -b);
    vstd::arithmetic::div_mod::lemma_mod_bound(a, -b);
    assert(a == (-(a / b)) * (-b) + a % b) by (nonlinear_arith)
        requires
            a == b * (a / b) + a % b,
    ;
    vstd::arithmetic::div_mod::lemma_fundamental_div_mod_converse(a, -b, -(a / b), a % b);
}

proof fn lemma_trunc_div_rem(a: int, b: int)
    requires
        b != 0,
    ensures
        a == b * trunc_div(a, b) + trunc_rem(a, b),
        abs(trunc_rem(a, b)) < abs(b),
        a >= 0 ==> trunc_rem(a, b) >= 0,
        a < 0 ==> trunc_rem(a, b) <= 0,
        abs(trunc_div(a, b)) <= abs(a),
        abs(b) >= 2 ==> 2 * abs(trunc_div(a, b)) <= abs(a),
{
    if b < 0 {
        lemma_mod_neg_divisor(a, b);
        lemma_mod_neg_divisor(-a, b);
    }
    let ab = abs(b);
    let aa = abs(a);
    lemma_fundamental_div_mod(aa, ab);
    vstd::arithmetic::div_mod::lemma_mod_bound(aa, ab);
    vstd::arithmetic::div_mod::lemma_div_is_ordered_by_denominator(aa, 1, ab);
    if ab >= 2 {
        assert(2 * (aa / ab) <= aa) by (nonlinear_arith)
            requires
                aa == ab * (aa / ab) + aa % ab,
                0 <= aa % ab,
                ab >= 2,
                aa / ab >= 0,
        ;
    }
    if a >= 0 && b > 0 {
    } else if a >= 0 {
        assert(b * (-(aa / ab)) == ab * (aa / ab)) by (nonlinear_arith)
            requires
                ab == -b,
        ;
    } else if b > 0 {
        assert(b * (-(aa / ab)) == -(ab * (aa / ab))) by (nonlinear_arith)
            requires
                ab == b,
        ;
    } else {
        assert(b * (aa / ab) == -(ab * (aa / ab))) by (nonlinear_arith)
            requires
                ab == -b,
        ;
    }
}

/// What `div_floor` returns: the truncating quotient and remainder, moved one
/// step down when the remainder is negative.
pub open spec fn spec_div_floor(value: int, divisor: int) -> (int, int) {
    let q = trunc_div(value, divisor);
    let r = trunc_rem(value, divisor);
    if r < 0 { (q - 1, r + divisor) } else { (q, r) }
}

/// The inputs on which `div_floor` neither divides by zero nor overflows.
pub open spec fn div_floor_defined(value: i32, divisor: i32) -> bool {
    &&& divisor != 0
    &&& !(value == i32::MIN && divisor == -1)
    &&& trunc_rem(value as int, divisor as int) < 0 ==> i32::MIN <= trunc_rem(
        value as int,
        divisor as int,
    ) + divisor
}

/// The floor-division law behind `div_floor`: for a positive divisor the
/// quotient and remainder recombine to the value and the remainder lies in
/// `0..divisor`, so they are the Euclidean quotient and remainder.
pub proof fn lemma_div_floor_euclidean(value: int, divisor: int)
    requires
        divisor > 0,
    ensures
        value == spec_div_floor(value, divisor).0 * divisor + spec_div_floor(value, divisor).1,
        0 <= spec_div_floor(value, divisor).1 < divisor,
        spec_div_floor(value, divisor).0 == value / divisor,
        spec_div_floor(value, divisor).1 == value % divisor,
{
    lemma_trunc_div_rem(value, divisor);
    let q = spec_div_floor(value, divisor).0;
    let r = spec_div_floor(value, divisor).1;
    assert(value == q * divisor + r) by (nonlinear_arith)
        requires
            value == divisor * trunc_div(value, divisor) + trunc_rem(value, divisor),
            (q, r) == spec_div_floor(value, divisor),
    ;
    vstd::arithmetic::div_mod::lemma_fundamental_div_mod_converse(value, divisor, q, r);
}

/// Floor division: returns `(quotient, remainder)` with the quotient rounded
/// toward negative infinity.
pub fn div_floor(value: i32, divisor: i32) -> (r: (i32, i32))
    requires
        div_floor_defined(value, divisor),
    ensures
        r.0 == spec_div_floor(value as int, divisor as int).0,
        r.1 == spec_div_floor(value as int, divisor as int).1,
        divisor > 0 ==> value == r.0 * divisor + r.1 && 0 <= r.1 < divisor,
{
    proof {
        lemma_trunc_div_rem(value as int, divisor as int);
        if divisor > 0 {
            lemma_div_floor_euclidean(value as int, divisor as int);
        }
    }
    let mut remainder = value % divisor;
    let mut quotient = match value.checked_div(divisor) {
        Some(q) => q,
        None => 0,
    };
    if remainder < 0 {
        assert(value < 0);
        proof {
            let q = quotient as int;
            let r = remainder as int;
            let d = divisor as int;
            let v = value as int;
            assert(v == d * q + r);
            if d > 0 {
                assert(q > i32::MIN) by (nonlinear_arith)
                    requires v == d * q + r, -d < r < 0, d > 0, v >= i32::MIN, q >= i32::MIN;
            } else {
                assert(q > i32::MIN) by (nonlinear_arith)
                    requires v == d * q + r, d < r < 0, d < 0, v < 0, d >= i32::MIN, q >= i32::MIN;
            }
        }
        quotient -= 1;
        remainder += divisor;
    }
    (quotient, remainder)
}

/// What `chunk_local_from_voxel` (and `brick_local_from_voxel`) return: the
/// cell that holds the voxel and the voxel's offset inside that cell, per axis.
pub open spec fn spec_split(voxel: IVec3, size: int) -> (IVec3, IVec3) {
    (
        IVec3 {
            x: spec_div_floor(voxel.x as int, size).0 as i32,
            y: spec_div_floor(voxel.y as int, size).0 as i32,
            z: spec_div_floor(voxel.z as int, size).0 as i32,
        },
        IVec3 {
            x: spec_div_floor(voxel.x as int, size).1 as i32,
            y: spec_div_floor(voxel.y as int, size).1 as i32,
            z: spec_div_floor(voxel.z as int, size).1 as i32,
        },
    )
}

pub open spec fn split_defined(voxel: IVec3, size: i32) -> bool {
    &&& div_floor_defined(voxel.x, size)
    &&& div_floor_defined(voxel.y, size)
    &&& div_floor_defined(voxel.z, size)
}

/// Every coordinate of `v` lies in `0..size`.
pub open spec fn in_cube(v: IVec3, size: int) -> bool {
    &&& 0 <= v.x < size
    &&& 0 <= v.y < size
    &&& 0 <= v.z < size
}

/// `cell * size + local`, per axis, in mathematical integers.
pub open spec fn recombine(cell: IVec3, local: IVec3, size: int) -> (int, int, int) {
    (cell.x * size + local.x, cell.y * size + local.y, cell.z * size + local.z)
}

/// Splits a world voxel coordinate into its chunk coordinate and the voxel's
/// coordinate inside that chunk.
pub fn chunk_local_from_voxel(voxel: VoxelCoord, chunk_size: i32) -> (r: (IVec3, IVec3))
    requires
        split_defined(voxel, chunk_size),
    ensures
        r == spec_split(voxel, chunk_size as int),
        chunk_size > 0 ==> in_cube(r.1, chunk_size as int) && recombine(r.0, r.1, chunk_size as int)
            == (voxel.x as int, voxel.y as int, voxel.z as int),
{
    let (cx, lx) = div_floor(voxel.x, chunk_size);
    let (cy, ly) = div_floor(voxel.y, chunk_size);
    let (cz, lz) = div_floor(voxel.z, chunk_size);
    (IVec3::new(cx, cy, cz), IVec3::new(lx, ly, lz))
}

/// Splits a chunk-local voxel coordinate into its brick coordinate and the
/// voxel's coordinate inside that brick.
pub fn brick_local_from_voxel(local_voxel: IVec3, brick_size: i32) -> (r: (IVec3, IVec3))
    requires
        split_defined(local_voxel, brick_size),
    ensures
        r == spec_split(local_voxel, brick_size as int),
        brick_size > 0 ==> in_cube(r.1, brick_size as int) && recombine(r.0, r.1, brick_size as int)
            == (local_voxel.x as int, local_voxel.y as int, local_voxel.z as int),
{
    let (bx, ix) = div_floor(local_voxel.x, brick_size);
    let (by, iy) = div_floor(local_voxel.y, brick_size);
    let (bz, iz) = div_floor(local_voxel.z, brick_size);
    (IVec3::new(bx, by, bz), IVec3::new(ix, iy, iz))
}

/// The hash-map key of a coordinate: the three coordinates, each moved up
/// by 2^31, side by side in one 96-bit number.
pub open spec fn spec_coord_key(c: IVec3) -> u128 {
    ((c.x + 0x8000_0000) * 0x1_0000_0000_0000_0000 + (c.y + 0x8000_0000) * 0x1_0000_0000 + (c.z
        + 0x8000_0000)) as u128
}

/// The key under which maps of this crate store coordinate `c`.
pub fn coord_key(c: IVec3) -> (k: u128)
    ensures
        k == spec_coord_key(c),
{
    let x = (c.x as i64 + 0x8000_0000) as u128;
    let y = (c.y as i64 + 0x8000_0000) as u128;
    let z = (c.z as i64 + 0x8000_0000) as u128;
    x * 0x1_0000_0000_0000_0000 + y * 0x1_0000_0000 + z
}

/// Distinct coordinates have distinct keys.
pub proof fn lemma_coord_key_injective(a: IVec3, b: IVec3)
    requires
        spec_coord_key(a) == spec_coord_key(b),
    ensures
        a == b,
{
    let ax = a.x + 0x8000_0000;
    let ay = a.y + 0x8000_0000;
    let az = a.z + 0x8000_0000;
    let bx = b.x + 0x8000_0000;
    let by = b.y + 0x8000_0000;
    let bz = b.z + 0x8000_0000;
    assert(ax * 0x1_0000_0000_0000_0000 + ay * 0x1_0000_0000 + az == bx * 0x1_0000_0000_0000_0000 + by
        * 0x1_0000_0000 + bz);
    assert(ax == bx && ay == by && az == bz) by (nonlinear_arith)
        requires
            ax * 0x1_0000_0000_0000_0000 + ay * 0x1_0000_0000 + az == bx * 0x1_0000_0000_0000_0000
                + by * 0x1_0000_0000 + bz,
            0 <= ax < 0x1_0000_0000,
            0 <= ay < 0x1_0000_0000,
            0 <= az < 0x1_0000_0000,
            0 <= bx < 0x1_0000_0000,
            0 <= by < 0x1_0000_0000,
            0 <= bz < 0x1_0000_0000,
    ;
}

/// The coordinate that key `k` stands for.
pub open spec fn spec_key_coord(k: u128) -> IVec3 {
    IVec3 {
        x: (k / 0x1_0000_0000_0000_0000 - 0x8000_0000) as i32,
        y: ((k / 0x1_0000_0000) % 0x1_0000_0000 - 0x8000_0000) as i32,
        z: (k % 0x1_0000_0000 - 0x8000_0000) as i32,
    }
}

/// A key read back gives the coordinate it was made from.
pub proof fn lemma_key_coord(c: IVec3)
    ensures
        spec_key_coord(spec_coord_key(c)) == c,
{
    let ax = c.x + 0x8000_0000;
    let ay = c.y + 0x8000_0000;
    let az = c.z + 0x8000_0000;
    let k = spec_coord_key(c) as int;
    assert(k == ax * 0x1_0000_0000_0000_0000 + ay * 0x1_0000_0000 + az);
    vstd::arithmetic::div_mod::lemma_fundamental_div_mod_converse(
        k,
        0x1_0000_0000_0000_0000,
        ax,
        ay * 0x1_0000_0000 + az,
    );
    vstd::arithmetic::div_mod::lemma_fundamental_div_mod_converse(k, 0x1_0000_0000, ax * 0x1_0000_0000 + ay, az);
    vstd::arithmetic::div_mod::lemma_fundamental_div_mod_converse(ax * 0x1_0000_0000 + ay, 0x1_0000_0000, ax, ay);
}

/// The coordinate that a key made by `coord_key` stands for.
pub fn key_coord(k: u128) -> (c: IVec3)
    requires
        k == spec_coord_key(spec_key_coord(k)),
    ensures
        c == spec_key_coord(k),
{
    proof {
        lemma_key_coord(spec_key_coord(k));
    }
    let x = ((k / 0x1_0000_0000_0000_0000) as i64 - 0x8000_0000) as i32;
    let y = (((k / 0x1_0000_0000) % 0x1_0000_0000) as i64 - 0x8000_0000) as i32;
    let z = ((k % 0x1_0000_0000) as i64 - 0x8000_0000) as i32;
    IVec3 { x, y, z }
}

} // verus!
