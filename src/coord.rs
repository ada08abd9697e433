//! Coordinate transform: splitting each signed world axis into a chunk axis
//! (Euclidean quotient) and an in-chunk axis (Euclidean remainder).
use vstd::prelude::*;

verus! {

/// Number of blocks along each side of a chunk.
pub const CHUNK_WIDTH: usize = 32;

/// Number of blocks in one horizontal layer of a chunk.
pub const CHUNK_AREA: usize = CHUNK_WIDTH * CHUNK_WIDTH;

/// Number of blocks in a chunk.
pub const CHUNK_VOLUME: usize = CHUNK_AREA * CHUNK_WIDTH;

/// Quotient `q` of the Euclidean division of `x` by `d`: the unique `q` with
/// `x == q * d + r` and `0 <= r < |d|`. (Verus's `/` on `int` is Euclidean.)
pub open spec fn euclid_div(x: int, d: int) -> int {
    x / d
}

/// Remainder of the Euclidean division of `x` by `d`, always in `[0, |d|)`.
pub open spec fn euclid_rem(x: int, d: int) -> int {
    x % d
}

/// For a positive `d`, any `q`, `r` with `x == q * d + r` and `0 <= r < d`
/// are the Euclidean quotient and remainder.
proof fn lemma_euclid_unique(x: int, d: int, q: int, r: int)
    requires
        d > 0,
        0 <= r < d,
        x == q * d + r,
    ensures
        euclid_div(x, d) == q,
        euclid_rem(x, d) == r,
{
    let q0 = x / d;
    let r0 = x % d;
    assert(x == q0 * d + r0 && 0 <= r0 < d) by (nonlinear_arith)
        requires
            d > 0,
            q0 == x / d,
            r0 == x % d,
    ;
    assert(q == q0) by (nonlinear_arith)
        requires
            d > 0,
            0 <= r < d,
            0 <= r0 < d,
            q * d + r == q0 * d + r0,
    ;
}

/// Quotient of Rust's `/` on signed integers by a positive divisor, which
/// truncates towards zero.
pub open spec fn trunc_div(x: int, d: int) -> int {
    if x >= 0 { x / d } else { -((-x) / d) }
}

/// Remainder of Rust's `%` on signed integers: it takes the sign of `x`.
pub open spec fn trunc_rem(x: int, d: int) -> int {
    if x >= 0 { x % d } else { -((-x) % d) }
}

/// For a positive divisor, Rust's truncating quotient and remainder recompose
/// `x`, and the remainder lies strictly between `-d` and `d`.
proof fn lemma_truncating_parts(x: int, d: int)
    requires
        d > 0,
    ensures
        x == trunc_div(x, d) * d + trunc_rem(x, d),
        x < 0 ==> -d < trunc_rem(x, d) <= 0,
        x >= 0 ==> 0 <= trunc_rem(x, d) < d,
{
    let y = if x >= 0 { x } else { -x };
    let q0 = y / d;
    let r0 = y % d;
    assert(y == q0 * d + r0 && 0 <= r0 < d) by (nonlinear_arith)
        requires
            d > 0,
            q0 == y / d,
            r0 == y % d,
    ;
    if x < 0 {
        assert(x == (-q0) * d + (-r0)) by (nonlinear_arith)
            requires
                y == q0 * d + r0,
                x == -y,
        ;
    }
}

/// Euclidean division of `x` by a positive `rhs`: rounds towards negative
/// infinity, so that the remainder is never negative.
pub fn div_euc(x: i64, rhs: i64) -> (q: i64)
    requires
        rhs > 0,
    ensures
        q == euclid_div(x as int, rhs as int),
{
    let q = x / rhs;
    let t = x % rhs;
    proof {
        assert(q == trunc_div(x as int, rhs as int));
        assert(t == trunc_rem(x as int, rhs as int));
        lemma_truncating_parts(x as int, rhs as int);
    }
    if t < 0 {
        proof {
            assert(x == (q - 1) * rhs + (t + rhs)) by (nonlinear_arith)
                requires
                    x == q * rhs + t,
            ;
            lemma_euclid_unique(x as int, rhs as int, q - 1, t + rhs);
            assert(q > i64::MIN) by (nonlinear_arith)
                requires
                    q * rhs == x - t,
                    rhs >= 2,
                    x - t > i64::MIN,
            ;
        }
        return q - 1;
    }
    proof {
        lemma_euclid_unique(x as int, rhs as int, q as int, t as int);
    }
    q
}

/// Euclidean remainder of `x` by a positive `rhs`, in `[0, rhs)`.
pub fn mod_euc(x: i64, rhs: i64) -> (r: i64)
    requires
        rhs > 0,
    ensures
        r == euclid_rem(x as int, rhs as int),
{
    let r = x % rhs;
    proof {
        assert(r == trunc_rem(x as int, rhs as int));
        lemma_truncating_parts(x as int, rhs as int);
    }
    let ghost q = trunc_div(x as int, rhs as int);
    if r < 0 {
        proof {
            assert(x == (q - 1) * rhs + (r + rhs)) by (nonlinear_arith)
                requires
                    x == q * rhs + r,
            ;
            lemma_euclid_unique(x as int, rhs as int, q - 1, r + rhs);
        }
        return r + rhs;
    }
    proof {
        lemma_euclid_unique(x as int, rhs as int, q, r as int);
    }
    r
}

/// Chunk axis value of the world axis value `a`.
pub open spec fn chunk_axis(a: int) -> int {
    euclid_div(a, CHUNK_WIDTH as int)
}

/// Position along the axis inside its chunk, in `[0, CHUNK_WIDTH)`.
pub open spec fn in_chunk_axis(a: int) -> int {
    euclid_rem(a, CHUNK_WIDTH as int)
}

/// Offset of an in-chunk position in a chunk's block array: `x` varies
/// fastest, then `y`, then `z`.
pub open spec fn flat_offset(x: int, y: int, z: int) -> int {
    x + y * CHUNK_WIDTH as int + z * CHUNK_AREA as int
}

/// Splitting an axis value by a positive width `w` and putting the parts back
/// together gives the value again, and the in-chunk part lies in `[0, w)`.
pub proof fn lemma_axis_round_trip(a: int, w: int)
    requires
        w > 0,
    ensures
        euclid_div(a, w) * w + euclid_rem(a, w) == a,
        0 <= euclid_rem(a, w) < w,
{
    let q = a / w;
    let r = a % w;
    assert(a == q * w + r && 0 <= r < w) by (nonlinear_arith)
        requires
            w > 0,
            q == a / w,
            r == a % w,
    ;
}

/// Flattening in-chunk positions is injective and lands inside the block
/// array.
pub proof fn lemma_flatten_bijective(x1: int, y1: int, z1: int, x2: int, y2: int, z2: int)
    requires
        0 <= x1 < CHUNK_WIDTH,
        0 <= y1 < CHUNK_WIDTH,
        0 <= z1 < CHUNK_WIDTH,
        0 <= x2 < CHUNK_WIDTH,
        0 <= y2 < CHUNK_WIDTH,
        0 <= z2 < CHUNK_WIDTH,
    ensures
        0 <= flat_offset(x1, y1, z1) < CHUNK_VOLUME,
        flat_offset(x1, y1, z1) == flat_offset(x2, y2, z2) ==> x1 == x2 && y1 == y2 && z1 == z2,
{
    if flat_offset(x1, y1, z1) == flat_offset(x2, y2, z2) {
        let d = (y1 - y2) + (z1 - z2) * 32;
        assert(d == 0) by (nonlinear_arith)
            requires
                (x1 - x2) + d * 32 == 0,
                -32 < x1 - x2 < 32,
        ;
        assert(z1 == z2) by (nonlinear_arith)
            requires
                (y1 - y2) + (z1 - z2) * 32 == 0,
                -32 < y1 - y2 < 32,
        ;
    }
}

/// A world-space position, or the coordinate of a chunk (a position divided
/// by the chunk width).
#[derive(Clone, Copy, Debug, PartialEq, Eq, Structural, Hash)]
pub struct Coordinate {
    pub x: i64,
    pub y: i64,
    pub z: i64,
}

/// Chunk axis value of `x`: its Euclidean quotient by the chunk width.
pub fn get_single_chunk_axis(x: i64) -> (r: i64)
    ensures
        r == chunk_axis(x as int),
{
    div_euc(x, CHUNK_WIDTH as i64)
}

/// Position of `x` inside its chunk: its Euclidean remainder by the chunk width.
pub fn get_single_chunk_index(x: i64) -> (r: usize)
    ensures
        r == in_chunk_axis(x as int),
        r < CHUNK_WIDTH,
{
    proof {
        lemma_axis_round_trip(x as int, CHUNK_WIDTH as int);
    }
    mod_euc(x, CHUNK_WIDTH as i64) as usize
}

impl Coordinate {
    /// Coordinate of the chunk that contains this position.
    pub open spec fn chunk_coord(self) -> Coordinate {
        Coordinate {
            x: chunk_axis(self.x as int) as i64,
            y: chunk_axis(self.y as int) as i64,
            z: chunk_axis(self.z as int) as i64,
        }
    }

    /// In-chunk position of this position, one value per axis.
    pub open spec fn index_in_chunk(self) -> (int, int, int) {
        (in_chunk_axis(self.x as int), in_chunk_axis(self.y as int), in_chunk_axis(self.z as int))
    }

    /// Offset of this position in the block array of its chunk.
    pub open spec fn offset_in_chunk(self) -> int {
        flat_offset(
            in_chunk_axis(self.x as int),
            in_chunk_axis(self.y as int),
            in_chunk_axis(self.z as int),
        )
    }

    pub fn get_chunk_coordinate(&self) -> (r: Coordinate)
        ensures
            r == self.chunk_coord(),
    {
        Coordinate {
            x: get_single_chunk_axis(self.x),
            y: get_single_chunk_axis(self.y),
            z: get_single_chunk_axis(self.z),
        }
    }

    pub fn get_chunk_index(&self) -> (r: ChunkIndex)
        ensures
            r@ == self.index_in_chunk(),
            r.offset() == self.offset_in_chunk(),
    {
        ChunkIndex {
            x: get_single_chunk_index(self.x),
            y: get_single_chunk_index(self.y),
            z: get_single_chunk_index(self.z),
        }
    }
}

/// A position inside a chunk; each component is below the chunk width.
#[derive(Clone, Copy, Debug, PartialEq, Eq, Structural, Hash)]
pub struct ChunkIndex {
    x: usize,
    y: usize,
    z: usize,
}

impl View for ChunkIndex {
    type V = (int, int, int);

    closed spec fn view(&self) -> (int, int, int) {
        (self.x as int, self.y as int, self.z as int)
    }
}

impl ChunkIndex {
    #[verifier::type_invariant]
    spec fn in_bounds(self) -> bool {
        &&& self.x < CHUNK_WIDTH
        &&& self.y < CHUNK_WIDTH
        &&& self.z < CHUNK_WIDTH
    }

    /// Offset of this position in a chunk's block array.
    pub open spec fn offset(self) -> int {
        flat_offset(self@.0, self@.1, self@.2)
    }

    pub fn x(&self) -> (r: usize)
        ensures
            r == self@.0,
            r < CHUNK_WIDTH,
    {
        proof {
            use_type_invariant(self);
        }
        self.x
    }

    pub fn y(&self) -> (r: usize)
        ensures
            r == self@.1,
            r < CHUNK_WIDTH,
    {
        proof {
            use_type_invariant(self);
        }
        self.y
    }

    pub fn z(&self) -> (r: usize)
        ensures
            r == self@.2,
            r < CHUNK_WIDTH,
    {
        proof {
            use_type_invariant(self);
        }
        self.z
    }

    pub fn to_array_index(&self) -> (r: usize)
        ensures
            r == self.offset(),
            r < CHUNK_VOLUME,
    {
        proof {
            use_type_invariant(self);
            lemma_flatten_bijective(
                self.x as int,
                self.y as int,
                self.z as int,
                self.x as int,
                self.y as int,
                self.z as int,
            );
        }
        self.x + self.y * CHUNK_WIDTH + self.z * CHUNK_AREA
    }
}

/// The chunk axis value of a 64-bit axis value fits in 64 bits.
proof fn lemma_chunk_axis_fits(a: int)
    requires
        i64::MIN <= a <= i64::MAX,
    ensures
        i64::MIN <= chunk_axis(a) <= i64::MAX,
{
    lemma_axis_round_trip(a, CHUNK_WIDTH as int);
    let q = chunk_axis(a);
    assert(i64::MIN <= q <= i64::MAX) by (nonlinear_arith)
        requires
            q * 32 + in_chunk_axis(a) == a,
            0 <= in_chunk_axis(a) < 32,
            i64::MIN <= a <= i64::MAX,
    ;
}

/// Two positions with the same chunk coordinate and the same offset in that
/// chunk are the same position.
pub proof fn lemma_decomposition_unique(a: Coordinate, b: Coordinate)
    requires
        a.chunk_coord() == b.chunk_coord(),
        a.offset_in_chunk() == b.offset_in_chunk(),
    ensures
        a == b,
{
    let w = CHUNK_WIDTH as int;
    lemma_axis_round_trip(a.x as int, w);
    lemma_axis_round_trip(a.y as int, w);
    lemma_axis_round_trip(a.z as int, w);
    lemma_axis_round_trip(b.x as int, w);
    lemma_axis_round_trip(b.y as int, w);
    lemma_axis_round_trip(b.z as int, w);
    lemma_chunk_axis_fits(a.x as int);
    lemma_chunk_axis_fits(a.y as int);
    lemma_chunk_axis_fits(a.z as int);
    lemma_chunk_axis_fits(b.x as int);
    lemma_chunk_axis_fits(b.y as int);
    lemma_chunk_axis_fits(b.z as int);
    let (ax, ay, az) = a.index_in_chunk();
    let (bx, by, bz) = b.index_in_chunk();
    lemma_flatten_bijective(ax, ay, az, bx, by, bz);
}

/// The offset of every position in its chunk lies inside the block array.
pub proof fn lemma_offset_in_chunk_bounds(pos: Coordinate)
    ensures
        0 <= pos.offset_in_chunk() < CHUNK_VOLUME,
{
    let w = CHUNK_WIDTH as int;
    lemma_axis_round_trip(pos.x as int, w);
    lemma_axis_round_trip(pos.y as int, w);
    lemma_axis_round_trip(pos.z as int, w);
    let (x, y, z) = pos.index_in_chunk();
    lemma_flatten_bijective(x, y, z, x, y, z);
}

} // verus!
