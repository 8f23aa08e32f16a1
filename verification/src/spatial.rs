//! Positions, columns, sections and regions.
//!
//! A world position is a [`BlockPos`]. It belongs to exactly one cubic
//! section ([`SectionCoord`]) of a [`ChunkShape`], found by floor division on
//! each axis, and sits at one [`LocalPos`] inside it, found by the Euclidean
//! remainder. Floor division, not truncation: column `(-1, -1)` owns block
//! `(-1, y, -1)`, and truncating division would hand it to column `(0, 0)`.

use vstd::prelude::*;
use vstd::arithmetic::div_mod::*;
use vstd::arithmetic::mul::*;

verus! {

/// Largest section edge a shape accepts, on any axis.
pub const MAX_SECTION_EDGE: u32 = 256;

/// The engine's default section edge.
pub const DEFAULT_SECTION_EDGE: u32 = 32;

/// The engine's default region extent, in columns per axis.
pub const DEFAULT_REGION_COLUMNS: u32 = 32;

/// Largest region extent a store accepts.
pub const MAX_REGION_COLUMNS: u32 = 65_536;

/// A block position in the world.
#[derive(Debug, Clone, Copy, PartialEq, Eq, Structural, Hash)]
pub struct BlockPos {
    /// East-west.
    pub x: i64,
    /// Vertical.
    pub y: i64,
    /// North-south.
    pub z: i64,
}

impl BlockPos {
    /// A position from its three coordinates.
    pub fn new(x: i64, y: i64, z: i64) -> (p: Self)
        ensures
            p.x == x,
            p.y == y,
            p.z == z,
    {
        BlockPos { x, y, z }
    }
}

/// A cell offset inside one section.
#[derive(Debug, Clone, Copy, PartialEq, Eq, Structural, Hash)]
pub struct LocalPos {
    /// Offset along x.
    pub x: u32,
    /// Offset along y.
    pub y: u32,
    /// Offset along z.
    pub z: u32,
}

impl LocalPos {
    /// An offset from its three coordinates.
    pub fn new(x: u32, y: u32, z: u32) -> (p: Self)
        ensures
            p.x == x,
            p.y == y,
            p.z == z,
    {
        LocalPos { x, y, z }
    }
}

/// A chunk column: one `(x, z)` footprint.
#[derive(Debug, Clone, Copy, PartialEq, Eq, Structural, Hash, PartialOrd, Ord)]
pub struct ChunkCoord {
    /// Column index along x.
    pub x: i64,
    /// Column index along z.
    pub z: i64,
}

impl ChunkCoord {
    /// A column from its two coordinates.
    pub fn new(x: i64, z: i64) -> (c: Self)
        ensures
            c.x == x,
            c.z == z,
    {
        ChunkCoord { x, z }
    }
}

/// Total order on columns: by `x`, then by `z`.
pub open spec fn coord_lt(a: ChunkCoord, b: ChunkCoord) -> bool {
    a.x < b.x || (a.x == b.x && a.z < b.z)
}

/// Whether `a` comes strictly before `b` in column order.
pub fn coord_less(a: ChunkCoord, b: ChunkCoord) -> (r: bool)
    ensures
        r == coord_lt(a, b),
{
    a.x < b.x || (a.x == b.x && a.z < b.z)
}

/// One cubic section of one column.
#[derive(Debug, Clone, Copy, PartialEq, Eq, Structural, Hash)]
pub struct SectionCoord {
    /// Column index along x.
    pub x: i64,
    /// Section index along y.
    pub y: i64,
    /// Column index along z.
    pub z: i64,
}

impl SectionCoord {
    /// A section address from its three coordinates.
    pub fn new(x: i64, y: i64, z: i64) -> (s: Self)
        ensures
            s.x == x,
            s.y == y,
            s.z == z,
    {
        SectionCoord { x, y, z }
    }

    /// The column this section belongs to.
    pub fn column(&self) -> (c: ChunkCoord)
        ensures
            c.x == self.x,
            c.z == self.z,
    {
        ChunkCoord { x: self.x, z: self.z }
    }
}

/// A region: a square block of columns stored together.
#[derive(Debug, Clone, Copy, PartialEq, Eq, Structural, Hash, PartialOrd, Ord)]
pub struct RegionCoord {
    /// Region index along x.
    pub x: i64,
    /// Region index along z.
    pub z: i64,
}

impl RegionCoord {
    /// A region from its two coordinates.
    pub fn new(x: i64, z: i64) -> (r: Self)
        ensures
            r.x == x,
            r.z == z,
    {
        RegionCoord { x, z }
    }
}

/// Why a spatial request was refused.
#[derive(Debug, Clone, Copy, PartialEq, Eq, Structural)]
pub enum SpatialError {
    /// A section edge is zero or larger than [`MAX_SECTION_EDGE`].
    EdgeOutOfRange {
        /// The offending edge.
        edge: u32,
    },
    /// A local position lies outside the section.
    LocalOutOfRange {
        /// The position asked for.
        local: LocalPos,
    },
    /// A region extent is zero or larger than [`MAX_REGION_COLUMNS`].
    RegionExtentOutOfRange {
        /// The offending extent.
        columns: u32,
    },
}

/// Floor division of a signed coordinate by a positive extent.
pub fn floor_div(value: i64, extent: u32) -> (q: i64)
    requires
        extent >= 1,
    ensures
        q == (value as int) / (extent as int),
        q * (extent as int) <= value,
        value < (q + 1) * (extent as int),
{
    proof {
        lemma_fundamental_div_mod(value as int, extent as int);
        lemma_mod_bound(value as int, extent as int);
        lemma_div_bounds(value as int, extent as int);
        lemma_mul_is_commutative(extent as int, (value as int) / (extent as int));
        lemma_mul_is_distributive_add_other_way(extent as int, (value as int) / (extent as int), 1);
    }
    match value.checked_div_euclid(extent as i64) {
        Some(q) => q,
        None => {
            assert(false);
            0
        },
    }
}

/// Euclidean remainder of a signed coordinate by a positive extent.
pub fn floor_mod(value: i64, extent: u32) -> (r: u32)
    requires
        extent >= 1,
    ensures
        r == (value as int) % (extent as int),
        r < extent,
{
    proof {
        lemma_mod_bound(value as int, extent as int);
    }
    match value.checked_rem_euclid(extent as i64) {
        Some(r) => r as u32,
        None => {
            assert(false);
            0
        },
    }
}

/// Bounds on Euclidean division by a positive divisor.
pub proof fn lemma_div_bounds(a: int, d: int)
    requires
        d >= 1,
    ensures
        a >= 0 ==> 0 <= a / d <= a,
        a < 0 ==> a <= a / d < 0,
{
    lemma_fundamental_div_mod(a, d);
    lemma_mod_bound(a, d);
    if a >= 0 {
        lemma_div_pos_is_pos(a, d);
        lemma_div_is_ordered_by_denominator(a, 1, d);
    } else {
        assert(a / d < 0) by {
            if a / d >= 0 {
                lemma_mul_nonnegative(d, a / d);
            }
        }
        let q = a / d;
        let r = a % d;
        assert(a <= q) by (nonlinear_arith)
            requires
                a == d * q + r,
                0 <= r < d,
                d >= 1,
                q < 0,
        {
            assert(d * (q + 1) <= q + 1);
        }
    }
}

/// The extent of one cubic section.
#[derive(Debug, Clone, Copy, PartialEq, Eq, Structural, Hash)]
pub struct ChunkShape {
    size_x: u32,
    size_y: u32,
    size_z: u32,
}

impl ChunkShape {
    /// Cells along x.
    pub closed spec fn sx(self) -> nat {
        self.size_x as nat
    }

    /// Cells along y.
    pub closed spec fn sy(self) -> nat {
        self.size_y as nat
    }

    /// Cells along z.
    pub closed spec fn sz(self) -> nat {
        self.size_z as nat
    }

    /// A shape is determined by its three edges.
    pub proof fn lemma_edges_determine(self, other: ChunkShape)
        requires
            self.sx() == other.sx(),
            self.sy() == other.sy(),
            self.sz() == other.sz(),
        ensures
            self == other,
    {
    }

    /// Every edge is between one and [`MAX_SECTION_EDGE`].
    pub open spec fn wf(self) -> bool {
        &&& 1 <= self.sx() <= MAX_SECTION_EDGE
        &&& 1 <= self.sy() <= MAX_SECTION_EDGE
        &&& 1 <= self.sz() <= MAX_SECTION_EDGE
    }

    /// Cells in one section.
    pub open spec fn spec_volume(self) -> nat {
        self.sx() * self.sy() * self.sz()
    }

    /// Whether a local position lies inside the section.
    pub open spec fn contains_local(self, local: LocalPos) -> bool {
        local.x < self.sx() && local.y < self.sy() && local.z < self.sz()
    }

    /// The cell index of a local position: x fastest, then z, then y.
    pub open spec fn spec_index(self, local: LocalPos) -> int {
        (local.y * self.sz() + local.z) * self.sx() + local.x
    }

    /// The section a block belongs to.
    pub open spec fn spec_section_of(self, p: BlockPos) -> SectionCoord {
        SectionCoord {
            x: ((p.x as int) / (self.sx() as int)) as i64,
            y: ((p.y as int) / (self.sy() as int)) as i64,
            z: ((p.z as int) / (self.sz() as int)) as i64,
        }
    }

    /// A block's offset inside its section.
    pub open spec fn spec_local_of(self, p: BlockPos) -> LocalPos {
        LocalPos {
            x: ((p.x as int) % (self.sx() as int)) as u32,
            y: ((p.y as int) % (self.sy() as int)) as u32,
            z: ((p.z as int) % (self.sz() as int)) as u32,
        }
    }

    /// The column a block belongs to.
    pub open spec fn spec_column_of(self, p: BlockPos) -> ChunkCoord {
        ChunkCoord { x: ((p.x as int) / (self.sx() as int)) as i64, z: ((p.z as int) / (self.sz() as int)) as i64 }
    }

    /// A shape with the given edges.
    pub fn new(size_x: u32, size_y: u32, size_z: u32) -> (r: Result<Self, SpatialError>)
        ensures
            r is Ok <==> (1 <= size_x <= MAX_SECTION_EDGE && 1 <= size_y <= MAX_SECTION_EDGE && 1
                <= size_z <= MAX_SECTION_EDGE),
            r matches Ok(s) ==> s.wf() && s.sx() == size_x && s.sy() == size_y && s.sz() == size_z,
            r matches Err(e) ==> e == (SpatialError::EdgeOutOfRange {
                edge: (if !(1 <= size_x <= MAX_SECTION_EDGE) {
                    size_x
                } else if !(1 <= size_y <= MAX_SECTION_EDGE) {
                    size_y
                } else {
                    size_z
                }),
            }),
    {
        if size_x == 0 || size_x > MAX_SECTION_EDGE {
            return Err(SpatialError::EdgeOutOfRange { edge: size_x });
        }
        if size_y == 0 || size_y > MAX_SECTION_EDGE {
            return Err(SpatialError::EdgeOutOfRange { edge: size_y });
        }
        if size_z == 0 || size_z > MAX_SECTION_EDGE {
            return Err(SpatialError::EdgeOutOfRange { edge: size_z });
        }
        Ok(ChunkShape { size_x, size_y, size_z })
    }

    /// The engine default: a 32-cell cube.
    pub fn cubic_default() -> (s: Self)
        ensures
            s.wf(),
            s.sx() == DEFAULT_SECTION_EDGE,
            s.sy() == DEFAULT_SECTION_EDGE,
            s.sz() == DEFAULT_SECTION_EDGE,
    {
        ChunkShape {
            size_x: DEFAULT_SECTION_EDGE,
            size_y: DEFAULT_SECTION_EDGE,
            size_z: DEFAULT_SECTION_EDGE,
        }
    }

    /// Cells along x.
    pub fn size_x(&self) -> (r: u32)
        ensures
            r == self.sx(),
    {
        self.size_x
    }

    /// Cells along y.
    pub fn size_y(&self) -> (r: u32)
        ensures
            r == self.sy(),
    {
        self.size_y
    }

    /// Cells along z.
    pub fn size_z(&self) -> (r: u32)
        ensures
            r == self.sz(),
    {
        self.size_z
    }

    /// Cells in one section.
    pub fn volume(&self) -> (v: usize)
        requires
            self.wf(),
        ensures
            v == self.spec_volume(),
            v <= MAX_SECTION_EDGE * MAX_SECTION_EDGE * MAX_SECTION_EDGE,
            v >= 1,
    {
        proof {
            lemma_volume_bounds(*self);
        }
        let xy = (self.size_x as usize) * (self.size_y as usize);
        xy * (self.size_z as usize)
    }

    /// The cell index of a local position, or why there is none.
    pub fn index_of(&self, local: LocalPos) -> (r: Result<usize, SpatialError>)
        requires
            self.wf(),
        ensures
            r is Ok <==> self.contains_local(local),
            r matches Ok(i) ==> i == self.spec_index(local) && i < self.spec_volume(),
            r matches Err(e) ==> e == (SpatialError::LocalOutOfRange { local }),
    {
        if local.x >= self.size_x || local.y >= self.size_y || local.z >= self.size_z {
            return Err(SpatialError::LocalOutOfRange { local });
        }
        proof {
            lemma_index_in_range(*self, local);
            let (x, y, z) = (local.x as int, local.y as int, local.z as int);
            let (sx, sz) = (self.sx() as int, self.sz() as int);
            assert(0 <= y * sz <= 256 * 256 && 0 <= (y * sz + z) * sx <= 256 * 256 * 256)
                by (nonlinear_arith)
                requires
                    0 <= x < sx <= 256,
                    0 <= y < 256,
                    0 <= z < sz <= 256,
                    1 <= sx,
            {
                assert(y * sz <= 256 * sz);
                assert(256 * sz <= 256 * 256);
                assert((y * sz + z) * sx <= (256 * 256) * sx);
            }
        }
        let i = ((local.y as usize) * (self.size_z as usize) + (local.z as usize)) * (
        self.size_x as usize) + (local.x as usize);
        Ok(i)
    }

    /// The section a block belongs to.
    pub fn section_of(&self, p: BlockPos) -> (s: SectionCoord)
        requires
            self.wf(),
        ensures
            s == self.spec_section_of(p),
    {
        SectionCoord {
            x: floor_div(p.x, self.size_x),
            y: floor_div(p.y, self.size_y),
            z: floor_div(p.z, self.size_z),
        }
    }

    /// A block's offset inside its section.
    pub fn local_of(&self, p: BlockPos) -> (l: LocalPos)
        requires
            self.wf(),
        ensures
            l == self.spec_local_of(p),
            self.contains_local(l),
    {
        LocalPos {
            x: floor_mod(p.x, self.size_x),
            y: floor_mod(p.y, self.size_y),
            z: floor_mod(p.z, self.size_z),
        }
    }

    /// The lowest-coordinate block of a section, when it is representable.
    pub fn section_origin(&self, s: SectionCoord) -> (r: Option<BlockPos>)
        requires
            self.wf(),
        ensures
            r is Some <==> (i64::MIN <= s.x * self.sx() <= i64::MAX && i64::MIN <= s.y * self.sy()
                <= i64::MAX && i64::MIN <= s.z * self.sz() <= i64::MAX),
            r matches Some(p) ==> p.x == s.x * self.sx() && p.y == s.y * self.sy() && p.z == s.z
                * self.sz(),
    {
        let x = s.x.checked_mul(self.size_x as i64);
        let y = s.y.checked_mul(self.size_y as i64);
        let z = s.z.checked_mul(self.size_z as i64);
        match (x, y, z) {
            (Some(x), Some(y), Some(z)) => Some(BlockPos { x, y, z }),
            _ => None,
        }
    }
}

/// The volume of a well-formed shape is positive and bounded.
pub proof fn lemma_volume_bounds(s: ChunkShape)
    requires
        s.wf(),
    ensures
        1 <= s.spec_volume() <= MAX_SECTION_EDGE * MAX_SECTION_EDGE * MAX_SECTION_EDGE,
        1 <= s.sx() * s.sy() <= MAX_SECTION_EDGE * MAX_SECTION_EDGE,
{
    let (x, y, z) = (s.sx() as int, s.sy() as int, s.sz() as int);
    assert(1 <= x * y <= 256 * 256 && 1 <= x * y * z <= 256 * 256 * 256) by (nonlinear_arith)
        requires
            1 <= x <= 256,
            1 <= y <= 256,
            1 <= z <= 256,
    {
        assert(x * y <= 256 * y);
        assert(256 * y <= 256 * 256);
        assert(x * y * z <= (256 * 256) * z);
    }
}

/// The index of a position inside the section is inside the volume.
pub proof fn lemma_index_in_range(s: ChunkShape, l: LocalPos)
    requires
        s.wf(),
        s.contains_local(l),
    ensures
        0 <= s.spec_index(l) < s.spec_volume(),
{
    let (x, y, z) = (l.x as int, l.y as int, l.z as int);
    let (sx, sy, sz) = (s.sx() as int, s.sy() as int, s.sz() as int);
    assert(0 <= (y * sz + z) * sx + x < sx * sy * sz) by (nonlinear_arith)
        requires
            0 <= x < sx,
            0 <= y < sy,
            0 <= z < sz,
    {
        assert(y * sz + z <= (sy - 1) * sz + sz - 1);
        assert((y * sz + z) * sx <= (sy * sz - 1) * sx);
    }
}

/// The local position of cell `i`: x fastest, then z, then y.
pub open spec fn local_at(s: ChunkShape, i: int) -> LocalPos {
    LocalPos {
        x: (i % (s.sx() as int)) as u32,
        y: (i / ((s.sx() as int) * (s.sz() as int))) as u32,
        z: ((i / (s.sx() as int)) % (s.sz() as int)) as u32,
    }
}

/// Every cell of a section is the cell of one position inside it.
pub proof fn lemma_local_at(s: ChunkShape, i: int)
    requires
        s.wf(),
        0 <= i < s.spec_volume(),
    ensures
        s.contains_local(local_at(s, i)),
        s.spec_index(local_at(s, i)) == i,
{
    let sx = s.sx() as int;
    let sy = s.sy() as int;
    let sz = s.sz() as int;
    let q = i / sx;
    let x = i % sx;
    let z = q % sz;
    let y = q / sz;
    lemma_fundamental_div_mod(i, sx);
    lemma_fundamental_div_mod(q, sz);
    lemma_mod_bound(i, sx);
    lemma_mod_bound(q, sz);
    lemma_div_denominator(i, sx, sz);
    assert(i / (sx * sz) == y);
    assert(0 <= q) by {
        lemma_div_pos_is_pos(i, sx);
    }
    assert(0 <= y) by {
        lemma_div_pos_is_pos(q, sz);
    }
    assert(y < sy) by (nonlinear_arith)
        requires
            i == sx * q + x,
            q == sz * y + z,
            0 <= x < sx,
            0 <= z < sz,
            i < sx * sy * sz,
            0 <= y,
            sx >= 1,
            sz >= 1,
    ;
    assert((y * sz + z) * sx + x == i) by (nonlinear_arith)
        requires
            i == sx * q + x,
            q == sz * y + z,
    ;
}

/// Distinct positions inside a section have distinct indices.
pub proof fn lemma_index_injective(s: ChunkShape, a: LocalPos, b: LocalPos)
    requires
        s.wf(),
        s.contains_local(a),
        s.contains_local(b),
        s.spec_index(a) == s.spec_index(b),
    ensures
        a == b,
{
    let sx = s.sx() as int;
    let sz = s.sz() as int;
    let ra = a.y * sz + a.z;
    let rb = b.y * sz + b.z;
    assert(s.spec_index(a) == ra * sx + a.x);
    lemma_fundamental_div_mod_converse(s.spec_index(a), sx, ra, a.x as int);
    lemma_fundamental_div_mod_converse(s.spec_index(b), sx, rb, b.x as int);
    assert(a.x == b.x && ra == rb);
    lemma_fundamental_div_mod_converse(ra, sz, a.y as int, a.z as int);
    lemma_fundamental_div_mod_converse(rb, sz, b.y as int, b.z as int);
}

/// A block is determined by its section and its offset inside it.
pub proof fn lemma_locate_injective(s: ChunkShape, p: BlockPos, q: BlockPos)
    requires
        s.wf(),
        s.spec_section_of(p) == s.spec_section_of(q),
        s.spec_local_of(p) == s.spec_local_of(q),
    ensures
        p == q,
{
    lemma_fundamental_div_mod(p.x as int, s.sx() as int);
    lemma_fundamental_div_mod(q.x as int, s.sx() as int);
    lemma_fundamental_div_mod(p.y as int, s.sy() as int);
    lemma_fundamental_div_mod(q.y as int, s.sy() as int);
    lemma_fundamental_div_mod(p.z as int, s.sz() as int);
    lemma_fundamental_div_mod(q.z as int, s.sz() as int);
    lemma_div_bounds(p.x as int, s.sx() as int);
    lemma_div_bounds(q.x as int, s.sx() as int);
    lemma_div_bounds(p.y as int, s.sy() as int);
    lemma_div_bounds(q.y as int, s.sy() as int);
    lemma_div_bounds(p.z as int, s.sz() as int);
    lemma_div_bounds(q.z as int, s.sz() as int);
    lemma_mod_bound(p.x as int, s.sx() as int);
    lemma_mod_bound(q.x as int, s.sx() as int);
    lemma_mod_bound(p.y as int, s.sy() as int);
    lemma_mod_bound(q.y as int, s.sy() as int);
    lemma_mod_bound(p.z as int, s.sz() as int);
    lemma_mod_bound(q.z as int, s.sz() as int);
}

/// How many columns per axis one region covers.
#[derive(Debug, Clone, Copy, PartialEq, Eq, Structural, Hash)]
pub struct RegionShape {
    columns: u32,
}

impl RegionShape {
    /// Columns per axis.
    pub closed spec fn spec_columns(self) -> nat {
        self.columns as nat
    }

    /// The extent is between one and [`MAX_REGION_COLUMNS`].
    pub open spec fn wf(self) -> bool {
        1 <= self.spec_columns() <= MAX_REGION_COLUMNS
    }

    /// The region a column belongs to.
    pub open spec fn spec_region_of(self, c: ChunkCoord) -> RegionCoord {
        RegionCoord {
            x: ((c.x as int) / (self.spec_columns() as int)) as i64,
            z: ((c.z as int) / (self.spec_columns() as int)) as i64,
        }
    }

    /// A region extent of `columns` per axis.
    pub fn new(columns: u32) -> (r: Result<Self, SpatialError>)
        ensures
            r is Ok <==> 1 <= columns <= MAX_REGION_COLUMNS,
            r matches Ok(s) ==> s.wf() && s.spec_columns() == columns,
            r matches Err(e) ==> e == (SpatialError::RegionExtentOutOfRange { columns }),
    {
        if columns == 0 || columns > MAX_REGION_COLUMNS {
            return Err(SpatialError::RegionExtentOutOfRange { columns });
        }
        Ok(RegionShape { columns })
    }

    /// The engine default extent.
    pub fn default_shape() -> (s: Self)
        ensures
            s.wf(),
            s.spec_columns() == DEFAULT_REGION_COLUMNS,
    {
        RegionShape { columns: DEFAULT_REGION_COLUMNS }
    }

    /// Columns per axis.
    pub fn columns_per_axis(&self) -> (r: u32)
        ensures
            r == self.spec_columns(),
            self.wf(),
    {
        proof {
            use_type_invariant(self);
        }
        self.columns
    }

    /// Every extent is between one and the maximum.
    #[verifier::type_invariant]
    spec fn extent_in_range(self) -> bool {
        self.wf()
    }

    /// The region a column belongs to.
    pub fn region_of(&self, c: ChunkCoord) -> (r: RegionCoord)
        ensures
            self.wf(),
            r == self.spec_region_of(c),
    {
        proof {
            use_type_invariant(self);
        }
        RegionCoord { x: floor_div(c.x, self.columns), z: floor_div(c.z, self.columns) }
    }
}

} // verus!
