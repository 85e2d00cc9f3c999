//! A dense three-dimensional grid of voxels, kept in one run-length-encoded
//! array.

use vstd::prelude::*;
use crate::rle_array::{RLEArray, OUT_OF_RANGE};
use crate::text::{displayed, line_text};
use crate::runs::repeat;

verus! {

/// Three unsigned components: the size of a grid, or a place in it.
#[derive(Clone, Copy, Debug)]
pub struct UVector3 {
    pub x: usize,
    pub y: usize,
    pub z: usize,
}

impl UVector3 {
    /// The vector with these components.
    pub fn new(x: usize, y: usize, z: usize) -> (v: UVector3)
        ensures
            v.x == x,
            v.y == y,
            v.z == z,
    {
        UVector3 { x, y, z }
    }
}

/// The number of voxels in a grid of this size.
pub open spec fn volume(size: UVector3) -> nat {
    (size.x * size.y * size.z) as nat
}

/// Whether `(x, y, z)` lies in a grid of this size.
pub open spec fn inside(size: UVector3, x: usize, y: usize, z: usize) -> bool {
    x < size.x && y < size.y && z < size.z
}

/// The place of voxel `(x, y, z)` in the flat sequence: `x` runs fastest, then
/// `y`, then `z`. Every read and every write goes by this one formula.
pub open spec fn flat_index(size: UVector3, x: usize, y: usize, z: usize) -> int {
    x + y * size.x + z * size.x * size.y
}

/// Inside the grid, the flat index lies below the volume.
pub proof fn lemma_flat_index_bound(size: UVector3, x: usize, y: usize, z: usize)
    requires
        inside(size, x, y, z),
    ensures
        0 <= flat_index(size, x, y, z) < volume(size),
        y * size.x <= flat_index(size, x, y, z),
        z * size.x <= z * size.x * size.y <= flat_index(size, x, y, z),
{
    let (sx, sy, sz) = (size.x as int, size.y as int, size.z as int);
    let (a, b, c) = (x as int, y as int, z as int);
    assert(a + b * sx + c * sx * sy < sx * sy * sz && c * sx <= c * sx * sy && 0 <= b * sx && 0
        <= c * sx) by (nonlinear_arith)
        requires
            0 <= a < sx,
            0 <= b < sy,
            0 <= c < sz,
    ;
}

/// Inside the grid, two places with one flat index are one place.
pub proof fn lemma_flat_index_injective(
    size: UVector3,
    x: usize,
    y: usize,
    z: usize,
    a: usize,
    b: usize,
    c: usize,
)
    requires
        inside(size, x, y, z),
        inside(size, a, b, c),
        flat_index(size, x, y, z) == flat_index(size, a, b, c),
    ensures
        x == a,
        y == b,
        z == c,
{
    let (sx, sy) = (size.x as int, size.y as int);
    let p = y + z * sy;
    let q = b + c * sy;
    assert(x + y * sx + z * sx * sy == x + sx * p) by (nonlinear_arith)
        requires
            p == y + z * sy,
    ;
    assert(a + b * sx + c * sx * sy == a + sx * q) by (nonlinear_arith)
        requires
            q == b + c * sy,
    ;
    assert(p == q && x == a) by (nonlinear_arith)
        requires
            x + sx * p == a + sx * q,
            0 <= x < sx,
            0 <= a < sx,
    ;
    assert(z == c && y == b) by (nonlinear_arith)
        requires
            y + z * sy == b + c * sy,
            0 <= y < sy,
            0 <= b < sy,
    ;
}

/// A grid of `size.x * size.y * size.z` voxels.
pub struct VoxelGrid {
    /// The extent of the grid along each axis.
    pub size: UVector3,
    /// The voxels, flattened by `flat_index`.
    pub voxels: RLEArray<u8>,
}

impl VoxelGrid {
    /// The array is sound and holds one element for each voxel.
    pub open spec fn wf(&self) -> bool {
        &&& self.voxels.wf()
        &&& self.voxels@.len() == volume(self.size)
        &&& volume(self.size) <= usize::MAX
    }

    /// The voxel at `(x, y, z)`.
    pub open spec fn voxel(&self, x: usize, y: usize, z: usize) -> u8 {
        self.voxels@[flat_index(self.size, x, y, z)]
    }

    /// A grid of this size with every voxel 0.
    pub fn new(size: UVector3) -> (grid: VoxelGrid)
        requires
            volume(size) <= usize::MAX,
        ensures
            grid.wf(),
            grid.size == size,
            grid.voxels@ == repeat(0u8, volume(size)),
            forall|x: usize, y: usize, z: usize|
                inside(size, x, y, z) ==> #[trigger] grid.voxel(x, y, z) == 0,
    {
        let capacity: usize = if size.x == 0 || size.y == 0 || size.z == 0 {
            assert(size.x * size.y * size.z == 0) by (nonlinear_arith)
                requires
                    size.x == 0 || size.y == 0 || size.z == 0,
            ;
            0
        } else {
            assert(size.x * size.y <= size.x * size.y * size.z) by (nonlinear_arith)
                requires
                    size.x >= 1,
                    size.y >= 1,
                    size.z >= 1,
            ;
            size.x * size.y * size.z
        };
        let grid = VoxelGrid { size, voxels: RLEArray::with_capacity(0, capacity) };
        assert forall|x: usize, y: usize, z: usize| inside(size, x, y, z) implies #[trigger] grid.voxel(
            x,
            y,
            z,
        ) == 0 by {
            lemma_flat_index_bound(size, x, y, z);
        }
        grid
    }

    /// The number of voxels.
    pub fn len(&self) -> (n: usize)
        requires
            self.wf(),
        ensures
            n == volume(self.size),
    {
        self.voxels.len()
    }

    /// The flat index of a voxel inside the grid.
    fn index_of(&self, x: usize, y: usize, z: usize) -> (idx: usize)
        requires
            self.wf(),
            inside(self.size, x, y, z),
        ensures
            idx == flat_index(self.size, x, y, z),
            idx < self.voxels@.len(),
    {
        proof {
            lemma_flat_index_bound(self.size, x, y, z);
        }
        x + y * self.size.x + z * self.size.x * self.size.y
    }

    /// The voxel at `(x, y, z)`, or the array's error where the place lies
    /// outside the grid.
    pub fn get(&self, x: usize, y: usize, z: usize) -> (result: Result<u8, &'static str>)
        requires
            self.wf(),
        ensures
            inside(self.size, x, y, z) ==> result == Ok::<u8, &'static str>(self.voxel(x, y, z)),
            !inside(self.size, x, y, z) ==> result == Err::<u8, &'static str>(OUT_OF_RANGE),
    {
        if x >= self.size.x || y >= self.size.y || z >= self.size.z {
            return Err(OUT_OF_RANGE);
        }
        let idx = self.index_of(x, y, z);
        self.voxels.get(idx)
    }

    /// Writes `value` to the voxel at `(x, y, z)` and leaves every other
    /// voxel as it was; outside the grid nothing changes and the array's
    /// error comes back.
    pub fn set(&mut self, x: usize, y: usize, z: usize, value: u8) -> (result: Result<
        (),
        &'static str,
    >)
        requires
            old(self).wf(),
        ensures
            final(self).wf(),
            final(self).size == old(self).size,
            inside(old(self).size, x, y, z) ==> {
                &&& result is Ok
                &&& final(self).voxels@ == old(self).voxels@.update(
                    flat_index(old(self).size, x, y, z),
                    value,
                )
                &&& final(self).voxel(x, y, z) == value
                &&& forall|a: usize, b: usize, c: usize|
                    inside(old(self).size, a, b, c) && (a != x || b != y || c != z)
                        ==> #[trigger] final(self).voxel(a, b, c) == old(self).voxel(a, b, c)
            },
            !inside(old(self).size, x, y, z) ==> {
                &&& result == Err::<(), &'static str>(OUT_OF_RANGE)
                &&& final(self).voxels.data@ == old(self).voxels.data@
            },
    {
        broadcast use vstd::laws_eq::group_laws_eq;

        if x >= self.size.x || y >= self.size.y || z >= self.size.z {
            return Err(OUT_OF_RANGE);
        }
        let idx = self.index_of(x, y, z);
        let result = self.voxels.set(value, idx);
        proof {
            let size = self.size;
            assert forall|a: usize, b: usize, c: usize|
                inside(size, a, b, c) && (a != x || b != y || c != z) implies #[trigger] self.voxel(
                a,
                b,
                c,
            ) == old(self).voxel(a, b, c) by {
                lemma_flat_index_bound(size, a, b, c);
                if flat_index(size, a, b, c) == flat_index(size, x, y, z) {
                    lemma_flat_index_injective(size, x, y, z, a, b, c);
                }
            }
        }
        result
    }

    /// The diagnostic line of the voxel array.
    pub fn get_pretty_string(&self) -> (line: String)
        ensures
            exists|texts: Seq<String>|
                #[trigger] displayed(self.voxels.data@, texts) && line@ == line_text(
                    self.voxels.data@,
                    texts,
                ),
    {
        self.voxels.get_pretty_string()
    }
}

} // verus!
