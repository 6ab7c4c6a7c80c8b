use vstd::prelude::*;
use crate::svo::chunk::CHUNK_SIZE;
use crate::svo::coords::IVec3;
use crate::svo::world::{World, density_at, material_at};

verus! {

/// Voxels in a chunk (`CHUNK_SIZE` cubed).
pub const CHUNK_VOLUME: usize = 262144;

/// The material of each voxel of one chunk, ready to be copied to the GPU.
pub struct ChunkManager {
    data: Vec<u32>,
}

/// The voxel at flat index `t` (x fastest, then y, then z) of the chunk at
/// chunk coordinate `c`.
pub open spec fn snapshot_voxel(c: IVec3, t: int) -> IVec3 {
    IVec3 { x: (c.x * 64 + t % 64) as i32, y: (c.y * 64 + (t / 64) % 64) as i32, z: (c.z * 64 + t / 4096) as i32 }
}

/// The value stored for voxel `v`: its material where it is solid, else 0.
pub open spec fn snapshot_value(w: World, v: IVec3) -> u32 {
    if density_at(w, v) >= 0 { material_at(w, v) as u32 } else { 0 }
}

/// Whether the chunk at chunk coordinate `c` lies within `i32` voxel coordinates.
pub open spec fn chunk_coord_ok(c: IVec3) -> bool {
    &&& i32::MIN <= c.x * 64 && c.x * 64 + 63 <= i32::MAX
    &&& i32::MIN <= c.y * 64 && c.y * 64 + 63 <= i32::MAX
    &&& i32::MIN <= c.z * 64 && c.z * 64 + 63 <= i32::MAX
}

impl ChunkManager {
    /// The stored values.
    pub closed spec fn data_view(&self) -> Seq<u32> {
        self.data@
    }

    /// A manager whose chunk is all zero.
    pub fn new() -> (m: Self)
        ensures
            m.data_view() == Seq::new(CHUNK_VOLUME as nat, |i: int| 0u32),
    {
        let data = vec![0u32; CHUNK_VOLUME];
        proof {
            assert(data@ =~= Seq::new(CHUNK_VOLUME as nat, |i: int| 0u32));
        }
        Self { data }
    }

    /// The values to upload, one per voxel of the chunk.
    pub fn data(&self) -> (d: &[u32])
        ensures
            d@ == self.data_view(),
    {
        self.data.as_slice()
    }

    /// Reads the chunk at chunk coordinate `chunk_coord` out of `world`: each
    /// voxel's material where it is solid, else 0, x running fastest.
    pub fn update_from_world(&mut self, world: &World, chunk_coord: IVec3)
        requires
            world.wf(),
            old(self).data_view().len() == CHUNK_VOLUME,
            chunk_coord_ok(chunk_coord),
        ensures
            final(self).data_view().len() == CHUNK_VOLUME,
            forall|t: int| 0 <= t < CHUNK_VOLUME ==> #[trigger] final(self).data_view()[t] == snapshot_value(*world, snapshot_voxel(chunk_coord, t)),
    {
        let origin = IVec3::new(chunk_coord.x * CHUNK_SIZE, chunk_coord.y * CHUNK_SIZE, chunk_coord.z * CHUNK_SIZE);
        let size = CHUNK_SIZE as usize;
        let mut z: usize = 0;
        while z < size
            invariant
                size == 64,
                z <= 64,
                world.wf(),
                chunk_coord_ok(chunk_coord),
                origin == (IVec3 { x: (chunk_coord.x * 64) as i32, y: (chunk_coord.y * 64) as i32, z: (chunk_coord.z * 64) as i32 }),
                self.data@.len() == CHUNK_VOLUME,
                forall|t: int| 0 <= t < 4096 * z ==> #[trigger] self.data@[t] == snapshot_value(*world, snapshot_voxel(chunk_coord, t)),
            decreases 64 - z,
        {
            let mut y: usize = 0;
            while y < size
                invariant
                    size == 64,
                    z < 64,
                    y <= 64,
                    world.wf(),
                    chunk_coord_ok(chunk_coord),
                    origin == (IVec3 { x: (chunk_coord.x * 64) as i32, y: (chunk_coord.y * 64) as i32, z: (chunk_coord.z * 64) as i32 }),
                    self.data@.len() == CHUNK_VOLUME,
                    forall|t: int| 0 <= t < 4096 * z + 64 * y ==> #[trigger] self.data@[t] == snapshot_value(*world, snapshot_voxel(chunk_coord, t)),
                decreases 64 - y,
            {
                let mut x: usize = 0;
                while x < size
                    invariant
                        size == 64,
                        z < 64,
                        y < 64,
                        x <= 64,
                        world.wf(),
                        chunk_coord_ok(chunk_coord),
                        origin == (IVec3 { x: (chunk_coord.x * 64) as i32, y: (chunk_coord.y * 64) as i32, z: (chunk_coord.z * 64) as i32 }),
                        self.data@.len() == CHUNK_VOLUME,
                        forall|t: int| 0 <= t < 4096 * z + 64 * y + x ==> #[trigger] self.data@[t] == snapshot_value(*world, snapshot_voxel(chunk_coord, t)),
                    decreases 64 - x,
                {
                    let voxel = IVec3::new(origin.x + x as i32, origin.y + y as i32, origin.z + z as i32);
                    let idx = x + size * (y + size * z);
                    assert(voxel == snapshot_voxel(chunk_coord, idx as int));
                    let density = world.sample_density(voxel);
                    let material = if density >= 0 {
                        world.sample_material(voxel)
                    } else {
                        0
                    };
                    self.data.set(idx, material as u32);
                    x += 1;
                }
                y += 1;
            }
            z += 1;
        }
    }
}

} // verus!
