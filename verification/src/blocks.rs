use vstd::prelude::*;

verus! {

/// Eight booleans packed into one byte, bit `i` holding value `i`.
#[derive(Clone, Copy, Debug, PartialEq, Eq, Structural)]
pub struct DenseBools(pub u8);

/// Bit `i` of a packed byte.
pub open spec fn spec_bit(v: u8, i: int) -> bool {
    v & (1u8 << (i as u8)) != 0
}

/// The byte after one bit is written.
pub open spec fn spec_set_bit(v: u8, i: int, b: bool) -> u8 {
    if b {
        v | (1u8 << (i as u8))
    } else {
        v & !(1u8 << (i as u8))
    }
}

/// The byte whose low bits mirror a list of booleans.
pub open spec fn spec_pack(vals: Seq<bool>, n: int) -> u8
    decreases n,
{
    if n <= 0 {
        0u8
    } else {
        spec_pack(vals, n - 1) | (if vals[n - 1] {
            1u8 << ((n - 1) as u8)
        } else {
            0u8
        })
    }
}

impl DenseBools {
    pub fn new() -> (r: DenseBools)
        ensures
            r.0 == 0,
    {
        DenseBools(0)
    }

    /// Packs eight booleans, the first into the lowest bit.
    pub fn from8(vals: [bool; 8]) -> (r: DenseBools)
        ensures
            forall|i: int| 0 <= i < 8 ==> spec_bit(r.0, i) == vals[i],
    {
        let mut res: u8 = 0;
        let mut i: usize = 0;
        while i < 8
            invariant
                i <= 8,
                res == spec_pack(vals@, i as int),
            decreases 8 - i,
        {
            let add: u8 = if vals[i] {
                1u8 << (i as u8)
            } else {
                0u8
            };
            res = res | add;
            i = i + 1;
        }
        proof {
            lemma_pack_bits(vals@, 8, 8);
        }
        DenseBools(res)
    }

    /// Reads one packed boolean.
    pub fn get(&self, i: usize) -> (r: bool)
        requires
            i < 8,
        ensures
            r == spec_bit(self.0, i as int),
    {
        self.0 & (1u8 << (i as u8)) > 0u8
    }

    /// Writes one packed boolean, leaving the others as they were.
    pub fn set(&mut self, i: usize, state: bool)
        requires
            i < 8,
        ensures
            final(self).0 == spec_set_bit(old(self).0, i as int, state),
            spec_bit(final(self).0, i as int) == state,
            forall|j: int| 0 <= j < 8 && j != i ==> spec_bit(final(self).0, j) == spec_bit(
                old(self).0,
                j,
            ),
    {
        let s: u8 = (if state {
            1u8
        } else {
            0u8
        }) << (i as u8);
        let prev = self.0;
        self.0 = self.0 ^ ((self.0 & (1u8 << (i as u8))) ^ s);
        proof {
            let ii = i as u8;
            assert(0u8 << ii == 0u8) by (bit_vector);
            assert((prev ^ ((prev & (1u8 << ii)) ^ (1u8 << ii))) == prev | (1u8 << ii))
                by (bit_vector);
            assert((prev ^ ((prev & (1u8 << ii)) ^ 0u8)) == prev & !(1u8 << ii)) by (bit_vector);
            assert(ii < 8 ==> (prev ^ ((prev & (1u8 << ii)) ^ (1u8 << ii))) & (1u8 << ii) != 0)
                by (bit_vector);
            assert((prev ^ ((prev & (1u8 << ii)) ^ 0u8)) & (1u8 << ii) == 0) by (bit_vector);
            assert(forall|jj: u8|
                jj < 8 && ii < 8 && jj != ii ==> ((prev ^ ((prev & (1u8 << ii)) ^ (1u8 << ii))) & (
                1u8 << jj) == prev & (1u8 << jj)) && ((prev ^ ((prev & (1u8 << ii)) ^ 0u8)) & (1u8
                << jj) == prev & (1u8 << jj))) by (bit_vector);
            assert forall|j: int| 0 <= j < 8 && j != i implies spec_bit(self.0, j) == spec_bit(
                prev,
                j,
            ) by {
                assert(j as u8 != ii && (j as u8) < 8);
            }
        }
    }
}

proof fn lemma_pack_bits(vals: Seq<bool>, n: int, m: int)
    requires
        0 <= n <= m <= 8,
    ensures
        forall|i: int| 0 <= i < n ==> spec_bit(spec_pack(vals, n), i) == vals[i],
        forall|i: int| n <= i < 8 ==> !spec_bit(spec_pack(vals, n), i),
    decreases n,
{
    if n > 0 {
        lemma_pack_bits(vals, n - 1, m);
        let p = spec_pack(vals, n - 1);
        let nn = (n - 1) as u8;
        assert forall|i: int| 0 <= i < n implies spec_bit(spec_pack(vals, n), i) == vals[i] by {
            let ii = i as u8;
            if vals[n - 1] {
                assert(ii < 8 && nn < 8 ==> ((p | (1u8 << nn)) & (1u8 << ii) != 0) == ((p & (1u8
                    << ii) != 0) || ii == nn)) by (bit_vector);
                if i < n - 1 {
                    assert(ii != nn);
                }
            } else {
                assert((p | 0u8) == p) by (bit_vector);
            }
        }
        assert forall|i: int| n <= i < 8 implies !spec_bit(spec_pack(vals, n), i) by {
            let ii = i as u8;
            if vals[n - 1] {
                assert(ii < 8 && nn < 8 && ii != nn ==> ((p | (1u8 << nn)) & (1u8 << ii) != 0) == (
                p & (1u8 << ii) != 0)) by (bit_vector);
                assert(ii != nn);
                assert(!spec_bit(p, i));
            } else {
                assert((p | 0u8) == p) by (bit_vector);
                assert(!spec_bit(p, i));
            }
        }
    } else {
        assert forall|i: int| 0 <= i < 8 implies !spec_bit(0u8, i) by {
            let ii = i as u8;
            assert(ii < 8 ==> 0u8 & (1u8 << ii) == 0) by (bit_vector);
        }
    }
}

/// The six faces of a cube, named for the axis normal to each.
#[derive(Clone, Copy, Debug, PartialEq, Eq, Structural)]
pub enum BlockFace {
    PX,
    NX,
    PY,
    NY,
    PZ,
    NZ,
}

impl BlockFace {
    /// The face's index: the order the packed solidity bits use.
    pub open spec fn spec_index(self) -> int {
        match self {
            BlockFace::PX => 0,
            BlockFace::NX => 1,
            BlockFace::PY => 2,
            BlockFace::NY => 3,
            BlockFace::PZ => 4,
            BlockFace::NZ => 5,
        }
    }

    pub fn index(self) -> (r: usize)
        ensures
            r == self.spec_index(),
    {
        match self {
            BlockFace::PX => 0,
            BlockFace::NX => 1,
            BlockFace::PY => 2,
            BlockFace::NY => 3,
            BlockFace::PZ => 4,
            BlockFace::NZ => 5,
        }
    }

    /// The face at an index below six.
    pub fn from_index(i: usize) -> (r: BlockFace)
        requires
            i < 6,
        ensures
            r.spec_index() == i,
    {
        match i {
            0 => BlockFace::PX,
            1 => BlockFace::NX,
            2 => BlockFace::PY,
            3 => BlockFace::NY,
            4 => BlockFace::PZ,
            _ => BlockFace::NZ,
        }
    }
}

/// The game-wide description of one block kind.
#[derive(Debug)]
pub struct BlockData {
    pub model_id: usize,
    pub textures: Vec<u32>,
    pub name: String,
}

/// A world edit queued while its chunk is not yet loaded.
#[derive(Debug)]
pub enum WaitingAction {
    SetBlock(u8, i32, i32, i32),
    UpdateFaces(u8, i32, i32, i32),
}

/// Passport data of one texture series assembled into an atlas.
#[derive(Clone, Debug)]
pub struct TexData {
    pub name: String,
    pub textures_count: usize,
    pub normals_count: usize,
    pub lightmaps_count: usize,
    pub tex_id: u32,
    pub norm_id: u32,
    pub lgmp_id: u32,
}

/// The kinds of vertex attribute a model hands to the renderer.
#[derive(Clone, Copy, Debug, PartialEq, Eq, Structural)]
pub enum AttribType {
    Vec3,
    Vec2,
    Float,
    Basis,
    Int,
}

impl AttribType {
    /// The attribute's size in bytes: each component is four bytes wide.
    pub fn size(&self) -> (r: usize)
        ensures
            r == match self {
                AttribType::Vec3 => 12int,
                AttribType::Vec2 => 8int,
                AttribType::Float => 4int,
                AttribType::Basis => 36int,
                AttribType::Int => 4int,
            },
    {
        match self {
            AttribType::Vec3 => 4 * 3,
            AttribType::Vec2 => 4 * 2,
            AttribType::Float => 4,
            AttribType::Basis => 4 * 9,
            AttribType::Int => 4,
        }
    }

    pub fn is_int(&self) -> (r: bool)
        ensures
            r == (*self == AttribType::Int),
    {
        match self {
            AttribType::Int => true,
            _ => false,
        }
    }
}

/// Chunks are cubes of this many blocks to a side.
pub const CHUNK_SIZE: usize = 32;

/// One chunk of the world: for every position, a block kind and the packed
/// record of which of its faces other blocks cover.
#[derive(Debug)]
pub struct Chunk {
    pub x: i32,
    pub y: i32,
    pub z: i32,
    changed: bool,
    blocks_count: usize,
    data: Vec<(u8, DenseBools)>,
}

impl Chunk {
    /// The slot a position within the chunk maps to.
    pub open spec fn spec_pos_id(x: int, y: int, z: int) -> int {
        z * (CHUNK_SIZE * CHUNK_SIZE) + y * CHUNK_SIZE + x
    }

    pub closed spec fn spec_data(&self) -> Seq<(u8, DenseBools)> {
        self.data@
    }

    pub closed spec fn spec_coords(&self) -> (i32, i32, i32) {
        (self.x, self.y, self.z)
    }

    pub open spec fn wf(&self) -> bool {
        self.spec_data().len() == CHUNK_SIZE * CHUNK_SIZE * CHUNK_SIZE
    }

    pub fn pos_id(x: usize, y: usize, z: usize) -> (r: usize)
        requires
            x < CHUNK_SIZE,
            y < CHUNK_SIZE,
            z < CHUNK_SIZE,
        ensures
            r == Self::spec_pos_id(x as int, y as int, z as int),
            r < CHUNK_SIZE * CHUNK_SIZE * CHUNK_SIZE,
    {
        proof {
            assert(z * (CHUNK_SIZE * CHUNK_SIZE) + y * CHUNK_SIZE + x < CHUNK_SIZE * CHUNK_SIZE
                * CHUNK_SIZE) by (nonlinear_arith)
                requires
                    x < CHUNK_SIZE,
                    y < CHUNK_SIZE,
                    z < CHUNK_SIZE,
                    CHUNK_SIZE == 32,
            ;
        }
        z * (CHUNK_SIZE * CHUNK_SIZE) + y * CHUNK_SIZE + x
    }

    /// A chunk of air at the given chunk coordinates.
    pub fn empty(x: i32, y: i32, z: i32) -> (r: Chunk)
        ensures
            r.wf(),
            r.spec_coords() == (x, y, z),
            forall|j: int|
                #![trigger r.spec_data()[j]]
                0 <= j < r.spec_data().len() ==> r.spec_data()[j] == (0u8, DenseBools(0u8)),
    {
        let volume = CHUNK_SIZE * CHUNK_SIZE * CHUNK_SIZE;
        let mut data: Vec<(u8, DenseBools)> = Vec::new();
        let mut j: usize = 0;
        while j < volume
            invariant
                j <= volume,
                data@.len() == j,
                forall|k: int|
                    #![trigger data@[k]]
                    0 <= k < j ==> data@[k] == (0u8, DenseBools(0u8)),
            decreases volume - j,
        {
            data.push((0u8, DenseBools(0u8)));
            j = j + 1;
        }
        Chunk { x, y, z, changed: false, blocks_count: 0, data }
    }

    /// Places a block kind at an in-range position (out-of-range positions
    /// change nothing) and refreshes the covered-face records around it.
    pub fn set_block(&mut self, block: u8, x: i32, y: i32, z: i32, block_solidness: DenseBools)
        requires
            old(self).wf(),
        ensures
            final(self).wf(),
            ({
                let placed = if 0 <= x < CHUNK_SIZE as i32 && 0 <= y < CHUNK_SIZE as i32 && 0 <= z
                    < CHUNK_SIZE as i32 {
                    let id = Self::spec_pos_id(x as int, y as int, z as int);
                    old(self).spec_data().update(id, (block, old(self).spec_data()[id].1))
                } else {
                    old(self).spec_data()
                };
                final(self).spec_data() == spec_update_faces(
                    placed,
                    x as int,
                    y as int,
                    z as int,
                    block_solidness,
                )
            }),
            0 <= x < CHUNK_SIZE as i32 && 0 <= y < CHUNK_SIZE as i32 && 0 <= z < CHUNK_SIZE
                as i32 ==> final(self).spec_data()[Self::spec_pos_id(
                x as int,
                y as int,
                z as int,
            )].0 == block,
    {
        let chs = CHUNK_SIZE as i32;
        if x >= 0 && x < chs && y >= 0 && y < chs && z >= 0 && z < chs {
            let id = Chunk::pos_id(x as usize, y as usize, z as usize);
            let solid = self.data[id].1;
            self.data.set(id, (block, solid));
        }
        self.update_faces(x, y, z, block_solidness);
        proof {
            if 0 <= x < CHUNK_SIZE as i32 && 0 <= y < CHUNK_SIZE as i32 && 0 <= z < CHUNK_SIZE
                as i32 {
                assert(final(self).spec_data()[Self::spec_pos_id(x as int, y as int, z as int)].0
                    == block);
            }
        }
    }

    /// Marks, on each neighbour of a position that lies within this chunk,
    /// whether the block now at that position covers the face between them
    /// (a neighbour outside the chunk belongs to another chunk and is left
    /// alone).
    pub fn update_faces(&mut self, x: i32, y: i32, z: i32, block_solidness: DenseBools)
        requires
            old(self).wf(),
        ensures
            final(self).wf(),
            final(self).spec_data() == spec_update_faces(
                old(self).spec_data(),
                x as int,
                y as int,
                z as int,
                block_solidness,
            ),
            forall|j: int|
                #![trigger final(self).spec_data()[j]]
                0 <= j < final(self).spec_data().len() ==> final(self).spec_data()[j].0 == old(
                    self,
                ).spec_data()[j].0,
    {
        let chs = CHUNK_SIZE as i32;
        self.changed = true;
        let y_in = 0 <= y && y < chs;
        let z_in = 0 <= z && z < chs;
        let x_in = 0 <= x && x < chs;
        if x < chs - 1 && x >= -1 && y_in && z_in {
            let id = Chunk::pos_id((x + 1) as usize, y as usize, z as usize);
            self.mark_face(id, 1, block_solidness, 0);
        }
        if x > 0 && x <= chs && y_in && z_in {
            let id = Chunk::pos_id((x - 1) as usize, y as usize, z as usize);
            self.mark_face(id, 0, block_solidness, 1);
        }
        if y < chs - 1 && y >= -1 && x_in && z_in {
            let id = Chunk::pos_id(x as usize, (y + 1) as usize, z as usize);
            self.mark_face(id, 3, block_solidness, 2);
        }
        if y > 0 && y <= chs && x_in && z_in {
            let id = Chunk::pos_id(x as usize, (y - 1) as usize, z as usize);
            self.mark_face(id, 2, block_solidness, 3);
        }
        if z < chs - 1 && z >= -1 && x_in && y_in {
            let id = Chunk::pos_id(x as usize, y as usize, (z + 1) as usize);
            self.mark_face(id, 5, block_solidness, 4);
        }
        if z > 0 && z <= chs && x_in && y_in {
            let id = Chunk::pos_id(x as usize, y as usize, (z - 1) as usize);
            self.mark_face(id, 4, block_solidness, 5);
        }
    }

    /// Copies one solidity bit of the placed block onto a neighbour's
    /// covered-face record.
    fn mark_face(&mut self, id: usize, face: usize, solidness: DenseBools, from_face: usize)
        requires
            old(self).wf(),
            id < CHUNK_SIZE * CHUNK_SIZE * CHUNK_SIZE,
            face < 8,
            from_face < 8,
        ensures
            final(self).wf(),
            final(self).spec_data() == spec_mark_face(
                old(self).spec_data(),
                id as int,
                face as int,
                solidness,
                from_face as int,
            ),
            forall|j: int|
                #![trigger final(self).spec_data()[j]]
                0 <= j < final(self).spec_data().len() ==> final(self).spec_data()[j].0 == old(
                    self,
                ).spec_data()[j].0,
    {
        let block = self.data[id].0;
        let mut bools = self.data[id].1;
        bools.set(face, solidness.get(from_face));
        self.data.set(id, (block, bools));
        proof {
            assert forall|j: int|
                #![trigger final(self).spec_data()[j]]
                0 <= j < final(self).spec_data().len() implies final(self).spec_data()[j].0 == old(
                self,
            ).spec_data()[j].0 by {
                if j != id {
                    assert(final(self).spec_data()[j] == old(self).spec_data()[j]);
                }
            }
        }
    }
}

/// One covered-face record rewritten: slot `id`'s packed byte gets the
/// placed block's `from_face` solidity bit at position `face`.
pub open spec fn spec_mark_face(
    data: Seq<(u8, DenseBools)>,
    id: int,
    face: int,
    sol: DenseBools,
    from_face: int,
) -> Seq<(u8, DenseBools)> {
    data.update(
        id,
        (data[id].0, DenseBools(spec_set_bit(data[id].1.0, face, spec_bit(sol.0, from_face)))),
    )
}

/// The whole effect of refreshing the records around a position: for each
/// of the six axis directions whose neighbour lies within the chunk, that
/// neighbour's facing bit is rewritten, in the fixed axis order.
pub open spec fn spec_update_faces(
    data: Seq<(u8, DenseBools)>,
    x: int,
    y: int,
    z: int,
    sol: DenseBools,
) -> Seq<(u8, DenseBools)> {
    let c = CHUNK_SIZE as int;
    let xin = 0 <= x < c;
    let yin = 0 <= y < c;
    let zin = 0 <= z < c;
    let d1 = if x < c - 1 && x >= -1 && yin && zin {
        spec_mark_face(data, Chunk::spec_pos_id(x + 1, y, z), 1, sol, 0)
    } else {
        data
    };
    let d2 = if x > 0 && x <= c && yin && zin {
        spec_mark_face(d1, Chunk::spec_pos_id(x - 1, y, z), 0, sol, 1)
    } else {
        d1
    };
    let d3 = if y < c - 1 && y >= -1 && xin && zin {
        spec_mark_face(d2, Chunk::spec_pos_id(x, y + 1, z), 3, sol, 2)
    } else {
        d2
    };
    let d4 = if y > 0 && y <= c && xin && zin {
        spec_mark_face(d3, Chunk::spec_pos_id(x, y - 1, z), 2, sol, 3)
    } else {
        d3
    };
    let d5 = if z < c - 1 && z >= -1 && xin && yin {
        spec_mark_face(d4, Chunk::spec_pos_id(x, y, z + 1), 5, sol, 4)
    } else {
        d4
    };
    if z > 0 && z <= c && xin && yin {
        spec_mark_face(d5, Chunk::spec_pos_id(x, y, z - 1), 4, sol, 5)
    } else {
        d5
    }
}

/// The in-chunk coordinate of a world coordinate: its remainder, folded
/// positive.
pub fn to_chunk_mod(i: i32) -> (r: usize)
    ensures
        r == ((i as int % (CHUNK_SIZE as int)) + CHUNK_SIZE as int) % (CHUNK_SIZE as int),
        r < CHUNK_SIZE,
{
    let chs = CHUNK_SIZE as i32;
    (((i % chs) + chs) % chs) as usize
}

/// Extends a polygon index list by one triangle, each corner offset by a
/// base index.
pub fn add_index(arr: &mut Vec<u32>, v1: u32, v2: u32, v3: u32, add: u32)
    requires
        v1 + add <= u32::MAX,
        v2 + add <= u32::MAX,
        v3 + add <= u32::MAX,
    ensures
        final(arr)@ == old(arr)@.push((v1 + add) as u32).push((v2 + add) as u32).push(
            (v3 + add) as u32,
        ),
{
    arr.push(v1 + add);
    arr.push(v2 + add);
    arr.push(v3 + add);
}

} // verus!
