//! The world data this protocol streams: block states, 16x16x16 chunk
//! sections, column-scoped block entities, and the modification timestamps
//! that gate re-reads.
//!
//! A block state is carried as a plain numeric identifier: the session and
//! the wire encoder only ever compare block states for equality and single
//! out a default one, so the identifier is all they read.

use vstd::prelude::*;

verus! {

/// Seconds-precision modification time of a chunk column, as the backing
/// store reports it.
pub type Timestamp = i64;

/// One block state, as a plain identifier. Equal identifiers mean the same
/// block state.
#[derive(Clone, Copy, PartialEq, Eq, Structural, Debug, Hash)]
pub struct BlockState {
    pub id: u32,
}

impl Default for BlockState {
    /// The default block state: what an absent chunk section is filled with.
    fn default() -> (r: Self)
        ensures
            r.id == 0,
    {
        BlockState { id: 0 }
    }
}

/// Number of blocks along one edge of a chunk section.
pub const SECTION_EDGE: usize = 16;

/// Number of blocks in a chunk section.
pub const SECTION_VOLUME: usize = 4096;

/// The position `(x, y, z)` within a section as an index into the dense
/// y (outer) -> z -> x (inner) iteration order.
pub open spec fn spec_block_index(x: int, y: int, z: int) -> int {
    y * 256 + z * 16 + x
}

/// A 16x16x16 cube of block states, stored dense in y (outer) -> z ->
/// x (inner) order.
#[derive(Clone, Debug)]
pub struct ChunkSection {
    pub blocks: Vec<BlockState>,
}

impl ChunkSection {
    pub open spec fn wf(self) -> bool {
        self.blocks@.len() == SECTION_VOLUME
    }

    /// A section filled with one block state everywhere.
    pub fn uniform(state: BlockState) -> (r: Self)
        ensures
            r.wf(),
            forall|i: int| 0 <= i < SECTION_VOLUME ==> r.blocks@[i] == state,
    {
        let mut blocks: Vec<BlockState> = Vec::new();
        let mut i: usize = 0;
        while i < SECTION_VOLUME
            invariant
                i <= SECTION_VOLUME,
                blocks@.len() == i,
                forall|j: int| 0 <= j < i ==> blocks@[j] == state,
            decreases SECTION_VOLUME - i,
        {
            blocks.push(state);
            i = i + 1;
        }
        ChunkSection { blocks }
    }

    /// The block state at position `(x, y, z)` relative to the section.
    pub fn block_at(&self, x: u8, y: u8, z: u8) -> (r: BlockState)
        requires
            self.wf(),
            x < 16,
            y < 16,
            z < 16,
        ensures
            r == self.blocks@[spec_block_index(x as int, y as int, z as int)],
    {
        let idx: usize = (y as usize) * 256 + (z as usize) * 16 + (x as usize);
        self.blocks[idx]
    }

    /// Value equality of two sections: the same block state at every
    /// position.
    pub fn same_blocks(&self, other: &ChunkSection) -> (r: bool)
        requires
            self.wf(),
            other.wf(),
        ensures
            r <==> self.blocks@ =~= other.blocks@,
    {
        let mut i: usize = 0;
        while i < SECTION_VOLUME
            invariant
                i <= SECTION_VOLUME,
                self.wf(),
                other.wf(),
                forall|j: int| 0 <= j < i ==> self.blocks@[j] == other.blocks@[j],
            decreases SECTION_VOLUME - i,
        {
            if self.blocks[i].id != other.blocks[i].id {
                return false;
            }
            i = i + 1;
        }
        true
    }
}

/// One block entity, carried as an opaque serialized blob: the session only
/// ever passes it through and compares it for equality.
#[derive(Clone, Debug)]
pub struct BlockEntity {
    pub data: Vec<u8>,
}

/// Value equality of two serialized blobs.
pub fn blob_eq(a: &Vec<u8>, b: &Vec<u8>) -> (r: bool)
    ensures
        r <==> a@ =~= b@,
{
    if a.len() != b.len() {
        return false;
    }
    let mut i: usize = 0;
    while i < a.len()
        invariant
            i <= a@.len(),
            a@.len() == b@.len(),
            forall|j: int| 0 <= j < i ==> a@[j] == b@[j],
        decreases a@.len() - i,
    {
        if a[i] != b[i] {
            return false;
        }
        i = i + 1;
    }
    true
}

/// An owned copy of a section, equal in content.
pub fn copy_section(s: &ChunkSection) -> (r: ChunkSection)
    requires
        s.wf(),
    ensures
        r.wf(),
        r.blocks@ == s.blocks@,
{
    let mut blocks: Vec<BlockState> = Vec::new();
    let mut i: usize = 0;
    while i < s.blocks.len()
        invariant
            i <= s.blocks@.len(),
            blocks@.len() == i,
            forall|j: int| 0 <= j < i ==> blocks@[j] == s.blocks@[j],
        decreases s.blocks@.len() - i,
    {
        blocks.push(s.blocks[i]);
        i = i + 1;
    }
    proof {
        assert(blocks@ =~= s.blocks@);
    }
    ChunkSection { blocks }
}

/// An owned copy of a serialized blob, equal in content.
pub fn copy_blob(b: &Vec<u8>) -> (r: Vec<u8>)
    ensures
        r@ == b@,
{
    let mut out: Vec<u8> = Vec::new();
    let mut i: usize = 0;
    while i < b.len()
        invariant
            i <= b@.len(),
            out@.len() == i,
            forall|j: int| 0 <= j < i ==> out@[j] == b@[j],
        decreases b@.len() - i,
    {
        out.push(b[i]);
        i = i + 1;
    }
    proof {
        assert(out@ =~= b@);
    }
    out
}

/// The sequences of blobs behind two block-entity lists.
pub open spec fn spec_entity_blobs(es: Seq<BlockEntity>) -> Seq<Seq<u8>> {
    es.map_values(|e: BlockEntity| e.data@)
}

/// An owned copy of a block-entity list, equal in content.
pub fn copy_entities(es: &Vec<BlockEntity>) -> (r: Vec<BlockEntity>)
    ensures
        spec_entity_blobs(r@) == spec_entity_blobs(es@),
{
    let mut out: Vec<BlockEntity> = Vec::new();
    let mut i: usize = 0;
    while i < es.len()
        invariant
            i <= es@.len(),
            out@.len() == i,
            forall|j: int| 0 <= j < i ==> (#[trigger] out@[j]).data@ == es@[j].data@,
        decreases es@.len() - i,
    {
        let data = copy_blob(&es[i].data);
        out.push(BlockEntity { data });
        i = i + 1;
    }
    proof {
        assert(spec_entity_blobs(out@) =~~= spec_entity_blobs(es@));
    }
    out
}

/// Value equality of two block-entity lists: the same blobs in the same
/// order.
pub fn entities_eq(a: &Vec<BlockEntity>, b: &Vec<BlockEntity>) -> (r: bool)
    ensures
        r <==> spec_entity_blobs(a@) =~~= spec_entity_blobs(b@),
{
    if a.len() != b.len() {
        return false;
    }
    let mut i: usize = 0;
    while i < a.len()
        invariant
            i <= a@.len(),
            a@.len() == b@.len(),
            forall|j: int| 0 <= j < i ==> a@[j].data@ =~= b@[j].data@,
        decreases a@.len() - i,
    {
        if !blob_eq(&a[i].data, &b[i].data) {
            proof {
                let ia = i as int;
                assert(!(spec_entity_blobs(a@) =~~= spec_entity_blobs(b@))) by {
                    if spec_entity_blobs(a@) =~~= spec_entity_blobs(b@) {
                        assert(spec_entity_blobs(a@)[ia] == spec_entity_blobs(b@)[ia]);
                        assert(a@[ia].data@ == b@[ia].data@);
                    }
                }
            }
            return false;
        }
        i = i + 1;
    }
    true
}

} // verus!
