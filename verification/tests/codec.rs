//! Round trips and exact encodings of the two chunk payload schemes.

use bitvec::order::Lsb0;
use bitvec::vec::BitVec;
use worldsync::block::{BlockState, ChunkSection, SECTION_VOLUME};
use worldsync::codec::{decode_chunk_v4, encode_chunk_v3, encode_chunk_v4};

/// A section whose palette, built in y -> z -> x order, has exactly
/// `distinct` entries: position `t` holds block state `t % distinct`.
fn section_with_palette(distinct: u32) -> ChunkSection {
    let mut blocks = Vec::new();
    for t in 0..SECTION_VOLUME as u32 {
        blocks.push(BlockState { id: t % distinct });
    }
    ChunkSection { blocks }
}

fn roundtrip(distinct: u32, expected_bits: usize) {
    let section = section_with_palette(distinct);
    let (palette, data) = encode_chunk_v4(Some(&section));
    assert_eq!(palette.len(), distinct as usize);
    for (i, state) in palette.iter().enumerate() {
        assert_eq!(state.id, i as u32);
    }
    assert_eq!(data.len() * 8, SECTION_VOLUME * expected_bits);
    let decoded = decode_chunk_v4(&palette, &data).expect("a fresh encoding must decode");
    for t in 0..SECTION_VOLUME {
        assert_eq!(decoded.blocks[t].id, section.blocks[t].id);
    }
}

#[test]
fn v4_roundtrip_palette_1() {
    roundtrip(1, 0);
}

#[test]
fn v4_roundtrip_palette_2() {
    roundtrip(2, 1);
}

#[test]
fn v4_roundtrip_palette_3() {
    roundtrip(3, 2);
}

#[test]
fn v4_roundtrip_palette_16() {
    roundtrip(16, 4);
}

#[test]
fn v4_roundtrip_palette_256() {
    roundtrip(256, 8);
}

/// The packed stream is an `Lsb0` bit vector over bytes - bit `t` of the
/// stream is bit `t % 8` of byte `t / 8` - and each index occupies its own
/// fixed-width slice in big-endian bit order: the slice's first bit is the
/// index's most significant bit.
#[test]
fn v4_bit_layout_lsb0_bytes_big_endian_slices() {
    for &distinct in &[2u32, 3, 16, 256] {
        let section = section_with_palette(distinct);
        let (palette, data) = encode_chunk_v4(Some(&section));
        let w = palette.len().next_power_of_two().ilog2() as usize;
        let entries: Vec<usize> = section
            .blocks
            .iter()
            .map(|b| palette.iter().position(|p| p.id == b.id).unwrap())
            .collect();
        // view the bytes through bitvec's Lsb0 ordering: this fixes what
        // "bit t of the stream" means on the wire
        let stream: BitVec<u8, Lsb0> = BitVec::from_vec(data.clone());
        assert_eq!(stream.len(), SECTION_VOLUME * w);
        for (i, &entry) in entries.iter().enumerate() {
            for j in 0..w {
                let expected = (entry >> (w - 1 - j)) & 1 == 1;
                assert_eq!(stream[i * w + j], expected, "entry {i} bit {j}");
            }
        }
    }
}

#[test]
fn v4_absent_section_single_default_palette_and_no_bits() {
    let (palette, data) = encode_chunk_v4(None);
    assert_eq!(palette.len(), 1);
    assert_eq!(palette[0].id, 0);
    assert!(data.is_empty());
    let decoded = decode_chunk_v4(&palette, &data).expect("the absent encoding must decode");
    for t in 0..SECTION_VOLUME {
        assert_eq!(decoded.blocks[t].id, 0);
    }
}

#[test]
fn v4_decode_rejects_wrong_stream_length() {
    let section = section_with_palette(2);
    let (palette, mut data) = encode_chunk_v4(Some(&section));
    data.push(0);
    assert!(decode_chunk_v4(&palette, &data).is_none());
    assert!(decode_chunk_v4(&palette, &Vec::new()).is_none());
    assert!(decode_chunk_v4(&Vec::new(), &Vec::new()).is_none());
}

#[test]
fn v4_decode_rejects_out_of_palette_index() {
    // palette of 3: width 2, so index 3 is representable but invalid
    let mut blocks = Vec::new();
    for t in 0..SECTION_VOLUME as u32 {
        blocks.push(BlockState { id: t % 3 });
    }
    let section = ChunkSection { blocks };
    let (palette, data) = encode_chunk_v4(Some(&section));
    assert_eq!(palette.len(), 3);
    // overwrite the first slice (entry 0, big-endian bits 11) -> index 3
    let mut broken = data.clone();
    broken[0] |= 0b11;
    assert!(decode_chunk_v4(&palette, &broken).is_none());
}

#[test]
fn v3_dense_copy_and_absent() {
    let section = section_with_palette(5);
    let encoded = encode_chunk_v3(Some(&section)).expect("present section encodes to data");
    assert_eq!(encoded.len(), SECTION_VOLUME);
    for t in 0..SECTION_VOLUME {
        assert_eq!(encoded[t].id, section.blocks[t].id);
    }
    assert!(encode_chunk_v3(None).is_none());
    // y (outer) -> z -> x (inner): block_at agrees with the dense index
    assert_eq!(
        section.block_at(3, 2, 1).id,
        section.blocks[2 * 256 + 1 * 16 + 3].id
    );
}
