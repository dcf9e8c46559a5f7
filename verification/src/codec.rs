//! The versioned chunk payload encodings.
//!
//! The V4 scheme builds a palette: the distinct block states of the section
//! in order of first occurrence over the y (outer) -> z -> x (inner)
//! traversal. Each of the 4096 positions then contributes the index of its
//! block state in the palette, and the indices are packed into a byte
//! stream as described in `bits`. A section that does not exist encodes as
//! a single-entry palette holding the default block state and an empty
//! index stream.
//!
//! The V3 scheme is the simplest possible representation: the dense grid
//! itself, copied in the same traversal order, or nothing for an absent
//! section.

use vstd::prelude::*;
use vstd::arithmetic::power2::*;
use vstd::arithmetic::div_mod::*;
use crate::bits::{
    be_value, bit_in_bytes, bits_for, lemma_be_reconstruct, lemma_bits_for_covers, nth_be_bit,
    pack_bytes, pack_entries, spec_bits_for, unpack_bytes, unpack_entries,
};
use crate::block::{BlockState, ChunkSection, SECTION_VOLUME};

verus! {

/// The palette of a grid: its distinct block states, in order of first
/// occurrence.
pub open spec fn palette_of(grid: Seq<BlockState>) -> Seq<BlockState>
    decreases grid.len(),
{
    if grid.len() == 0 {
        Seq::empty()
    } else {
        let p = palette_of(grid.drop_last());
        if p.contains(grid.last()) {
            p
        } else {
            p.push(grid.last())
        }
    }
}

/// Index of the first occurrence of `x` in `p`.
pub open spec fn first_index(p: Seq<BlockState>, x: BlockState) -> int
    decreases p.len(),
{
    if p.len() == 0 {
        0
    } else if p[0] == x {
        0
    } else {
        1 + first_index(p.drop_first(), x)
    }
}

/// For a contained element, `first_index` is a valid index, hits the
/// element, and nothing before it does.
pub proof fn lemma_first_index(p: Seq<BlockState>, x: BlockState)
    requires
        p.contains(x),
    ensures
        0 <= first_index(p, x) < p.len(),
        p[first_index(p, x)] == x,
        forall|k: int| 0 <= k < first_index(p, x) ==> p[k] != x,
    decreases p.len(),
{
    if p[0] == x {
    } else {
        let i = choose|i: int| 0 <= i < p.len() && p[i] == x;
        assert(p.drop_first()[i - 1] == x);
        assert(p.drop_first().contains(x));
        lemma_first_index(p.drop_first(), x);
        assert forall|k: int| 0 <= k < first_index(p, x) implies p[k] != x by {
            if k > 0 {
                assert(p.drop_first()[k - 1] == p[k]);
            }
        }
    }
}

/// Appending a new element does not move earlier first occurrences.
pub proof fn lemma_first_index_push(p: Seq<BlockState>, x: BlockState, y: BlockState)
    requires
        p.contains(x),
    ensures
        first_index(p.push(y), x) == first_index(p, x),
    decreases p.len(),
{
    assert(p.push(y)[0] == p[0]);
    if p[0] == x {
    } else {
        let i = choose|i: int| 0 <= i < p.len() && p[i] == x;
        assert(p.drop_first()[i - 1] == x);
        assert(p.drop_first().contains(x));
        assert(p.push(y).drop_first() =~= p.drop_first().push(y));
        lemma_first_index_push(p.drop_first(), x, y);
    }
}

/// The first occurrence of a freshly appended element is at the end.
pub proof fn lemma_first_index_new(p: Seq<BlockState>, x: BlockState)
    requires
        !p.contains(x),
    ensures
        first_index(p.push(x), x) == p.len(),
    decreases p.len(),
{
    if p.len() == 0 {
        assert(p.push(x)[0] == x);
    } else {
        assert(p[0] != x);
        assert(p.push(x)[0] == p[0]);
        assert(p.push(x).drop_first() =~= p.drop_first().push(x));
        assert(!p.drop_first().contains(x)) by {
            if p.drop_first().contains(x) {
                let i = choose|i: int| 0 <= i < p.drop_first().len() && p.drop_first()[i] == x;
                assert(p[i + 1] == x);
            }
        }
        lemma_first_index_new(p.drop_first(), x);
    }
}

/// The palette contains every block state of the grid.
pub proof fn lemma_palette_contains(grid: Seq<BlockState>, i: int)
    requires
        0 <= i < grid.len(),
    ensures
        palette_of(grid).contains(grid[i]),
    decreases grid.len(),
{
    let p = palette_of(grid.drop_last());
    if i == grid.len() - 1 {
        if !p.contains(grid.last()) {
            assert(p.push(grid.last())[p.len() as int] == grid.last());
        }
    } else {
        assert(grid.drop_last()[i] == grid[i]);
        lemma_palette_contains(grid.drop_last(), i);
        if !p.contains(grid.last()) {
            let k = choose|k: int| 0 <= k < p.len() && p[k] == grid[i];
            assert(p.push(grid.last())[k] == grid[i]);
        }
    }
}

/// The palette is never longer than the grid.
pub proof fn lemma_palette_len(grid: Seq<BlockState>)
    ensures
        palette_of(grid).len() <= grid.len(),
        grid.len() > 0 ==> palette_of(grid).len() >= 1,
    decreases grid.len(),
{
    if grid.len() == 0 {
    } else {
        lemma_palette_len(grid.drop_last());
    }
}

/// Position of the first occurrence of `x` in the palette, if any.
fn find_in_palette(palette: &Vec<BlockState>, x: BlockState) -> (r: Option<usize>)
    ensures
        match r {
            Some(i) => {
                &&& i < palette@.len()
                &&& palette@[i as int] == x
                &&& forall|k: int| 0 <= k < i ==> palette@[k] != x
            },
            None => forall|k: int| 0 <= k < palette@.len() ==> palette@[k] != x,
        },
{
    let mut idx: usize = 0;
    while idx < palette.len()
        invariant
            idx <= palette@.len(),
            forall|k: int| 0 <= k < idx ==> palette@[k] != x,
        decreases palette@.len() - idx,
    {
        if palette[idx].id == x.id {
            return Some(idx);
        }
        idx = idx + 1;
    }
    None
}

/// Builds the palette and per-position palette indices of a section, in
/// y (outer) -> z -> x (inner) traversal order, which is exactly the order
/// the section is stored in.
pub fn build_palette(section: &ChunkSection) -> (r: (Vec<BlockState>, Vec<u16>))
    requires
        section.wf(),
    ensures
        r.0@ == palette_of(section.blocks@),
        1 <= r.0@.len() <= SECTION_VOLUME,
        r.1@.len() == SECTION_VOLUME,
        forall|i: int|
            0 <= i < SECTION_VOLUME ==> r.1@[i] as int == first_index(
                palette_of(section.blocks@),
                section.blocks@[i],
            ),
        forall|i: int| 0 <= i < SECTION_VOLUME ==> (r.1@[i] as int) < r.0@.len(),
{
    let mut palette: Vec<BlockState> = Vec::new();
    let mut entries: Vec<u16> = Vec::new();
    let mut t: usize = 0;
    proof {
        assert(section.blocks@.take(0) =~= Seq::<BlockState>::empty());
    }
    while t < SECTION_VOLUME
        invariant
            t <= SECTION_VOLUME,
            section.wf(),
            palette@ == palette_of(section.blocks@.take(t as int)),
            palette@.len() <= t,
            entries@.len() == t,
            forall|i: int|
                0 <= i < t ==> entries@[i] as int == first_index(
                    palette@,
                    section.blocks@[i],
                ),
            forall|i: int| 0 <= i < t ==> (entries@[i] as int) < palette@.len(),
            forall|i: int| 0 <= i < t ==> palette@[entries@[i] as int] == section.blocks@[i],
        decreases SECTION_VOLUME - t,
    {
        let x = section.blocks[t];
        let hit = find_in_palette(&palette, x);
        proof {
            assert(section.blocks@.take(t as int + 1).drop_last() =~= section.blocks@.take(
                t as int,
            ));
            assert(section.blocks@.take(t as int + 1).last() == section.blocks@[t as int]);
        }
        match hit {
            Some(idx) => {
                proof {
                    assert(palette@.contains(x));
                    lemma_first_index(palette@, x);
                    assert(first_index(palette@, x) == idx);
                }
                entries.push(idx as u16);
            },
            None => {
                proof {
                    assert(!palette@.contains(x)) by {
                        if palette@.contains(x) {
                            let k = choose|k: int|
                                0 <= k < palette@.len() && palette@[k] == x;
                        }
                    }
                    lemma_first_index_new(palette@, x);
                    assert forall|i: int| 0 <= i < t implies entries@[i] as int == first_index(
                        palette@.push(x),
                        section.blocks@[i],
                    ) by {
                        assert(palette@[entries@[i] as int] == section.blocks@[i]);
                        assert(palette@.contains(section.blocks@[i]));
                        lemma_first_index_push(palette@, section.blocks@[i], x);
                    }
                }
                let e = palette.len();
                palette.push(x);
                entries.push(e as u16);
            },
        }
        t = t + 1;
    }
    proof {
        assert(section.blocks@.take(SECTION_VOLUME as int) =~= section.blocks@);
        lemma_palette_len(section.blocks@);
    }
    (palette, entries)
}

/// The `i`-th `w`-bit entry carried by a packed byte stream.
pub open spec fn entry_at(data: Seq<u8>, w: nat, i: int) -> nat {
    be_value(Seq::new(w, |j: int| bit_in_bytes(data, i * (w as int) + j)))
}

/// The packed index stream of a present section: bit `t` of the stream is
/// bit `t % w` (from the most significant end) of the palette index of
/// position `t / w`.
pub open spec fn v4_bits_ok(g: Seq<BlockState>, palette: Seq<BlockState>, data: Seq<u8>, w: nat) -> bool {
    &&& data.len() * 8 == SECTION_VOLUME * w
    &&& forall|t: int|
        0 <= t < SECTION_VOLUME * w ==> bit_in_bytes(data, t) == nth_be_bit(
            first_index(palette, g[t / (w as int)]),
            w,
            t % (w as int),
        )
}

/// What a V4 chunk payload holds: for an absent section a single-entry
/// palette with the default block state and an empty stream; for a present
/// one its first-occurrence palette and the packed indices at
/// `spec_bits_for(palette.len())` bits each.
pub open spec fn v4_payload_ok(
    grid: Option<Seq<BlockState>>,
    palette: Seq<BlockState>,
    data: Seq<u8>,
) -> bool {
    match grid {
        Option::None => {
            &&& palette.len() == 1
            &&& palette[0] == (BlockState { id: 0 })
            &&& data.len() == 0
        },
        Option::Some(g) => {
            &&& palette == palette_of(g)
            &&& v4_bits_ok(g, palette, data, spec_bits_for(palette.len()))
        },
    }
}

/// Encodes a section (or its absence) with the V4 palette scheme.
pub fn encode_chunk_v4(chunk: Option<&ChunkSection>) -> (r: (Vec<BlockState>, Vec<u8>))
    requires
        chunk matches Some(c) ==> c.wf(),
    ensures
        v4_payload_ok(
            match chunk {
                Option::None => Option::None,
                Option::Some(c) => Option::Some(c.blocks@),
            },
            r.0@,
            r.1@,
        ),
{
    match chunk {
        None => {
            let mut palette: Vec<BlockState> = Vec::new();
            palette.push(BlockState { id: 0 });
            let data: Vec<u8> = Vec::new();
            (palette, data)
        },
        Some(c) => {
            let (palette, entries) = build_palette(c);
            let w = bits_for(palette.len());
            proof {
                lemma_bits_for_covers(palette@.len());
            }
            let bits = pack_entries(&entries, w);
            proof {
                assert(SECTION_VOLUME * w == (512 * w) * 8) by (nonlinear_arith);
                lemma_mod_multiples_basic(512 * w as int, 8);
            }
            let data = pack_bytes(&bits);
            proof {
                let wi = w as int;
                assert forall|t: int| 0 <= t < SECTION_VOLUME * wi implies bit_in_bytes(
                    data@,
                    t,
                ) == nth_be_bit(
                    first_index(palette@, c.blocks@[t / wi]),
                    w as nat,
                    t % wi,
                ) by {
                    lemma_div_is_ordered(0, t, wi);
                    lemma_div_is_ordered(t, SECTION_VOLUME * wi - 1, wi);
                    assert(SECTION_VOLUME * wi - 1 == 4095 * wi + (wi - 1)) by (nonlinear_arith);
                    lemma_fundamental_div_mod_converse(
                        SECTION_VOLUME * wi - 1,
                        wi,
                        4095,
                        wi - 1,
                    );
                    lemma_div_basics(t);
                }
            }
            (palette, data)
        },
    }
}

/// What the V4 decoder accepts, and the grid it rebuilds: exactly the
/// byte streams whose length and entries fit the palette.
pub open spec fn decode_v4_grid(palette: Seq<BlockState>, data: Seq<u8>) -> Option<Seq<BlockState>> {
    let w = spec_bits_for(palette.len());
    if palette.len() < 1 || palette.len() > SECTION_VOLUME {
        Option::None
    } else if data.len() * 8 != SECTION_VOLUME * w {
        Option::None
    } else if exists|i: int| 0 <= i < SECTION_VOLUME && entry_at(data, w, i) >= palette.len() {
        Option::None
    } else {
        Option::Some(
            Seq::new(SECTION_VOLUME as nat, |i: int| palette[entry_at(data, w, i) as int]),
        )
    }
}

/// Rebuilds the block-state grid from a V4 palette and packed index
/// stream, recognizing the zero-bit-width single-entry case without
/// reading any bits.
pub fn decode_chunk_v4(palette: &Vec<BlockState>, data: &Vec<u8>) -> (r: Option<ChunkSection>)
    ensures
        match r {
            Some(c) => c.wf() && decode_v4_grid(palette@, data@) == Some(c.blocks@),
            None => decode_v4_grid(palette@, data@) is None,
        },
{
    let n = palette.len();
    if n < 1 || n > SECTION_VOLUME {
        return None;
    }
    let w = bits_for(n);
    if w == 0 {
        if data.len() != 0 {
            return None;
        }
        let c = ChunkSection::uniform(palette[0]);
        proof {
            let g = decode_v4_grid(palette@, data@);
            assert forall|i: int| 0 <= i < SECTION_VOLUME implies entry_at(data@, 0, i) == 0 by {
                assert(Seq::new(0, |j: int| bit_in_bytes(data@, i * 0 + j)) =~= Seq::<
                    bool,
                >::empty());
            }
            assert(g == Some(
                Seq::new(SECTION_VOLUME as nat, |i: int| palette@[entry_at(data@, 0, i) as int]),
            ));
            assert(c.blocks@ =~= Seq::new(
                SECTION_VOLUME as nat,
                |i: int| palette@[entry_at(data@, 0, i) as int],
            ));
        }
        return Some(c);
    }
    let expected: usize = 512 * w;
    if data.len() != expected {
        return None;
    }
    let bits = unpack_bytes(data, 8 * expected);
    proof {
        assert(8 * expected == SECTION_VOLUME * w) by (nonlinear_arith)
            requires
                expected == 512 * w,
        ;
    }
    let entries = unpack_entries(&bits, w, SECTION_VOLUME);
    proof {
        let wi = w as int;
        assert forall|i: int| 0 <= i < SECTION_VOLUME implies entries@[i] == entry_at(
            data@,
            w as nat,
            i,
        ) by {
            assert(i * wi + wi <= SECTION_VOLUME * wi) by (nonlinear_arith)
                requires
                    0 <= i < SECTION_VOLUME,
                    0 < wi,
            ;
            assert(0 <= i * wi) by (nonlinear_arith)
                requires
                    0 <= i,
                    0 < wi,
            ;
            assert(bits@.subrange(i * wi, i * wi + wi) =~= Seq::new(
                w as nat,
                |j: int| bit_in_bytes(data@, i * wi + j),
            ));
        }
    }
    let mut blocks: Vec<BlockState> = Vec::new();
    let mut i: usize = 0;
    while i < SECTION_VOLUME
        invariant
            i <= SECTION_VOLUME,
            n == palette@.len(),
            1 <= n <= SECTION_VOLUME,
            w == spec_bits_for(n as nat),
            entries@.len() == SECTION_VOLUME,
            forall|x: int|
                0 <= x < SECTION_VOLUME ==> entries@[x] == entry_at(data@, w as nat, x),
            blocks@.len() == i,
            forall|x: int| 0 <= x < i ==> entries@[x] < n,
            forall|x: int| 0 <= x < i ==> blocks@[x] == palette@[entries@[x] as int],
        decreases SECTION_VOLUME - i,
    {
        let e = entries[i] as usize;
        if e >= n {
            proof {
                assert(entry_at(data@, w as nat, i as int) >= palette@.len());
            }
            return None;
        }
        blocks.push(palette[e]);
        i = i + 1;
    }
    let c = ChunkSection { blocks };
    proof {
        let wspec = spec_bits_for(palette@.len());
        assert(wspec == w);
        assert(data@.len() * 8 == SECTION_VOLUME * wspec);
        assert(!(exists|x: int|
            0 <= x < SECTION_VOLUME && entry_at(data@, wspec, x) >= palette@.len())) by {
            if exists|x: int|
                0 <= x < SECTION_VOLUME && entry_at(data@, wspec, x) >= palette@.len() {
                let x = choose|x: int|
                    0 <= x < SECTION_VOLUME && entry_at(data@, wspec, x) >= palette@.len();
                assert(entries@[x] < n);
            }
        }
        assert(c.blocks@ =~= Seq::new(
            SECTION_VOLUME as nat,
            |x: int| palette@[entry_at(data@, wspec, x) as int],
        ));
    }
    Some(c)
}

/// Round trip of the V4 scheme: decoding a present section's encoding
/// rebuilds exactly the original grid, whatever the palette size and bit
/// width.
pub proof fn lemma_v4_round_trip(g: Seq<BlockState>, palette: Seq<BlockState>, data: Seq<u8>)
    requires
        g.len() == SECTION_VOLUME,
        v4_payload_ok(Some(g), palette, data),
    ensures
        decode_v4_grid(palette, data) == Some(g),
{
    let w = spec_bits_for(palette.len());
    let wi = w as int;
    lemma_palette_len(g);
    assert forall|i: int| 0 <= i < SECTION_VOLUME implies entry_at(data, w, i) == first_index(
        palette,
        g[i],
    ) && entry_at(data, w, i) < palette.len() by {
        lemma_palette_contains(g, i);
        lemma_first_index(palette, g[i]);
        let fi = first_index(palette, g[i]);
        lemma_bits_for_covers(palette.len());
        if w == 0 {
            assert(palette.len() <= 1);
            assert(Seq::new(0, |j: int| bit_in_bytes(data, i * 0 + j)) =~= Seq::<bool>::empty());
        } else {
            assert forall|j: int| 0 <= j < wi implies bit_in_bytes(data, i * wi + j)
                == nth_be_bit(fi, w, j) by {
                assert(0 <= i * wi + j < SECTION_VOLUME * wi) by (nonlinear_arith)
                    requires
                        0 <= i < SECTION_VOLUME,
                        0 <= j < wi,
                ;
                lemma_fundamental_div_mod_converse(i * wi + j, wi, i, j);
            }
            assert(Seq::new(w, |j: int| bit_in_bytes(data, i * wi + j)) =~= Seq::new(
                w,
                |j: int| nth_be_bit(fi, w, j),
            ));
            lemma_be_reconstruct(w, fi);
        }
    }
    let decoded = Seq::new(SECTION_VOLUME as nat, |i: int| palette[entry_at(data, w, i) as int]);
    assert(decoded =~= g) by {
        assert forall|i: int| 0 <= i < SECTION_VOLUME implies decoded[i] == g[i] by {
            lemma_palette_contains(g, i);
            lemma_first_index(palette, g[i]);
        }
    }
}

/// An absent section's V4 payload decodes, without reading any bits, to a
/// grid holding the default block state everywhere.
pub proof fn lemma_v4_absent_decodes_uniform(palette: Seq<BlockState>, data: Seq<u8>)
    requires
        v4_payload_ok(Option::None, palette, data),
    ensures
        decode_v4_grid(palette, data) == Some(
            Seq::new(SECTION_VOLUME as nat, |i: int| BlockState { id: 0 }),
        ),
{
    let w = spec_bits_for(palette.len());
    assert(w == 0);
    assert forall|i: int| 0 <= i < SECTION_VOLUME implies entry_at(data, w, i) == 0 by {
        assert(Seq::new(0, |j: int| bit_in_bytes(data, i * 0 + j)) =~= Seq::<bool>::empty());
    }
    let decoded = Seq::new(SECTION_VOLUME as nat, |i: int| palette[entry_at(data, w, i) as int]);
    assert(decoded =~= Seq::new(SECTION_VOLUME as nat, |i: int| BlockState { id: 0 }));
}

/// Encodes a section (or its absence) with the V3 scheme: the dense grid
/// copied in y (outer) -> z -> x (inner) order, or nothing.
pub fn encode_chunk_v3(chunk: Option<&ChunkSection>) -> (r: Option<Vec<BlockState>>)
    requires
        chunk matches Some(c) ==> c.wf(),
    ensures
        match chunk {
            Option::None => r is None,
            Option::Some(c) => r matches Some(d) && d@ =~= c.blocks@,
        },
{
    match chunk {
        None => None,
        Some(c) => {
            let mut out: Vec<BlockState> = Vec::new();
            let mut y: usize = 0;
            while y < 16
                invariant
                    y <= 16,
                    c.wf(),
                    out@.len() == 256 * y,
                    forall|t: int| 0 <= t < out@.len() ==> out@[t] == c.blocks@[t],
                decreases 16 - y,
            {
                let mut z: usize = 0;
                while z < 16
                    invariant
                        y < 16,
                        z <= 16,
                        c.wf(),
                        out@.len() == 256 * y + 16 * z,
                        forall|t: int| 0 <= t < out@.len() ==> out@[t] == c.blocks@[t],
                    decreases 16 - z,
                {
                    let mut x: usize = 0;
                    while x < 16
                        invariant
                            y < 16,
                            z < 16,
                            x <= 16,
                            c.wf(),
                            out@.len() == 256 * y + 16 * z + x,
                            forall|t: int| 0 <= t < out@.len() ==> out@[t] == c.blocks@[t],
                        decreases 16 - x,
                    {
                        let b = c.block_at(x as u8, y as u8, z as u8);
                        out.push(b);
                        x = x + 1;
                    }
                    z = z + 1;
                }
                y = y + 1;
            }
            Some(out)
        },
    }
}

} // verus!
