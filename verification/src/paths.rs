//! Interpretation of filesystem-change paths.
//!
//! A change under the player-data directory must name a file
//! `<uuid>.<ext>`, where the UUID is written in its hyphenated form
//! (8-4-4-4-12 hexadecimal digits); any other shape is a protocol error.
//! Paths are handled as raw bytes: the filesystem does not promise UTF-8.

use vstd::prelude::*;
use vstd::arithmetic::power2::{lemma2_to64, lemma2_to64_rest, lemma_pow2_adds, pow2};

verus! {

pub open spec fn is_hex_digit(b: u8) -> bool {
    (48 <= b <= 57) || (97 <= b <= 102) || (65 <= b <= 70)
}

pub open spec fn hex_val(b: u8) -> int {
    if 48 <= b <= 57 {
        b - 48
    } else if 97 <= b <= 102 {
        b - 87
    } else {
        b - 55
    }
}

/// Position of the `k`-th hexadecimal digit within the 36-byte hyphenated
/// UUID form: the hyphens sit after digits 8, 12, 16 and 20.
pub open spec fn digit_index(k: int) -> int {
    if k < 8 {
        k
    } else if k < 12 {
        k + 1
    } else if k < 16 {
        k + 2
    } else if k < 20 {
        k + 3
    } else {
        k + 4
    }
}

/// The first 36 bytes spell a hyphenated UUID.
pub open spec fn uuid_chars_ok(s: Seq<u8>) -> bool {
    &&& s.len() >= 36
    &&& s[8] == 45
    &&& s[13] == 45
    &&& s[18] == 45
    &&& s[23] == 45
    &&& forall|k: int| 0 <= k < 32 ==> is_hex_digit(#[trigger] s[digit_index(k)])
}

/// The UUID's value, reading its first `k` hexadecimal digits as one
/// big-endian base-16 number.
pub open spec fn uuid_prefix_val(s: Seq<u8>, k: int) -> int
    decreases k,
{
    if k <= 0 {
        0
    } else {
        16 * uuid_prefix_val(s, k - 1) + hex_val(s[digit_index(k - 1)])
    }
}

pub open spec fn spec_uuid_value(s: Seq<u8>) -> int {
    uuid_prefix_val(s, 32)
}

/// A well-shaped player-data filename: a hyphenated UUID, a dot, a
/// non-empty extension, and no path separator anywhere.
pub open spec fn player_filename_ok(s: Seq<u8>) -> bool {
    &&& s.len() >= 38
    &&& s[36] == 46
    &&& uuid_chars_ok(s)
    &&& forall|i: int| 0 <= i < s.len() ==> s[i] != 47
}

proof fn lemma_uuid_prefix_bound(s: Seq<u8>, k: int)
    requires
        0 <= k,
        forall|x: int| 0 <= x < 32 ==> is_hex_digit(#[trigger] s[digit_index(x)]),
        k <= 32,
    ensures
        0 <= uuid_prefix_val(s, k) < pow2((4 * k) as nat),
    decreases k,
{
    lemma2_to64();
    if k == 0 {
    } else {
        lemma_uuid_prefix_bound(s, k - 1);
        lemma_pow2_adds((4 * (k - 1)) as nat, 4);
    }
}

/// The numeric value of one hexadecimal digit.
fn hex_digit_val(b: u8) -> (r: Option<u8>)
    ensures
        r is Some <==> is_hex_digit(b),
        r matches Some(v) ==> v == hex_val(b) && v < 16,
{
    if 48 <= b && b <= 57 {
        Some(b - 48)
    } else if 97 <= b && b <= 102 {
        Some(b - 87)
    } else if 65 <= b && b <= 70 {
        Some(b - 55)
    } else {
        None
    }
}

/// Byte position of the `k`-th UUID digit.
fn digit_position(k: usize) -> (r: usize)
    requires
        k < 32,
    ensures
        r == digit_index(k as int),
        r < 36,
{
    if k < 8 {
        k
    } else if k < 12 {
        k + 1
    } else if k < 16 {
        k + 2
    } else if k < 20 {
        k + 3
    } else {
        k + 4
    }
}

/// Parses a player-data filename `<uuid>.<ext>`: the UUID's value on the
/// well-shaped names, and nothing on every other shape.
pub fn parse_player_filename(name: &Vec<u8>) -> (r: Option<u128>)
    ensures
        r is Some <==> player_filename_ok(name@),
        r matches Some(v) ==> v == spec_uuid_value(name@),
{
    if name.len() < 38 {
        return None;
    }
    if name[36] != 46 {
        return None;
    }
    if name[8] != 45 || name[13] != 45 || name[18] != 45 || name[23] != 45 {
        return None;
    }
    let mut i: usize = 0;
    while i < name.len()
        invariant
            i <= name@.len(),
            forall|x: int| 0 <= x < i ==> name@[x] != 47,
        decreases name@.len() - i,
    {
        if name[i] == 47 {
            return None;
        }
        i = i + 1;
    }
    let mut acc: u128 = 0;
    let mut k: usize = 0;
    proof {
        lemma2_to64();
    }
    while k < 32
        invariant
            k <= 32,
            name@.len() >= 38,
            forall|x: int| 0 <= x < k ==> is_hex_digit(#[trigger] name@[digit_index(x)]),
            acc == uuid_prefix_val(name@, k as int),
            acc < pow2((4 * k) as nat),
        decreases 32 - k,
    {
        let pos = digit_position(k);
        let d = hex_digit_val(name[pos]);
        match d {
            None => {
                return None;
            },
            Some(v) => {
                proof {
                    lemma2_to64();
                    lemma2_to64_rest();
                    lemma_pow2_adds((4 * k) as nat, 4);
                    lemma_pow2_adds(64, 64);
                    if 4 * k + 4 < 128 {
                        vstd::arithmetic::power2::lemma_pow2_strictly_increases(
                            (4 * k + 4) as nat,
                            128,
                        );
                    }
                }
                acc = 16 * acc + (v as u128);
                k = k + 1;
            },
        }
    }
    Some(acc)
}

/// Whether `s` begins with `prefix`.
pub open spec fn spec_starts_with(s: Seq<u8>, prefix: Seq<u8>) -> bool {
    s.len() >= prefix.len() && s.subrange(0, prefix.len() as int) == prefix
}

/// Strips `prefix` off the front of `path`, handing back the remainder.
pub fn strip_prefix(path: &Vec<u8>, prefix: &Vec<u8>) -> (r: Option<Vec<u8>>)
    ensures
        r is Some <==> spec_starts_with(path@, prefix@),
        r matches Some(rest) ==> rest@ == path@.subrange(prefix@.len() as int, path@.len() as int),
{
    if path.len() < prefix.len() {
        proof {
            assert(!spec_starts_with(path@, prefix@));
        }
        return None;
    }
    let mut i: usize = 0;
    while i < prefix.len()
        invariant
            i <= prefix@.len(),
            path@.len() >= prefix@.len(),
            forall|x: int| 0 <= x < i ==> path@[x] == prefix@[x],
        decreases prefix@.len() - i,
    {
        if path[i] != prefix[i] {
            proof {
                assert(path@.subrange(0, prefix@.len() as int)[i as int] != prefix@[i as int]);
            }
            return None;
        }
        i = i + 1;
    }
    let mut rest: Vec<u8> = Vec::new();
    let mut j: usize = prefix.len();
    while j < path.len()
        invariant
            prefix@.len() <= j <= path@.len(),
            rest@.len() == j - prefix@.len(),
            forall|x: int|
                0 <= x < rest@.len() ==> rest@[x] == path@[prefix@.len() + x],
        decreases path@.len() - j,
    {
        rest.push(path[j]);
        j = j + 1;
    }
    proof {
        assert(path@.subrange(0, prefix@.len() as int) =~= prefix@);
        assert(rest@ =~= path@.subrange(prefix@.len() as int, path@.len() as int));
    }
    Some(rest)
}

} // verus!
