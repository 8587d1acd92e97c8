//! The on-disk encodings of the file allocation table.
//!
//! A table copy is a run of bytes; entry `c` occupies a little window of it
//! whose place and width depend on the FAT variant.  FAT16 and FAT32 windows
//! are disjoint; FAT12 packs two 12-bit entries into three bytes, so the
//! windows of neighbouring entries share a byte and a write must preserve the
//! neighbour's nibble.  This module gives the decode of a window as spec
//! functions, and the lemmas that carry a one-window write to a one-entry
//! update of the decoded table.

use vstd::prelude::*;

use crate::bytes::spec_le16;
use crate::bytes::spec_le32;
use crate::ClusterValue;
use crate::FatType;

verus! {

/// The width in bytes of the window read or written for one entry.
pub open spec fn fat_entry_width(ft: FatType) -> int {
    match ft {
        FatType::Fat12 => 2,
        FatType::Fat16 => 2,
        FatType::Fat32 => 4,
    }
}

/// The byte index, within one table copy, of the window of entry `c`.
pub open spec fn fat_entry_index(ft: FatType, c: int) -> int {
    match ft {
        FatType::Fat12 => c + c / 2,
        FatType::Fat16 => 2 * c,
        FatType::Fat32 => 4 * c,
    }
}

/// Bytes a table copy must hold so that every entry below `cc` fits.
pub open spec fn fat_needed_bytes(ft: FatType, cc: int) -> int {
    fat_entry_index(ft, cc) + 2
}

/// Classifies a raw 12-bit entry.
pub open spec fn spec_cv12(raw: int) -> ClusterValue {
    if raw == 0 {
        ClusterValue::Free
    } else if raw == 0xFF7 {
        ClusterValue::Bad
    } else if raw >= 0xFF8 {
        ClusterValue::Last
    } else {
        ClusterValue::Next(raw as u32)
    }
}

/// Classifies a raw 16-bit entry.
pub open spec fn spec_cv16(raw: int) -> ClusterValue {
    if raw == 0 {
        ClusterValue::Free
    } else if raw == 0xFFF7 {
        ClusterValue::Bad
    } else if raw >= 0xFFF8 {
        ClusterValue::Last
    } else {
        ClusterValue::Next(raw as u32)
    }
}

/// Classifies a raw 32-bit entry; only the low 28 bits count.
pub open spec fn spec_cv32(raw: int) -> ClusterValue {
    let masked = raw % 0x1000_0000;
    if masked == 0 {
        ClusterValue::Free
    } else if masked == 0x0FFF_FFF7 {
        ClusterValue::Bad
    } else if masked >= 0x0FFF_FFF8 {
        ClusterValue::Last
    } else {
        ClusterValue::Next(masked as u32)
    }
}

/// The raw 12-bit value held by the two-byte window of a FAT12 entry: an even
/// entry takes the low twelve bits of the little-endian word, an odd entry
/// the high twelve.
pub open spec fn spec_raw12(b0: u8, b1: u8, even: bool) -> int {
    if even {
        b0 + 256 * (b1 % 16)
    } else {
        b0 / 16 + 16 * b1
    }
}

/// The decoded entry `c` of the table copy starting at byte `base` of `bytes`.
pub open spec fn spec_fat_entry(ft: FatType, bytes: Seq<u8>, base: int, c: int) -> ClusterValue {
    let i = base + fat_entry_index(ft, c);
    match ft {
        FatType::Fat12 => spec_cv12(spec_raw12(bytes[i], bytes[i + 1], c % 2 == 0)),
        FatType::Fat16 => spec_cv16(spec_le16(bytes[i], bytes[i + 1])),
        FatType::Fat32 => spec_cv32(spec_le32(bytes[i], bytes[i + 1], bytes[i + 2], bytes[i + 3])),
    }
}

/// The whole decoded table: entry `c` for every `c` below `cc`.
pub open spec fn spec_fat_view(ft: FatType, bytes: Seq<u8>, base: int, cc: int) -> Seq<
    ClusterValue,
> {
    Seq::new(cc as nat, |c: int| spec_fat_entry(ft, bytes, base, c))
}

/// Classifies a raw 12-bit entry.
pub fn decode12(raw: u32) -> (v: ClusterValue)
    requires
        raw < 0x1000,
    ensures
        v == spec_cv12(raw as int),
{
    if raw == 0 {
        ClusterValue::Free
    } else if raw == 0xFF7 {
        ClusterValue::Bad
    } else if raw >= 0xFF8 {
        ClusterValue::Last
    } else {
        ClusterValue::Next(raw)
    }
}

/// Classifies a raw 16-bit entry.
pub fn decode16(raw: u32) -> (v: ClusterValue)
    requires
        raw < 0x1_0000,
    ensures
        v == spec_cv16(raw as int),
{
    if raw == 0 {
        ClusterValue::Free
    } else if raw == 0xFFF7 {
        ClusterValue::Bad
    } else if raw >= 0xFFF8 {
        ClusterValue::Last
    } else {
        ClusterValue::Next(raw)
    }
}

/// Classifies a raw 32-bit entry, masking to the low 28 bits.
pub fn decode32(raw: u32) -> (v: ClusterValue)
    ensures
        v == spec_cv32(raw as int),
{
    let masked = raw & 0x0FFF_FFFF;
    proof {
        assert(raw & 0x0FFF_FFFF == raw % 0x1000_0000) by (bit_vector);
    }
    if masked == 0 {
        ClusterValue::Free
    } else if masked == 0x0FFF_FFF7 {
        ClusterValue::Bad
    } else if masked >= 0x0FFF_FFF8 {
        ClusterValue::Last
    } else {
        ClusterValue::Next(masked)
    }
}

/// Two byte runs that agree on the whole table region decode to the same
/// table.
pub proof fn lemma_fat_view_agree(ft: FatType, a: Seq<u8>, b: Seq<u8>, base: int, cc: int)
    requires
        a.len() == b.len(),
        0 <= base,
        0 <= cc,
        base + fat_needed_bytes(ft, cc) <= a.len(),
        forall|j: int| base <= j < base + fat_needed_bytes(ft, cc) ==> a[j] == b[j],
    ensures
        spec_fat_view(ft, a, base, cc) == spec_fat_view(ft, b, base, cc),
{
    assert forall|c: int| 0 <= c < cc implies spec_fat_entry(ft, a, base, c) == spec_fat_entry(
        ft,
        b,
        base,
        c,
    ) by {
        assert(fat_entry_index(ft, c) + fat_entry_width(ft) <= fat_needed_bytes(ft, cc));
    }
    assert(spec_fat_view(ft, a, base, cc) =~= spec_fat_view(ft, b, base, cc));
}

/// The windows of two distinct entries touch no common byte, except the
/// shared middle byte of a FAT12 pair.
pub proof fn lemma_fat_index_separation(ft: FatType, c: int, d: int)
    requires
        0 <= c,
        0 <= d,
        c != d,
    ensures
        d < c ==> fat_entry_index(ft, d) + fat_entry_width(ft) <= fat_entry_index(ft, c) + (
        if ft == FatType::Fat12 && d + 1 == c && c % 2 == 1 {
            1int
        } else {
            0int
        }),
        d > c ==> fat_entry_index(ft, c) + fat_entry_width(ft) <= fat_entry_index(ft, d) + (
        if ft == FatType::Fat12 && c + 1 == d && d % 2 == 1 {
            1int
        } else {
            0int
        }),
{
}

/// A write confined to the window of entry `c` — and preserving the shared
/// nibble when the variant is FAT12 — leaves the decode of every other entry
/// as it was.
pub proof fn lemma_fat_entry_frame(
    ft: FatType,
    old_bytes: Seq<u8>,
    new_bytes: Seq<u8>,
    base: int,
    cc: int,
    c: int,
)
    requires
        old_bytes.len() == new_bytes.len(),
        0 <= base,
        0 <= c < cc,
        base + fat_needed_bytes(ft, cc) <= old_bytes.len(),
        forall|j: int|
            base <= j < base + fat_needed_bytes(ft, cc) && !(base + fat_entry_index(ft, c) <= j
                < base + fat_entry_index(ft, c) + fat_entry_width(ft)) ==> new_bytes[j]
                == old_bytes[j],
        ft == FatType::Fat12 && c % 2 == 0 ==> new_bytes[base + fat_entry_index(ft, c) + 1] / 16
            == old_bytes[base + fat_entry_index(ft, c) + 1] / 16,
        ft == FatType::Fat12 && c % 2 == 1 ==> new_bytes[base + fat_entry_index(ft, c)] % 16
            == old_bytes[base + fat_entry_index(ft, c)] % 16,
    ensures
        forall|d: int|
            0 <= d < cc && d != c ==> #[trigger] spec_fat_entry(ft, new_bytes, base, d)
                == spec_fat_entry(ft, old_bytes, base, d),
{
    assert forall|d: int| 0 <= d < cc && d != c implies #[trigger] spec_fat_entry(
        ft,
        new_bytes,
        base,
        d,
    ) == spec_fat_entry(ft, old_bytes, base, d) by {
        lemma_fat_index_separation(ft, c, d);
        lemma_fat_index_separation(ft, d, c);
        let i = base + fat_entry_index(ft, c);
        let j = base + fat_entry_index(ft, d);
        assert(fat_entry_index(ft, d) + fat_entry_width(ft) <= fat_needed_bytes(ft, cc)) by {
            assert(d / 2 <= cc / 2);
        }
        if ft == FatType::Fat12 {
            if d + 1 == c && c % 2 == 1 {
                // the window of `d` ends at our first byte, whose low nibble
                // is the high part of `d`'s value and was preserved
                assert(j + 1 == i);
                assert(new_bytes[j] == old_bytes[j]);
                assert(d % 2 == 0);
                assert(new_bytes[i] % 16 == old_bytes[i] % 16);
            } else if c + 1 == d && d % 2 == 1 {
                // the window of `d` starts at our last byte, whose high
                // nibble is the low part of `d`'s value and was preserved
                assert(j == i + 1);
                assert(new_bytes[j] / 16 == old_bytes[j] / 16);
                assert(new_bytes[j + 1] == old_bytes[j + 1]);
            } else {
                assert(new_bytes[j] == old_bytes[j]);
                assert(new_bytes[j + 1] == old_bytes[j + 1]);
            }
        } else {
            assert(new_bytes[j] == old_bytes[j]);
            assert(new_bytes[j + 1] == old_bytes[j + 1]);
            if ft == FatType::Fat32 {
                assert(new_bytes[j + 2] == old_bytes[j + 2]);
                assert(new_bytes[j + 3] == old_bytes[j + 3]);
            }
        }
    }
}

/// The set/get round trip at the level of the decoded table: writing an
/// entry and reading it back yields the value written, and — as the FAT12
/// read-modify-write must guarantee — no other entry, neighbours included,
/// has moved.  The table writer's contract produces exactly this update of
/// the decoded table, and the reader returns exactly the entry asked for.
pub proof fn lemma_table_set_get(fat: Seq<ClusterValue>, c: int, value: ClusterValue)
    requires
        0 <= c < fat.len(),
    ensures
        fat.update(c, value)[c] == value,
        forall|d: int| 0 <= d < fat.len() && d != c ==> fat.update(c, value)[d] == fat[d],
{
}

} // verus!
