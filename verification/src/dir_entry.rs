//! The 32-byte short directory entry: its 8.3 name field, attributes, size
//! and starting cluster, the checksum that binds long-filename records to it,
//! and the reconstruction of the stored name for comparisons.

use vstd::prelude::*;

use crate::stream::Stream;
use crate::Error;
use crate::FileSystem;

verus! {

pub const DIR_ENTRY_SIZE: usize = 32;

pub const ATTR_READ_ONLY: u8 = 0x01;

pub const ATTR_HIDDEN: u8 = 0x02;

pub const ATTR_SYSTEM: u8 = 0x04;

pub const ATTR_VOLUME_ID: u8 = 0x08;

pub const ATTR_DIRECTORY: u8 = 0x10;

pub const ATTR_ARCHIVE: u8 = 0x20;

/// First byte of a removed entry.
pub const REMOVED_ENTRY: u8 = 0xE5;

/// First byte of a free entry that also ends the directory.
pub const FREE_ENTRY: u8 = 0x00;

/// ASCII lowercase letters shift to uppercase; every other byte passes.
pub open spec fn spec_upper(b: u8) -> u8 {
    if 0x61 <= b <= 0x7A {
        (b - 0x20) as u8
    } else {
        b
    }
}

/// The position of the last dot of `name`, or -1 when it has none.
pub open spec fn last_dot(name: Seq<u8>) -> int
    decreases name.len(),
{
    if name.len() == 0 {
        -1
    } else if name.last() == 0x2E {
        name.len() - 1
    } else {
        last_dot(name.drop_last())
    }
}

/// `s` uppercased and padded with spaces, cut to `n` bytes.
pub open spec fn pad_upper(s: Seq<u8>, n: int) -> Seq<u8> {
    Seq::new(
        n as nat,
        |i: int|
            if i < s.len() {
                spec_upper(s[i])
            } else {
                0x20
            },
    )
}

/// The 11-byte 8.3 name field stored for `name`: files split at the last
/// dot into a base and an extension, directories store the whole name.
pub open spec fn spec_short_name(name: Seq<u8>, is_file: bool) -> Seq<u8> {
    if is_file && last_dot(name) >= 0 {
        pad_upper(name.take(last_dot(name)), 8) + pad_upper(name.skip(last_dot(name) + 1), 3)
    } else {
        pad_upper(name, 8) + pad_upper(Seq::empty(), 3)
    }
}

/// One step of the short-name checksum: an unsigned rotate right, then the
/// next byte added, modulo 256.
pub open spec fn spec_checksum_step(cs: u8, b: u8) -> u8 {
    (((if cs % 2 == 1 {
        0x80int
    } else {
        0int
    }) + cs / 2 + b) % 256) as u8
}

/// The checksum of the first `n` bytes.
pub open spec fn spec_checksum_up_to(s: Seq<u8>, n: int) -> u8
    decreases n,
{
    if n <= 0 {
        0
    } else {
        spec_checksum_step(spec_checksum_up_to(s, n - 1), s[n - 1])
    }
}

/// The checksum of an 11-byte short name, stored in every long-filename
/// record that belongs to it.
pub open spec fn spec_checksum(s: Seq<u8>) -> u8 {
    spec_checksum_up_to(s, 11)
}

/// The short-name checksum of the first eleven bytes of `buf`.
pub fn checksum(buf: &[u8]) -> (r: u8)
    requires
        buf@.len() >= 11,
    ensures
        r == spec_checksum(buf@),
{
    let mut cs: u8 = 0;
    let mut i: usize = 0;
    while i < 11
        invariant
            i <= 11,
            buf@.len() >= 11,
            cs == spec_checksum_up_to(buf@, i as int),
        decreases 11 - i,
    {
        let high: u32 = if cs % 2 == 1 {
            0x80
        } else {
            0
        };
        let sum: u32 = high + (cs / 2) as u32 + buf[i] as u32;
        cs = (sum % 256) as u8;
        i = i + 1;
    }
    cs
}

/// The attribute byte marks a file when neither the volume-label nor the
/// directory bit is set.
pub open spec fn spec_is_file(attr: u8) -> bool {
    attr & (ATTR_VOLUME_ID | ATTR_DIRECTORY) == 0
}

/// The attribute byte marks a directory when exactly the directory bit of
/// the two is set.
pub open spec fn spec_is_dir(attr: u8) -> bool {
    attr & (ATTR_VOLUME_ID | ATTR_DIRECTORY) == ATTR_DIRECTORY
}

/// The starting cluster stored in a raw entry, low half at byte 26, high
/// half at byte 20, both little-endian.
pub open spec fn spec_entry_cluster(raw: Seq<u8>) -> int {
    crate::bytes::spec_le16(raw[26], raw[27]) + 0x1_0000 * crate::bytes::spec_le16(
        raw[20],
        raw[21],
    )
}

/// The file size stored in a raw entry at byte 28, little-endian.
pub open spec fn spec_entry_size(raw: Seq<u8>) -> int {
    crate::bytes::spec_le32(raw[28], raw[29], raw[30], raw[31])
}

/// Where the first space — the name-field padding — begins.
pub open spec fn until_space(s: Seq<u8>) -> int
    decreases s.len(),
{
    if s.len() == 0 {
        0
    } else if s[0] == 0x20 {
        0
    } else {
        1 + until_space(s.skip(1))
    }
}

/// The name a raw entry displays: the base up to its padding, then a dot and
/// the extension when a file has one.
pub open spec fn spec_entry_name(name11: Seq<u8>, is_file: bool) -> Seq<u8> {
    let base = name11.take(8);
    let ext = name11.subrange(8, 11);
    base.take(until_space(base)) + (if is_file && name11[8] != 0x20 {
        seq![0x2Eu8]
    } else {
        Seq::empty()
    }) + ext.take(until_space(ext))
}

/// Builds the raw 32 bytes of a fresh short entry: the 8.3 name field, the
/// attribute byte, fixed timestamps, the starting cluster, and size zero.
pub fn create_raw(name: &[u8], is_file: bool, cluster: u32) -> (r: Result<Vec<u8>, Error>)
    ensures
        (match r {
            Ok(v) => {
                &&& v@.len() == 32
                &&& v@.subrange(0, 11) == spec_short_name(name@, is_file)
                &&& v@[11] == if is_file {
                    0u8
                } else {
                    ATTR_DIRECTORY
                }
                &&& spec_entry_cluster(v@) == cluster
                &&& spec_entry_size(v@) == 0
                &&& spec_is_file(v@[11]) == is_file
                &&& spec_is_dir(v@[11]) == !is_file
                &&& v@[0] == spec_short_name(name@, is_file)[0]
            },
            Err(_) => false,
        }),
{
    let mut raw: Vec<u8> = crate::bytes::zero_vec(32);
    let mut i: usize = 0;
    // space-fill the name field
    while i < 11
        invariant
            i <= 11,
            raw@.len() == 32,
            forall|k: int| 0 <= k < i ==> raw@[k] == 0x20,
            forall|k: int| i <= k < 32 ==> raw@[k] == 0,
        decreases 11 - i,
    {
        raw[i] = 0x20;
        i = i + 1;
    }
    // fixed creation, access and write timestamps
    raw[14] = 0xB6;
    raw[15] = 0x3C;
    raw[16] = 0x4D;
    raw[17] = 0x46;
    raw[18] = 0x4D;
    raw[19] = 0x46;
    raw[22] = 0xB6;
    raw[23] = 0x3C;
    raw[24] = 0x4D;
    raw[25] = 0x46;
    raw[20] = ((cluster >> 16) & 0xFF) as u8;
    raw[21] = ((cluster >> 24) & 0xFF) as u8;
    raw[26] = (cluster & 0xFF) as u8;
    raw[27] = ((cluster >> 8) & 0xFF) as u8;
    if !is_file {
        raw[11] = ATTR_DIRECTORY;
    }
    proof {
        assert((cluster & 0xFF) + 0x100 * ((cluster >> 8) & 0xFF) + 0x1_0000 * ((cluster >> 16)
            & 0xFF) + 0x100_0000 * ((cluster >> 24) & 0xFF) == cluster && (cluster & 0xFF) < 0x100
            && ((cluster >> 8) & 0xFF) < 0x100 && ((cluster >> 16) & 0xFF) < 0x100 && ((cluster
            >> 24) & 0xFF) < 0x100) by (bit_vector);
    }
    // the name: a file splits at the last dot, a directory copies whole
    let total: usize = name.len();
    let dot = find_last_dot(name);
    let ghost spec_base_len: int = if is_file && last_dot(name@) >= 0 {
        last_dot(name@)
    } else {
        name@.len() as int
    };
    let base_len: usize = match dot {
        Some(d) => if is_file {
            d
        } else {
            name.len()
        },
        None => name.len(),
    };
    let mut i: usize = 0;
    while i < 8 && i < base_len
        invariant
            raw@.len() == 32,
            i <= 8,
            i <= base_len,
            name@.len() == total,
            base_len == spec_base_len,
            spec_base_len <= name@.len(),
            forall|k: int| 0 <= k < i ==> raw@[k] == spec_upper(name@[k]),
            forall|k: int| i <= k < 11 ==> raw@[k] == 0x20,
            tail_fixed(raw@, is_file, cluster),
        decreases 8 - i,
    {
        raw[i] = upper(name[i]);
        i = i + 1;
    }
    let ghost base_copied = i as int;
    if is_file {
        if let Some(d) = dot {
            let nlen = name.len();
            let ext_start = d + 1;
            let ext_len = nlen - ext_start;
            let mut k: usize = 0;
            while k < 3 && k < ext_len
                invariant
                    raw@.len() == 32,
                    k <= 3,
                    k <= ext_len,
                    is_file,
                    name@.len() == total,
                    0 <= base_copied,
                    ext_start == last_dot(name@) + 1,
                    ext_start <= name@.len(),
                    ext_len == name@.len() - ext_start,
                    base_copied <= 8,
                    forall|t: int| 0 <= t < base_copied ==> raw@[t] == spec_upper(name@[t]),
                    forall|t: int| base_copied <= t < 8 ==> raw@[t] == 0x20,
                    forall|t: int|
                        0 <= t < k ==> (#[trigger] raw@[8 + t]) == spec_upper(
                            name@[ext_start + t],
                        ),
                    forall|t: int| k <= t < 3 ==> (#[trigger] raw@[8 + t]) == 0x20,
                    tail_fixed(raw@, is_file, cluster),
                decreases 3 - k,
            {
                raw[8 + k] = upper(name[ext_start + k]);
                k = k + 1;
            }
        }
    }
    proof {
        let sn = spec_short_name(name@, is_file);
        let base_src: Seq<u8> = if is_file && last_dot(name@) >= 0 {
            name@.take(last_dot(name@))
        } else {
            name@
        };
        let ext_src: Seq<u8> = if is_file && last_dot(name@) >= 0 {
            name@.skip(last_dot(name@) + 1)
        } else {
            Seq::empty()
        };
        assert(sn == pad_upper(base_src, 8) + pad_upper(ext_src, 3));
        assert(base_src.len() == spec_base_len);
        assert forall|t: int| 0 <= t < 11 implies raw@[t] == sn[t] by {
            if t < 8 {
                assert(sn[t] == pad_upper(base_src, 8)[t]);
                if t < base_src.len() {
                    assert(base_src[t] == name@[t]);
                    if t < base_copied {
                        assert(raw@[t] == spec_upper(name@[t]));
                    } else {
                        assert(t < 8 && t < spec_base_len);
                        assert(base_copied == 8 || base_copied == spec_base_len);
                        assert(false);
                    }
                } else {
                    assert(t >= base_copied);
                    assert(raw@[t] == 0x20);
                }
            } else {
                assert(sn[t] == pad_upper(ext_src, 3)[t - 8]);
                if is_file && last_dot(name@) >= 0 {
                    if t - 8 < ext_src.len() {
                        assert(ext_src[t - 8] == name@[last_dot(name@) + 1 + (t - 8)]);
                        assert(raw@[8 + (t - 8)] == spec_upper(
                            name@[last_dot(name@) + 1 + (t - 8)],
                        ));
                    } else {
                        assert(raw@[8 + (t - 8)] == 0x20);
                    }
                    assert(raw@[t] == raw@[8 + (t - 8)]);
                } else {
                    assert(ext_src.len() == 0);
                    assert(raw@[t] == 0x20);
                }
            }
        }
        assert(raw@.subrange(0, 11) =~= spec_short_name(name@, is_file));
        assert(spec_is_file(raw@[11]) == is_file && spec_is_dir(raw@[11]) == !is_file) by {
            if is_file {
                assert(0u8 & (ATTR_VOLUME_ID | ATTR_DIRECTORY) == 0) by (bit_vector);
            } else {
                assert(0x10u8 & (0x08u8 | 0x10u8) == 0x10u8 && 0x10u8 != 0) by (bit_vector);
            }
        }
    }
    Ok(raw)
}

/// The bytes of the record outside the name field that the name loops must
/// preserve: the attribute byte, the cluster and the size.
pub open spec fn tail_fixed(raw: Seq<u8>, is_file: bool, cluster: u32) -> bool {
    &&& raw[11] == (if is_file {
        0u8
    } else {
        ATTR_DIRECTORY
    })
    &&& spec_entry_cluster(raw) == cluster
    &&& spec_entry_size(raw) == 0
}

/// ASCII uppercase of one byte.
pub fn upper(b: u8) -> (r: u8)
    ensures
        r == spec_upper(b),
{
    if b >= 0x61 && b <= 0x7A {
        b - 0x20
    } else {
        b
    }
}

/// The position of the last dot of `name`, when it has one.
pub fn find_last_dot(name: &[u8]) -> (r: Option<usize>)
    ensures
        (match r {
            Some(d) => d == last_dot(name@) && d < name@.len() && name@[d as int] == 0x2E,
            None => last_dot(name@) == -1,
        }),
{
    let mut i: usize = name.len();
    proof {
        assert(name@.take(name@.len() as int) =~= name@);
    }
    while i > 0
        invariant
            i <= name@.len(),
            last_dot(name@) == last_dot(name@.take(i as int)),
        decreases i,
    {
        proof {
            assert(name@.take(i as int).drop_last() =~= name@.take(i as int - 1));
            assert(name@.take(i as int).last() == name@[i - 1]);
        }
        if name[i - 1] == 0x2E {
            proof {
                lemma_last_dot_in_range(name@.take(i as int));
            }
            return Some(i - 1);
        }
        i = i - 1;
    }
    proof {
        assert(name@.take(0) =~= Seq::<u8>::empty());
    }
    None
}

/// The last dot of a sequence lies inside it, on a dot byte.
pub proof fn lemma_last_dot_in_range(name: Seq<u8>)
    ensures
        -1 <= last_dot(name) < name.len(),
        last_dot(name) >= 0 ==> name[last_dot(name)] == 0x2E,
    decreases name.len(),
{
    if name.len() > 0 && name.last() != 0x2E {
        lemma_last_dot_in_range(name.drop_last());
    }
}

/// The padding starts exactly where the spaces do.
pub proof fn lemma_until_space_of(s: Seq<u8>, n: int)
    requires
        0 <= n <= s.len(),
        forall|k: int| 0 <= k < n ==> s[k] != 0x20,
        n < s.len() ==> s[n] == 0x20,
    ensures
        until_space(s) == n,
    decreases s.len(),
{
    if s.len() > 0 && s[0] != 0x20 {
        assert(forall|k: int| 0 <= k < s.skip(1).len() ==> s.skip(1)[k] == s[k + 1]);
        lemma_until_space_of(s.skip(1), n - 1);
    }
}

/// A short directory entry held in memory: its raw 32 bytes, the position of
/// the record on disk, and the position of the first long-filename record in
/// front of it, when one belongs to it.
pub struct DirEntry {
    raw: Vec<u8>,
    stream: Stream,
    lfn_pos: Option<Stream>,
}

impl DirEntry {
    /// The raw 32 bytes.
    pub closed spec fn spec_raw(&self) -> Seq<u8> {
        self.raw@
    }

    /// The on-disk position of the record.
    pub closed spec fn spec_stream(&self) -> Stream {
        self.stream
    }

    /// The on-disk position of the first long-filename record, if any.
    pub closed spec fn spec_lfn_pos(&self) -> Option<Stream> {
        self.lfn_pos
    }

    /// An entry always holds exactly one record.
    pub closed spec fn wf(&self) -> bool {
        self.raw@.len() == 32
    }

    /// Wraps raw record bytes read from a directory.  A long-filename
    /// position is kept only when its checksum matches the stored name.
    pub fn from_raw_data(data: Vec<u8>, stream: Stream, lfn: Option<(Stream, u8)>) -> (r: Result<
        DirEntry,
        Error,
    >)
        requires
            data@.len() == 32,
        ensures
            (match r {
                Ok(e) => {
                    &&& e.wf()
                    &&& e.spec_raw() == data@
                    &&& e.spec_stream() == stream
                    &&& e.spec_lfn_pos() == (match lfn {
                        Some((pos, crc)) => if spec_checksum(data@) == crc {
                            Some(pos)
                        } else {
                            None::<Stream>
                        },
                        None => None::<Stream>,
                    })
                },
                Err(_) => false,
            }),
    {
        let mut lfn_pos: Option<Stream> = None;
        match lfn {
            Some((pos, crc)) => {
                if checksum(data.as_slice()) == crc {
                    lfn_pos = Some(pos);
                }
            },
            None => {},
        }
        Ok(DirEntry { raw: data, stream, lfn_pos })
    }

    /// Whether the entry names a file: neither volume label nor directory.
    pub fn is_file(&self) -> (r: bool)
        requires
            self.wf(),
        ensures
            r == spec_is_file(self.spec_raw()[11]),
    {
        self.raw[11] & (ATTR_VOLUME_ID | ATTR_DIRECTORY) == 0x00
    }

    /// Whether the entry names a directory.
    pub fn is_dir(&self) -> (r: bool)
        requires
            self.wf(),
        ensures
            r == spec_is_dir(self.spec_raw()[11]),
    {
        self.raw[11] & (ATTR_VOLUME_ID | ATTR_DIRECTORY) == ATTR_DIRECTORY
    }

    /// The stored file size.
    pub fn size(&self) -> (r: u32)
        requires
            self.wf(),
        ensures
            r == spec_entry_size(self.spec_raw()),
    {
        crate::bytes::le32(self.raw[28], self.raw[29], self.raw[30], self.raw[31])
    }

    /// Stores a new file size; every other byte keeps its value.
    pub fn set_size(&mut self, size: u32)
        requires
            old(self).wf(),
        ensures
            final(self).wf(),
            spec_entry_size(final(self).spec_raw()) == size,
            final(self).spec_raw().subrange(0, 28) == old(self).spec_raw().subrange(0, 28),
            final(self).spec_stream() == old(self).spec_stream(),
            final(self).spec_lfn_pos() == old(self).spec_lfn_pos(),
            final(self).spec_raw().len() == 32,
    {
        proof {
            assert((size & 0xFF) + 0x100 * ((size >> 8) & 0xFF) + 0x1_0000 * ((size >> 16) & 0xFF)
                + 0x100_0000 * ((size >> 24) & 0xFF) == size && (size & 0xFF) < 0x100 && ((size
                >> 8) & 0xFF) < 0x100 && ((size >> 16) & 0xFF) < 0x100 && ((size >> 24) & 0xFF)
                < 0x100) by (bit_vector);
        }
        self.raw[28] = (size & 0xFF) as u8;
        self.raw[29] = ((size >> 8) & 0xFF) as u8;
        self.raw[30] = ((size >> 16) & 0xFF) as u8;
        self.raw[31] = ((size >> 24) & 0xFF) as u8;
        proof {
            assert(final(self).spec_raw().subrange(0, 28) =~= old(self).spec_raw().subrange(
                0,
                28,
            ));
        }
    }

    /// The starting cluster of the entry's chain.
    pub fn cluster(&self) -> (r: u32)
        requires
            self.wf(),
        ensures
            r == spec_entry_cluster(self.spec_raw()),
    {
        let l = crate::bytes::le16(self.raw[26], self.raw[27]);
        let h = crate::bytes::le16(self.raw[20], self.raw[21]);
        l + 0x1_0000 * h
    }

    /// The stored name put back together: base, a dot for a file with an
    /// extension, then the extension.
    pub fn name(&self) -> (r: Vec<u8>)
        requires
            self.wf(),
        ensures
            r@ == spec_entry_name(self.spec_raw().subrange(0, 11), spec_is_file(self.spec_raw()[11])),
    {
        let ghost field = self.spec_raw().subrange(0, 11);
        let ghost base = field.take(8);
        let ghost ext = field.subrange(8, 11);
        let mut out: Vec<u8> = Vec::new();
        let mut i: usize = 0;
        while i < 8 && self.raw[i] != 0x20
            invariant
                self.wf(),
                i <= 8,
                base == self.spec_raw().subrange(0, 11).take(8),
                forall|k: int| 0 <= k < i ==> base[k] != 0x20,
                out@ == base.take(i as int),
            decreases 8 - i,
        {
            out.push(self.raw[i]);
            proof {
                assert(out@ =~= base.take(i + 1));
            }
            i = i + 1;
        }
        proof {
            lemma_until_space_of(base, i as int);
            assert(out@ =~= base.take(until_space(base)));
        }
        let is_file = self.is_file();
        if is_file && self.raw[8] != 0x20 {
            out.push(0x2E);
        }
        let ghost mid = out@;
        let mut k: usize = 0;
        while k < 3 && self.raw[8 + k] != 0x20
            invariant
                self.wf(),
                k <= 3,
                ext == self.spec_raw().subrange(0, 11).subrange(8, 11),
                forall|t: int| 0 <= t < k ==> ext[t] != 0x20,
                out@ == mid + ext.take(k as int),
            decreases 3 - k,
        {
            out.push(self.raw[8 + k]);
            proof {
                assert(out@ =~= mid + ext.take(k + 1));
            }
            k = k + 1;
        }
        proof {
            lemma_until_space_of(ext, k as int);
            assert(out@ =~= spec_entry_name(field, spec_is_file(self.spec_raw()[11])));
        }
        out
    }

    /// Whether `name` is byte for byte the stored name.
    pub fn compare(&self, name: &[u8]) -> (r: bool)
        requires
            self.wf(),
        ensures
            r == (name@ == spec_entry_name(
                self.spec_raw().subrange(0, 11),
                spec_is_file(self.spec_raw()[11]),
            )),
    {
        let stored = self.name();
        if name.len() != stored.len() {
            proof {
                assert(name@.len() != stored@.len());
                assert(name@ != stored@);
            }
            return false;
        }
        let mut i: usize = 0;
        while i < stored.len()
            invariant
                self.wf(),
                stored@ == spec_entry_name(
                    self.spec_raw().subrange(0, 11),
                    spec_is_file(self.spec_raw()[11]),
                ),
                name@.len() == stored@.len(),
                i <= stored@.len(),
                forall|k: int| 0 <= k < i ==> name@[k] == stored@[k],
            decreases stored@.len() - i,
        {
            if name[i] != stored[i] {
                proof {
                    assert(name@ != stored@);
                }
                return false;
            }
            i = i + 1;
        }
        proof {
            assert(name@ =~= stored@);
        }
        true
    }

    /// Writes the record back to its on-disk position.
    pub fn flush<F: FileSystem>(&self, fs: &mut F) -> (r: Result<(), Error>)
        requires
            old(fs).inv(),
            self.wf(),
            self.spec_stream().spec_offset() <= old(fs).spec_cluster_size(),
        ensures
            final(fs).inv(),
            final(fs).spec_root_cluster() == old(fs).spec_root_cluster(),
            final(fs).spec_cluster_count() == old(fs).spec_cluster_count(),
            final(fs).spec_cluster_size() == old(fs).spec_cluster_size(),
            forall|d: u32| final(fs).spec_valid_cluster(d) == old(fs).spec_valid_cluster(d),
            (match r {
                Ok(()) => (crate::stream::stream_ok(&*old(fs), self.spec_stream()) ==> {
                    let s = crate::fat_table::chain(
                        old(fs).fat(),
                        self.spec_stream().spec_cluster(),
                    ).unwrap();
                    let s2 = crate::fat_table::chain(
                        final(fs).fat(),
                        self.spec_stream().spec_cluster(),
                    ).unwrap();
                    &&& crate::fat_table::chain(
                        final(fs).fat(),
                        self.spec_stream().spec_cluster(),
                    ) is Some
                    &&& crate::stream::chain_bytes(&*final(fs), s2) == crate::bytes::seq_write(
                        crate::stream::chain_bytes(&*old(fs), s) + crate::bytes::zeros(
                            ((s2.len() - s.len()) * old(fs).spec_cluster_size()) as nat,
                        ),
                        self.spec_stream().spec_offset(),
                        self.spec_raw(),
                    )
                    &&& s2.len() == crate::stream::grown_len(
                        s.len() as int,
                        self.spec_stream().spec_offset() + 32,
                        old(fs).spec_cluster_size() as int,
                    )
                    &&& (s2.len() == s.len() ==> final(fs).fat() == old(fs).fat())
                    &&& (forall|d: u32|
                        d < old(fs).spec_cluster_count() && !crate::fat_table::chain(
                            final(fs).fat(),
                            self.spec_stream().spec_cluster(),
                        ).unwrap().contains(d) ==> (#[trigger] final(fs).fat()[d as int])
                            == old(fs).fat()[d as int])
                    &&& (forall|d: u32|
                        old(fs).spec_valid_cluster(d) && !crate::fat_table::chain(
                            final(fs).fat(),
                            self.spec_stream().spec_cluster(),
                        ).unwrap().contains(d) ==> (#[trigger] final(fs).data(d as int))
                            == old(fs).data(d as int))
                }),
                Err(e) => {
                    &&& (e == Error::UnexpectedClusterValue || e == Error::DeviceIO || e
                        == Error::InvalidClusterNumber || e == Error::NoFreeCluster)
                    &&& (crate::stream::stream_ok(&*old(fs), self.spec_stream()) ==> e
                        != Error::UnexpectedClusterValue)
                },
            }),
    {
        let mut stream = self.stream;
        match stream.write(fs, self.raw.as_slice()) {
            Ok(_) => Ok(()),
            Err(e) => Err(e),
        }
    }

    /// Marks the record — and every long-filename record in front of it —
    /// removed, by writing the removal sentinel into their first bytes.
    pub fn remove<F: FileSystem>(self, fs: &mut F) -> (r: Result<(), Error>)
        requires
            old(fs).inv(),
            self.wf(),
            self.spec_stream().spec_offset() <= old(fs).spec_cluster_size(),
            (self.spec_lfn_pos() matches Some(p) ==> p.spec_offset() <= old(
                fs,
            ).spec_cluster_size()),
        ensures
            final(fs).inv(),
            final(fs).spec_root_cluster() == old(fs).spec_root_cluster(),
            final(fs).spec_cluster_count() == old(fs).spec_cluster_count(),
            final(fs).spec_cluster_size() == old(fs).spec_cluster_size(),
            forall|d: u32| final(fs).spec_valid_cluster(d) == old(fs).spec_valid_cluster(d),
            (match r {
                Ok(()) => (self.spec_lfn_pos() is None && crate::stream::stream_ok(
                    &*old(fs),
                    self.spec_stream(),
                ) ==> (self.spec_stream().spec_offset() + 32 <= old(fs).spec_cluster_size()
                    ==> final(fs).fat() == old(fs).fat()) && {
                    let st = self.spec_stream();
                    let s = crate::fat_table::chain(old(fs).fat(), st.spec_cluster()).unwrap();
                    let s2 = crate::fat_table::chain(final(fs).fat(), st.spec_cluster()).unwrap();
                    &&& crate::fat_table::chain(final(fs).fat(), st.spec_cluster()) is Some
                    &&& crate::stream::chain_bytes(&*final(fs), s2) == crate::bytes::seq_write(
                        crate::stream::chain_bytes(&*old(fs), s) + crate::bytes::zeros(
                            ((s2.len() - s.len()) * old(fs).spec_cluster_size()) as nat,
                        ),
                        st.spec_offset(),
                        self.spec_raw().update(0, REMOVED_ENTRY),
                    )
                }),
                Err(e) => e == Error::UnexpectedClusterValue || e == Error::DeviceIO || e
                    == Error::InvalidClusterNumber || e == Error::NoFreeCluster || e
                    == Error::UnexpectedEndOfFile,
            }),
    {
        let mut entry = self;
        match entry.lfn_pos {
            Some(pos) => {
                let mut lfn_pos = pos;
                // a long name spans at most twenty records; walking further
                // means the recorded positions are unusable
                let mut guard: usize = 0;
                while guard < 21
                    invariant
                        fs.inv(),
                        fs.spec_root_cluster() == old(fs).spec_root_cluster(),
                        fs.spec_cluster_count() == old(fs).spec_cluster_count(),
                        fs.spec_cluster_size() == old(fs).spec_cluster_size(),
                        forall|d: u32|
                            fs.spec_valid_cluster(d) == old(fs).spec_valid_cluster(d),
                        lfn_pos.spec_offset() <= fs.spec_cluster_size(),
                        entry.wf(),
                        entry.spec_stream().spec_offset() <= fs.spec_cluster_size(),
                    decreases 21 - guard,
                {
                    if lfn_pos.is_equal(&entry.stream) {
                        break;
                    }
                    // mark only the record's first byte; the rest survives
                    let mut probe = lfn_pos;
                    let mut rec = match probe.read(fs, 32) {
                        Ok(v) => v,
                        Err(e) => {
                            return Err(e);
                        },
                    };
                    if rec.len() < 32 {
                        return Err(Error::UnexpectedEndOfFile);
                    }
                    rec[0] = REMOVED_ENTRY;
                    match lfn_pos.write(fs, rec.as_slice()) {
                        Ok(_) => {},
                        Err(e) => {
                            return Err(e);
                        },
                    }
                    guard = guard + 1;
                }
                if !lfn_pos.is_equal(&entry.stream) {
                    return Err(Error::UnexpectedEndOfFile);
                }
            },
            None => {},
        }
        entry.raw[0] = REMOVED_ENTRY;
        proof {
            assert(entry.spec_raw() =~= self.spec_raw().update(0, REMOVED_ENTRY));
        }
        let r = entry.flush(fs);
        proof {
            // a record rewritten inside its cluster grows no chain
            if r is Ok && self.spec_lfn_pos() is None && crate::stream::stream_ok(
                &*old(fs),
                self.spec_stream(),
            ) && self.spec_stream().spec_offset() + 32 <= old(fs).spec_cluster_size() {
                let st = self.spec_stream();
                let s = crate::fat_table::chain(old(fs).fat(), st.spec_cluster()).unwrap();
                crate::fat_table::lemma_chain_rec_props(
                    old(fs).fat(),
                    st.spec_cluster(),
                    (old(fs).fat().len() + 1) as nat,
                    s,
                );
                let cs0 = old(fs).spec_cluster_size() as int;
                let off0 = st.spec_offset();
                assert(off0 + 32 <= s.len() * cs0) by (nonlinear_arith)
                    requires
                        s.len() >= 1,
                        off0 + 32 <= cs0,
                        cs0 >= 0,
                ;
            }
        }
        r
    }
}

/// Writing a fresh file entry and reading its name back yields the name in
/// its uppercased 8.3 form: the stored field splits base and extension at
/// the last dot, and the reconstruction joins them again.
pub proof fn lemma_create_name_round_trip(name: Seq<u8>)
    requires
        ({
            let d = last_dot(name);
            if d >= 0 {
                1 <= d <= 8 && 1 <= name.len() - d - 1 <= 3
            } else {
                1 <= name.len() <= 8
            }
        }),
        forall|i: int| 0 <= i < name.len() ==> name[i] != 0x20,
    ensures
        spec_entry_name(spec_short_name(name, true), true) == name.map_values(
            |b: u8| spec_upper(b),
        ),
{
    let d = last_dot(name);
    let up = name.map_values(|b: u8| spec_upper(b));
    lemma_last_dot_in_range(name);
    assert(forall|b: u8| spec_upper(b) == 0x20 ==> b == 0x20);
    if d >= 0 {
        let base = name.take(d);
        let ext = name.skip(d + 1);
        let field = pad_upper(base, 8) + pad_upper(ext, 3);
        assert(spec_short_name(name, true) == field);
        let f8 = field.take(8);
        let f3 = field.subrange(8, 11);
        assert(f8 =~= pad_upper(base, 8));
        assert(f3 =~= pad_upper(ext, 3));
        lemma_until_space_of(f8, base.len() as int);
        lemma_until_space_of(f3, ext.len() as int);
        assert(field[8] == spec_upper(ext[0]));
        assert(ext[0] != 0x20);
        assert(spec_entry_name(field, true) == f8.take(base.len() as int) + seq![0x2Eu8]
            + f3.take(ext.len() as int));
        assert(name[d] == 0x2E);
        assert(spec_entry_name(field, true) =~= up);
    } else {
        let field = pad_upper(name, 8) + pad_upper(Seq::empty(), 3);
        assert(spec_short_name(name, true) == field);
        let f8 = field.take(8);
        let f3 = field.subrange(8, 11);
        assert(f8 =~= pad_upper(name, 8));
        assert(f3 =~= pad_upper(Seq::empty(), 3));
        lemma_until_space_of(f8, name.len() as int);
        lemma_until_space_of(f3, 0);
        assert(field[8] == 0x20);
        assert(spec_entry_name(field, true) =~= up);
    }
}

/// Comparing an entry against the very name it was created with succeeds
/// whenever that name is already uppercase.  A lowercase name is stored
/// uppercased and no longer matches itself byte for byte.
pub proof fn lemma_compare_created(name: Seq<u8>)
    requires
        ({
            let d = last_dot(name);
            if d >= 0 {
                1 <= d <= 8 && 1 <= name.len() - d - 1 <= 3
            } else {
                1 <= name.len() <= 8
            }
        }),
        forall|i: int| 0 <= i < name.len() ==> name[i] != 0x20,
        forall|i: int| 0 <= i < name.len() ==> spec_upper(#[trigger] name[i]) == name[i],
    ensures
        spec_entry_name(spec_short_name(name, true), true) == name,
{
    lemma_create_name_round_trip(name);
    assert(name.map_values(|b: u8| spec_upper(b)) =~= name);
}

} // verus!
