//! The mounted volume: boot-sector parsing, the cluster-to-sector mapping,
//! and the codec that reads and writes file-allocation-table entries on the
//! device, every copy in lockstep.

use vstd::prelude::*;

use crate::block_device::BlockDevice;
use crate::bytes::le16;
use crate::bytes::le32;
use crate::bytes::seq_write;
use crate::bytes::spec_le16;
use crate::bytes::spec_le32;
use crate::fat_codec::decode12;
use crate::fat_codec::decode16;
use crate::fat_codec::decode32;
use crate::fat_codec::fat_entry_index;
use crate::fat_codec::fat_entry_width;
use crate::fat_codec::fat_needed_bytes;
use crate::fat_codec::lemma_fat_entry_frame;
use crate::fat_codec::spec_fat_entry;
use crate::fat_codec::spec_fat_view;
use crate::determine_fat_type_by_clusters_count;
use crate::spec_fat_type;
use crate::ClusterValue;
use crate::Error;
use crate::FatType;
use crate::FileSystem;
use vstd::arithmetic::div_mod::lemma_div_nonincreasing;
use vstd::arithmetic::div_mod::lemma_div_pos_is_pos;
use vstd::arithmetic::div_mod::lemma_fundamental_div_mod;
use vstd::arithmetic::div_mod::lemma_mod_bound;
use vstd::arithmetic::mul::lemma_mul_inequality;

verus! {

/// The immutable shape of a mounted volume, kept for specification purposes.
pub struct Geometry {
    pub root_cluster: u32,
    pub first_data_sector: u32,
    pub first_fat_table_sector: u32,
    pub sectors_in_cluster: u32,
    pub sector_size: u32,
    pub clusters_count: u32,
    pub fats_count: u32,
    pub fat_size_in_sectors: u32,
    pub fat_type: FatType,
    pub root_dir_sectors: u32,
}

/// A mounted FAT volume over a block device.
pub struct Fs<D: BlockDevice> {
    dev: D,
    root_cluster: u32,
    first_data_sector: u32,
    first_fat_table_sector: u32,
    sectors_in_cluster: u32,
    sector_size: u32,
    clusters_count: u32,
    fats_count: u32,
    fat_size_in_sectors: u32,
    fat_type: FatType,
    root_dir_sectors: u32,
}

impl<D: BlockDevice> Fs<D> {
    /// The geometry, as one value.
    pub closed spec fn geom(&self) -> Geometry {
        Geometry {
            root_cluster: self.root_cluster,
            first_data_sector: self.first_data_sector,
            first_fat_table_sector: self.first_fat_table_sector,
            sectors_in_cluster: self.sectors_in_cluster,
            sector_size: self.sector_size,
            clusters_count: self.clusters_count,
            fats_count: self.fats_count,
            fat_size_in_sectors: self.fat_size_in_sectors,
            fat_type: self.fat_type,
            root_dir_sectors: self.root_dir_sectors,
        }
    }

    /// The device content.
    pub closed spec fn spec_raw(&self) -> Seq<u8> {
        self.dev.bytes()
    }

    /// The byte address where table copy 0 starts.
    pub closed spec fn fat_base(&self) -> int {
        self.first_fat_table_sector * self.sector_size
    }

    /// The byte address where the table copies end and the root region and
    /// data clusters begin.
    pub closed spec fn fat_region_end(&self) -> int {
        (self.first_fat_table_sector + self.fats_count * self.fat_size_in_sectors)
            * self.sector_size
    }

    /// The size of one cluster in bytes.
    pub closed spec fn spec_csize(&self) -> nat {
        (self.sectors_in_cluster * self.sector_size) as nat
    }

    /// The first sector of cluster `c`; cluster 0 of a FAT12/16 volume is the
    /// fixed root-directory region just below the data area.
    pub closed spec fn spec_cluster_sector(&self, c: int) -> int {
        match self.fat_type {
            FatType::Fat32 => (c - self.root_cluster) * self.sectors_in_cluster
                + self.first_data_sector,
            _ => if c == 0 {
                self.first_data_sector - self.root_dir_sectors
            } else {
                (c - 2) * self.sectors_in_cluster + self.first_data_sector
            },
        }
    }

    /// The byte address where cluster `c` starts.
    pub closed spec fn cluster_base(&self, c: int) -> int {
        self.spec_cluster_sector(c) * self.sector_size
    }

    /// The decoded table, read from copy 0.
    pub closed spec fn spec_fat(&self) -> Seq<ClusterValue> {
        spec_fat_view(self.fat_type, self.spec_raw(), self.fat_base(), self.clusters_count as int)
    }

    /// The content of cluster `c`.
    pub closed spec fn spec_data(&self, c: int) -> Seq<u8> {
        self.spec_raw().subrange(
            self.cluster_base(c),
            self.cluster_base(c) + self.spec_csize(),
        )
    }

    /// The indices the cluster-to-sector mapping accepts.
    pub closed spec fn cluster_in_range(&self, c: u32) -> bool {
        match self.fat_type {
            FatType::Fat32 => self.root_cluster <= c < self.clusters_count,
            _ => c < self.clusters_count && (c == 0 || 2 <= c),
        }
    }

    /// Well-formedness: the device is sound, the geometry fields satisfy the
    /// equations of the format, the table region holds every entry, and the
    /// data area lies within the device.
    pub closed spec fn wf(&self) -> bool {
        &&& self.dev.inv()
        &&& self.sector_size == self.dev.spec_sector_size()
        &&& 512 <= self.sector_size < 0x1_0000
        &&& 1 <= self.sectors_in_cluster <= 255
        &&& 1 <= self.fats_count <= 255
        &&& 1 <= self.first_fat_table_sector < 0x1_0000
        &&& 1 <= self.fat_size_in_sectors
        &&& self.first_data_sector == self.first_fat_table_sector + self.fats_count
            * self.fat_size_in_sectors + self.root_dir_sectors
        &&& 1 <= self.clusters_count
        &&& self.fat_type == spec_fat_type(self.clusters_count)
        &&& (self.fat_type == FatType::Fat32 ==> 2 <= self.root_cluster < self.clusters_count
            && self.clusters_count < 0x0FFF_FFF7)
        &&& (self.fat_type != FatType::Fat32 ==> self.root_cluster == 0
            && self.root_dir_sectors >= self.sectors_in_cluster)
        &&& fat_needed_bytes(self.fat_type, self.clusters_count as int) <= self.fat_size_in_sectors
            * self.sector_size
        &&& self.first_data_sector + self.clusters_count * self.sectors_in_cluster
            <= self.spec_raw().len() as int / self.sector_size as int
    }

    /// Bounds that place every cluster inside the device and above the table
    /// region.
    proof fn lemma_cluster_bounds(&self, c: u32)
        requires
            self.wf(),
            self.cluster_in_range(c),
        ensures
            self.fat_region_end() <= self.cluster_base(c as int),
            self.cluster_base(c as int) + self.spec_csize() <= self.spec_raw().len(),
            self.spec_cluster_sector(c as int) + self.sectors_in_cluster <= self.spec_raw().len()
                as int / self.sector_size as int,
            0 <= self.spec_cluster_sector(c as int),
    {
        let ss = self.sector_size as int;
        let spc = self.sectors_in_cluster as int;
        let cc = self.clusters_count as int;
        let fds = self.first_data_sector as int;
        let rds = self.root_dir_sectors as int;
        let total = self.spec_raw().len() as int / ss;
        let sec = self.spec_cluster_sector(c as int);
        self.dev.lemma_inv();
        // the first sector of the cluster is at or above the end of the table
        // region, and the cluster ends at or below the end of the data area
        assert(fds - rds == self.first_fat_table_sector + self.fats_count
            * self.fat_size_in_sectors);
        match self.fat_type {
            FatType::Fat32 => {
                let k = c - self.root_cluster;
                assert(sec == k * spc + fds);
                lemma_mul_inequality(0, k, spc);
                lemma_mul_inequality(k + 1, cc, spc);
                assert((k + 1) * spc == k * spc + spc) by (nonlinear_arith);
            },
            _ => {
                if c != 0 {
                    let k = c - 2;
                    assert(sec == k * spc + fds);
                    lemma_mul_inequality(0, k, spc);
                    lemma_mul_inequality(k + 1, cc, spc);
                    assert((k + 1) * spc == k * spc + spc) by (nonlinear_arith);
                } else {
                    lemma_mul_inequality(1, cc, spc);
                    assert(1 * spc == spc) by (nonlinear_arith);
                }
            },
        }
        assert(fds - rds <= sec);
        assert(sec + spc <= total);
        lemma_mul_inequality(sec + spc, total, ss);
        lemma_fundamental_div_mod(self.spec_raw().len() as int, ss);
        lemma_mod_bound(self.spec_raw().len() as int, ss);
        assert(total * ss <= self.spec_raw().len());
        assert((sec + spc) * ss == sec * ss + spc * ss) by (nonlinear_arith);
        lemma_mul_inequality(fds - rds, sec, ss);
        assert(self.fat_region_end() == (fds - rds) * ss);
    }

    /// The table region itself lies inside the device, below the data area.
    proof fn lemma_fat_region_bounds(&self)
        requires
            self.wf(),
        ensures
            self.sector_size <= self.fat_base(),
            self.fat_base() + self.fat_size_in_sectors * self.sector_size
                <= self.fat_region_end(),
            self.fat_region_end() <= self.spec_raw().len(),
            self.fat_base() + fat_needed_bytes(self.fat_type, self.clusters_count as int)
                <= self.fat_base() + self.fat_size_in_sectors * self.sector_size,
    {
        let ss = self.sector_size as int;
        let ff = self.first_fat_table_sector as int;
        let nf = self.fats_count as int;
        let fsz = self.fat_size_in_sectors as int;
        let fds = self.first_data_sector as int;
        let total = self.spec_raw().len() as int / ss;
        self.dev.lemma_inv();
        lemma_mul_inequality(1, ff, ss);
        assert(1 * ss == ss) by (nonlinear_arith);
        assert((ff + nf * fsz) * ss == ff * ss + (nf * fsz) * ss) by (nonlinear_arith);
        assert((ff + 1 * fsz) * ss == ff * ss + (1 * fsz) * ss) by (nonlinear_arith);
        assert(1 * fsz <= nf * fsz) by (nonlinear_arith)
            requires
                1 <= nf,
                0 <= fsz,
        ;
        lemma_mul_inequality(1 * fsz, nf * fsz, ss);
        assert(ff + nf * fsz <= fds);
        assert(fds <= total) by {
            lemma_mul_inequality(1, self.clusters_count as int, self.sectors_in_cluster as int);
            assert(1 * self.sectors_in_cluster as int == self.sectors_in_cluster as int)
                by (nonlinear_arith);
        }
        lemma_mul_inequality(ff + nf * fsz, total, ss);
        lemma_fundamental_div_mod(self.spec_raw().len() as int, ss);
        lemma_mod_bound(self.spec_raw().len() as int, ss);
        assert(total * ss <= self.spec_raw().len());
    }

    /// Two distinct addressable clusters occupy disjoint byte ranges.
    proof fn lemma_cluster_disjoint(&self, c: u32, d: u32)
        requires
            self.wf(),
            self.cluster_in_range(c),
            self.cluster_in_range(d),
            c != d,
        ensures
            self.cluster_base(c as int) + self.spec_csize() <= self.cluster_base(d as int)
                || self.cluster_base(d as int) + self.spec_csize() <= self.cluster_base(
                c as int,
            ),
    {
        let ss = self.sector_size as int;
        let spc = self.sectors_in_cluster as int;
        let fds = self.first_data_sector as int;
        let rds = self.root_dir_sectors as int;
        let sc = self.spec_cluster_sector(c as int);
        let sd = self.spec_cluster_sector(d as int);
        // the first sectors of the two clusters are at least one cluster apart
        assert(sc + spc <= sd || sd + spc <= sc) by {
            match self.fat_type {
                FatType::Fat32 => {
                    let kc = c - self.root_cluster;
                    let kd = d - self.root_cluster;
                    if kc < kd {
                        lemma_mul_inequality(kc + 1, kd, spc);
                        assert((kc + 1) * spc == kc * spc + spc) by (nonlinear_arith);
                    } else {
                        lemma_mul_inequality(kd + 1, kc, spc);
                        assert((kd + 1) * spc == kd * spc + spc) by (nonlinear_arith);
                    }
                },
                _ => {
                    if c == 0 || d == 0 {
                        let e: u32 = if c == 0 {
                            d
                        } else {
                            c
                        };
                        let ke = e - 2;
                        lemma_mul_inequality(0, ke, spc);
                        assert(fds - rds + spc <= fds);
                    } else {
                        let kc = c - 2;
                        let kd = d - 2;
                        if kc < kd {
                            lemma_mul_inequality(kc + 1, kd, spc);
                            assert((kc + 1) * spc == kc * spc + spc) by (nonlinear_arith);
                        } else {
                            lemma_mul_inequality(kd + 1, kc, spc);
                            assert((kd + 1) * spc == kd * spc + spc) by (nonlinear_arith);
                        }
                    }
                },
            }
        }
        if sc + spc <= sd {
            lemma_mul_inequality(sc + spc, sd, ss);
            assert((sc + spc) * ss == sc * ss + spc * ss) by (nonlinear_arith);
        } else {
            lemma_mul_inequality(sd + spc, sc, ss);
            assert((sd + spc) * ss == sd * ss + spc * ss) by (nonlinear_arith);
        }
    }

    /// The sector that holds byte `idx` of a table copy, together with the
    /// offset inside it, addresses exactly byte `copy_base + idx`.
    proof fn lemma_fat_window_addr(first: int, ss: int, idx: int)
        requires
            ss >= 1,
            0 <= idx,
            0 <= first,
        ensures
            (first + idx / ss) * ss + idx % ss == first * ss + idx,
            0 <= idx % ss < ss,
            idx / ss >= 0,
    {
        lemma_fundamental_div_mod(idx, ss);
        lemma_mod_bound(idx, ss);
        lemma_div_pos_is_pos(idx, ss);
        let q = idx / ss;
        let r = idx % ss;
        assert((first + q) * ss + r == first * ss + idx) by (nonlinear_arith)
            requires
                idx == ss * q + r,
        ;
    }

    /// The size of one cluster in bytes.
    fn csize(&self) -> (r: usize)
        requires
            self.wf(),
        ensures
            r == self.spec_csize(),
            512 <= r <= 0x100_0000,
    {
        proof {
            assert(512 <= self.sectors_in_cluster * self.sector_size <= 0xFF * 0xFFFF)
                by (nonlinear_arith)
                requires
                    1 <= self.sectors_in_cluster <= 0xFF,
                    512 <= self.sector_size <= 0xFFFF,
            ;
        }
        (self.sectors_in_cluster as usize) * (self.sector_size as usize)
    }

    /// The first sector of cluster `cluster`: the fixed root region for
    /// cluster 0 of a FAT12/16 volume, the mapped data sector otherwise.
    /// Indices outside the volume are refused.
    pub fn cluster_to_sector(&self, cluster: u32) -> (r: Result<u32, Error>)
        requires
            self.wf(),
        ensures
            self.cluster_in_range(cluster) ==> r == Ok::<u32, Error>(
                self.spec_cluster_sector(cluster as int) as u32,
            ),
            !self.cluster_in_range(cluster) ==> r == Err::<u32, Error>(
                Error::InvalidClusterNumber,
            ),
    {
        if cluster >= self.clusters_count {
            return Err(Error::InvalidClusterNumber);
        }
        match self.fat_type {
            FatType::Fat32 => {
                if cluster < self.root_cluster {
                    Err(Error::InvalidClusterNumber)
                } else {
                    proof {
                        self.lemma_cluster_bounds(cluster);
                        self.dev.lemma_inv();
                    }
                    Ok((cluster - self.root_cluster) * self.sectors_in_cluster
                        + self.first_data_sector)
                }
            },
            _ => {
                if cluster == 0 {
                    Ok(self.first_data_sector - self.root_dir_sectors)
                } else if cluster < 2 {
                    Err(Error::InvalidClusterNumber)
                } else {
                    proof {
                        self.lemma_cluster_bounds(cluster);
                        self.dev.lemma_inv();
                    }
                    Ok((cluster - 2) * self.sectors_in_cluster + self.first_data_sector)
                }
            },
        }
    }

    /// Byte `idx` of every table copy stays inside that copy, and its window
    /// of `w` bytes stays inside the region the view reads.
    proof fn lemma_fat_idx_bounds(&self, c: u32)
        requires
            self.wf(),
            c < self.clusters_count,
        ensures
            fat_entry_index(self.fat_type, c as int) + fat_entry_width(self.fat_type)
                <= fat_needed_bytes(self.fat_type, self.clusters_count as int),
            fat_needed_bytes(self.fat_type, self.clusters_count as int) <= self.fat_size_in_sectors
                * self.sector_size,
            0 <= fat_entry_index(self.fat_type, c as int),
    {
        let cc = self.clusters_count as int;
        assert((c as int) / 2 <= cc / 2);
    }

    /// Reads the window of `len` bytes starting at byte `idx` of table copy 0.
    fn read_fat_window(&self, idx: u32, len: usize) -> (r: Result<Vec<u8>, Error>)
        requires
            self.wf(),
            idx + len <= self.fat_size_in_sectors * self.sector_size,
            1 <= len <= 4,
        ensures
            (match r {
                Ok(v) => v@ == self.spec_raw().subrange(
                    self.fat_base() + idx,
                    self.fat_base() + idx + len,
                ) && v@.len() == len,
                Err(e) => e == Error::DeviceIO,
            }),
    {
        let ss = self.sector_size;
        proof {
            self.lemma_fat_region_bounds();
            self.dev.lemma_inv();
            lemma_fundamental_div_mod(idx as int, ss as int);
            lemma_mod_bound(idx as int, ss as int);
            lemma_div_pos_is_pos(idx as int, ss as int);
            assert((idx as int) / (ss as int) < self.fat_size_in_sectors) by (nonlinear_arith)
                requires
                    idx < self.fat_size_in_sectors * ss,
                    ss >= 1,
                    (idx as int) / (ss as int) >= 0,
                    ss * ((idx as int) / (ss as int)) + (idx as int) % (ss as int) == idx as int,
                    0 <= (idx as int) % (ss as int) < ss,
            ;
            Self::lemma_fat_window_addr(self.first_fat_table_sector as int, ss as int, idx as int);
            assert(1 * self.fat_size_in_sectors <= self.fats_count * self.fat_size_in_sectors)
                by (nonlinear_arith)
                requires
                    1 <= self.fats_count,
                    0 <= self.fat_size_in_sectors,
            ;
        }
        let sector = self.first_fat_table_sector + idx / ss;
        let off = (idx % ss) as usize;
        let v = match self.dev.read(sector, off, len) {
            Ok(v) => v,
            Err(_) => {
                return Err(Error::DeviceIO);
            },
        };
        proof {
            assert(v@ =~= self.spec_raw().subrange(
                self.fat_base() + idx,
                self.fat_base() + idx + len,
            ));
        }
        Ok(v)
    }

    /// Bytes the table writer may touch besides the entry window of copy 0:
    /// the copies past the first.
    pub closed spec fn fat_shadow_start(&self) -> int {
        self.fat_base() + self.fat_size_in_sectors * self.sector_size
    }

    /// The byte address where table copy `k` starts.
    pub closed spec fn fat_copy_base(&self, k: int) -> int {
        self.fat_base() + k * (self.fat_size_in_sectors * self.sector_size)
    }

    /// The window of `w` bytes at byte `idx` of table copy `k`.
    pub closed spec fn copy_window(&self, idx: int, w: int, k: int) -> Seq<u8> {
        self.spec_raw().subrange(self.fat_copy_base(k) + idx, self.fat_copy_base(k) + idx + w)
    }

    /// The decoded entry `c` as table copy `k` stores it.
    pub closed spec fn spec_fat_copy_entry(&self, k: int, c: int) -> ClusterValue {
        spec_fat_entry(self.fat_type, self.spec_raw(), self.fat_copy_base(k), c)
    }

    /// Whether `post` is `pre` with the window at byte `idx` of table copy 0
    /// overwritten by `win`, the later copies rewritten at will, and nothing
    /// else moved.
    pub closed spec fn fat_window_written(pre: Self, post: Self, idx: int, win: Seq<u8>) -> bool {
        &&& post.geom() == pre.geom()
        &&& post.dev.inv()
        &&& post.dev.spec_sector_size() == pre.dev.spec_sector_size()
        &&& post.spec_raw().len() == pre.spec_raw().len()
        &&& post.spec_raw().subrange(pre.fat_base() + idx, pre.fat_base() + idx + win.len())
            == win
        &&& forall|j: int|
            0 <= j < pre.spec_raw().len() && !(pre.fat_base() + idx <= j < pre.fat_base() + idx
                + win.len()) && !(pre.fat_shadow_start() <= j < pre.fat_region_end())
                ==> post.spec_raw()[j] == pre.spec_raw()[j]
    }

    /// Like [`Fs::fat_window_written`], and moreover the window of every one
    /// of the `fats_count` copies holds exactly the written bytes.
    pub closed spec fn fat_window_written_all(
        pre: Self,
        post: Self,
        idx: int,
        win: Seq<u8>,
    ) -> bool {
        &&& Self::fat_window_written(pre, post, idx, win)
        &&& forall|k: int|
            0 <= k < pre.fats_count ==> #[trigger] post.copy_window(idx, win.len() as int, k)
                == win
    }

    /// Writes `win` at byte `idx` of every table copy, in lockstep.
    fn write_fat_window(&mut self, idx: u32, win: &[u8]) -> (r: Result<(), Error>)
        requires
            old(self).wf(),
            idx + win@.len() <= old(self).fat_size_in_sectors * old(self).sector_size,
            1 <= win@.len() <= 4,
        ensures
            final(self).wf(),
            final(self).geom() == old(self).geom(),
            (match r {
                Ok(()) => Self::fat_window_written_all(
                    *old(self),
                    *final(self),
                    idx as int,
                    win@,
                ),
                Err(e) => e == Error::DeviceIO && (final(self).spec_raw() == old(self).spec_raw()
                    || Self::fat_window_written(*old(self), *final(self), idx as int, win@)),
            }),
    {
        let ss = self.sector_size;
        let w = win.len();
        proof {
            self.lemma_fat_region_bounds();
            self.dev.lemma_inv();
            lemma_fundamental_div_mod(idx as int, ss as int);
            lemma_mod_bound(idx as int, ss as int);
            lemma_div_pos_is_pos(idx as int, ss as int);
            assert((idx as int) / (ss as int) < self.fat_size_in_sectors) by (nonlinear_arith)
                requires
                    idx < self.fat_size_in_sectors * ss,
                    ss >= 1,
                    (idx as int) / (ss as int) >= 0,
                    ss * ((idx as int) / (ss as int)) + (idx as int) % (ss as int) == idx as int,
                    0 <= (idx as int) % (ss as int) < ss,
            ;
            assert(1 * self.fat_size_in_sectors <= self.fats_count * self.fat_size_in_sectors)
                by (nonlinear_arith)
                requires
                    1 <= self.fats_count,
                    0 <= self.fat_size_in_sectors,
            ;
            Self::lemma_fat_window_addr(self.first_fat_table_sector as int, ss as int, idx as int);
        }
        let sector0 = self.first_fat_table_sector + idx / ss;
        let off = (idx % ss) as usize;
        let ghost pre = *self;
        let mut k: u32 = 0;
        while k < self.fats_count
            invariant
                pre == *old(self),
                pre.wf(),
                self.geom() == pre.geom(),
                self.dev.inv(),
                self.dev.spec_sector_size() == pre.dev.spec_sector_size(),
                self.spec_raw().len() == pre.spec_raw().len(),
                k <= pre.fats_count,
                w == win@.len(),
                1 <= w <= 4,
                idx + w <= pre.fat_size_in_sectors * pre.sector_size,
                ss == pre.sector_size,
                sector0 == pre.first_fat_table_sector + (idx as int) / (ss as int),
                off == (idx as int) % (ss as int),
                sector0 * ss + off == pre.fat_base() + idx,
                (idx as int) / (ss as int) < pre.fat_size_in_sectors,
                k == 0 ==> self.spec_raw() == pre.spec_raw(),
                k >= 1 ==> Self::fat_window_written(pre, *self, idx as int, win@),
                forall|m: int|
                    0 <= m < k ==> #[trigger] self.copy_window(idx as int, w as int, m) == win@,
            decreases pre.fats_count - k,
        {
            proof {
                pre.lemma_fat_region_bounds();
                pre.dev.lemma_inv();
                assert(k * pre.fat_size_in_sectors <= pre.fats_count * pre.fat_size_in_sectors
                    && (k + 1) * pre.fat_size_in_sectors == k * pre.fat_size_in_sectors
                    + pre.fat_size_in_sectors && (k + 1) * pre.fat_size_in_sectors
                    <= pre.fats_count * pre.fat_size_in_sectors && (k >= 1 ==> k
                    * pre.fat_size_in_sectors >= pre.fat_size_in_sectors)) by (nonlinear_arith)
                    requires
                        0 <= k < pre.fats_count,
                        0 <= pre.fat_size_in_sectors,
                ;
            }
            let sector = sector0 + k * self.fat_size_in_sectors;
            proof {
                let kfs = (k * pre.fat_size_in_sectors) as int;
                assert((sector0 + kfs) * ss == sector0 * ss + kfs * ss) by (nonlinear_arith);
                assert(kfs * ss + idx + w <= pre.fats_count * pre.fat_size_in_sectors * ss) by {
                    assert((kfs + pre.fat_size_in_sectors) * ss <= (pre.fats_count
                        * pre.fat_size_in_sectors) * ss && (kfs + pre.fat_size_in_sectors) * ss
                        == kfs * ss + pre.fat_size_in_sectors * ss) by (nonlinear_arith)
                        requires
                            kfs + pre.fat_size_in_sectors <= pre.fats_count
                                * pre.fat_size_in_sectors,
                            ss >= 1,
                    ;
                }
                assert(pre.fat_base() + (pre.fats_count * pre.fat_size_in_sectors) * ss
                    == pre.fat_region_end()) by (nonlinear_arith)
                    requires
                        pre.fat_base() == pre.first_fat_table_sector * ss,
                        pre.fat_region_end() == (pre.first_fat_table_sector + pre.fats_count
                            * pre.fat_size_in_sectors) * ss,
                ;
                assert(k >= 1 ==> kfs * ss >= pre.fat_size_in_sectors * ss) by (nonlinear_arith)
                    requires
                        k >= 1 ==> kfs >= pre.fat_size_in_sectors,
                        ss >= 1,
                ;
            }
            let ghost before = *self;
            match self.dev.write(sector, off, win) {
                Ok(()) => {},
                Err(_) => {
                    return Err(Error::DeviceIO);
                },
            }
            proof {
                let a = sector * ss + off;
                let kfs = (k * pre.fat_size_in_sectors) as int;
                let cb = pre.fat_size_in_sectors * pre.sector_size;
                assert(self.spec_raw() == seq_write(before.spec_raw(), a, win@));
                assert(kfs * ss == k * cb) by (nonlinear_arith)
                    requires
                        kfs == k * pre.fat_size_in_sectors,
                        cb == pre.fat_size_in_sectors * pre.sector_size,
                        ss == pre.sector_size,
                ;
                assert(a == pre.fat_copy_base(k as int) + idx);
                if k == 0 {
                    crate::bytes::lemma_seq_write_read(before.spec_raw(), a, win@);
                    assert(Self::fat_window_written(pre, *self, idx as int, win@));
                } else {
                    assert(self.spec_raw().subrange(
                        pre.fat_base() + idx,
                        pre.fat_base() + idx + w,
                    ) =~= before.spec_raw().subrange(
                        pre.fat_base() + idx,
                        pre.fat_base() + idx + w,
                    ));
                    assert(Self::fat_window_written(pre, *self, idx as int, win@));
                }
                // this copy's window now holds the bytes, and the windows of
                // the copies already written lie below it, untouched
                crate::bytes::lemma_seq_write_read(before.spec_raw(), a, win@);
                assert(self.copy_window(idx as int, w as int, k as int) =~= win@);
                assert forall|m: int|
                    0 <= m < k + 1 implies #[trigger] self.copy_window(idx as int, w as int, m)
                    == win@ by {
                    if m < k {
                        assert((m + 1) * cb <= k * cb) by (nonlinear_arith)
                            requires
                                m + 1 <= k,
                                0 <= cb,
                        ;
                        assert((m + 1) * cb == m * cb + cb) by (nonlinear_arith);
                        assert(pre.fat_copy_base(m) + idx + w <= pre.fat_copy_base(k as int)
                            + idx);
                        assert(self.copy_window(idx as int, w as int, m) =~= before.copy_window(
                            idx as int,
                            w as int,
                            m,
                        ));
                    }
                }
            }
            k = k + 1;
        }
        Ok(())
    }

    /// Once the window of entry `c` holds bytes that decode to `value` — and
    /// the shared FAT12 nibble of the neighbour was preserved — the whole
    /// decoded table is the old one updated at `c`, and no addressable
    /// cluster has moved.
    proof fn lemma_set_effect(pre: Self, post: Self, c: u32, value: ClusterValue, win: Seq<u8>)
        requires
            pre.wf(),
            c < pre.clusters_count,
            win.len() == fat_entry_width(pre.fat_type),
            Self::fat_window_written(
                pre,
                post,
                fat_entry_index(pre.fat_type, c as int),
                win,
            ),
            spec_fat_entry(pre.fat_type, post.spec_raw(), pre.fat_base(), c as int) == value,
            pre.fat_type == FatType::Fat12 && c as int % 2 == 0 ==> post.spec_raw()[pre.fat_base()
                + fat_entry_index(pre.fat_type, c as int) + 1] / 16 == pre.spec_raw()[pre.fat_base()
                + fat_entry_index(pre.fat_type, c as int) + 1] / 16,
            pre.fat_type == FatType::Fat12 && c as int % 2 == 1 ==> post.spec_raw()[pre.fat_base()
                + fat_entry_index(pre.fat_type, c as int)] % 16 == pre.spec_raw()[pre.fat_base()
                + fat_entry_index(pre.fat_type, c as int)] % 16,
        ensures
            post.wf(),
            post.spec_fat() == pre.spec_fat().update(c as int, value),
            forall|d: u32|
                pre.cluster_in_range(d) ==> #[trigger] post.spec_data(d as int) == pre.spec_data(
                    d as int,
                ),
            forall|d: u32| post.cluster_in_range(d) == pre.cluster_in_range(d),
    {
        let ft = pre.fat_type;
        let base = pre.fat_base();
        let cc = pre.clusters_count as int;
        let idx = fat_entry_index(ft, c as int);
        pre.lemma_fat_idx_bounds(c);
        pre.lemma_fat_region_bounds();
        pre.dev.lemma_inv();
        assert(post.spec_raw().len() == pre.spec_raw().len());
        // the region the view reads lies in copy 0, below the later copies
        assert(base + fat_needed_bytes(ft, cc) <= pre.fat_shadow_start());
        lemma_fat_entry_frame(ft, pre.spec_raw(), post.spec_raw(), base, cc, c as int);
        assert(post.spec_fat() =~= pre.spec_fat().update(c as int, value));
        assert forall|d: u32| pre.cluster_in_range(d) implies #[trigger] post.spec_data(
            d as int,
        ) == pre.spec_data(d as int) by {
            pre.lemma_cluster_bounds(d);
            assert(pre.fat_shadow_start() <= pre.fat_region_end());
            assert(post.spec_data(d as int) =~= pre.spec_data(d as int));
        }
    }

    /// Once every copy's window holds the written bytes, every copy stores
    /// the written entry: the decode reads only the window.
    proof fn lemma_copies_entry(pre: Self, post: Self, c: u32, value: ClusterValue, win: Seq<u8>)
        requires
            pre.wf(),
            c < pre.clusters_count,
            win.len() == fat_entry_width(pre.fat_type),
            Self::fat_window_written_all(
                pre,
                post,
                fat_entry_index(pre.fat_type, c as int),
                win,
            ),
            spec_fat_entry(pre.fat_type, post.spec_raw(), pre.fat_base(), c as int) == value,
        ensures
            forall|k: int|
                0 <= k < pre.fats_count ==> #[trigger] post.spec_fat_copy_entry(k, c as int)
                    == value,
    {
        let ft = pre.fat_type;
        let idx = fat_entry_index(ft, c as int);
        let w = fat_entry_width(ft);
        pre.lemma_fat_idx_bounds(c);
        pre.lemma_fat_region_bounds();
        let cb = pre.fat_size_in_sectors * pre.sector_size;
        let b0 = pre.fat_base() + idx;
        assert(pre.fat_copy_base(0) == pre.fat_base()) by (nonlinear_arith)
            requires
                pre.fat_copy_base(0) == pre.fat_base() + 0 * (pre.fat_size_in_sectors
                    * pre.sector_size),
        ;
        assert forall|k: int| 0 <= k < pre.fats_count implies #[trigger] post.spec_fat_copy_entry(
            k,
            c as int,
        ) == value by {
            assert((k + 1) * cb <= pre.fats_count * cb && (k + 1) * cb == k * cb + cb && 0 <= k
                * cb && (pre.fats_count * pre.fat_size_in_sectors) * pre.sector_size
                == pre.fats_count * cb && (pre.first_fat_table_sector + pre.fats_count
                * pre.fat_size_in_sectors) * pre.sector_size == pre.first_fat_table_sector
                * pre.sector_size + (pre.fats_count * pre.fat_size_in_sectors)
                * pre.sector_size) by (nonlinear_arith)
                requires
                    0 <= k < pre.fats_count,
                    0 <= cb,
                    cb == pre.fat_size_in_sectors * pre.sector_size,
            ;
            let bk = pre.fat_copy_base(k) + idx;
            assert(bk + w <= post.spec_raw().len());
            assert(post.copy_window(idx, w, k) == win);
            assert(post.copy_window(idx, w, 0) == win);
            assert(post.copy_window(idx, w, k)[0] == post.spec_raw()[bk + 0]);
            assert(post.copy_window(idx, w, 0)[0] == post.spec_raw()[b0 + 0]);
            assert(post.copy_window(idx, w, k)[1] == post.spec_raw()[bk + 1]);
            assert(post.copy_window(idx, w, 0)[1] == post.spec_raw()[b0 + 1]);
            assert(post.spec_raw()[bk] == post.spec_raw()[b0]);
            assert(post.spec_raw()[bk + 1] == post.spec_raw()[b0 + 1]);
            if ft == FatType::Fat32 {
                assert(post.copy_window(idx, w, k)[2] == post.spec_raw()[bk + 2]);
                assert(post.copy_window(idx, w, 0)[2] == post.spec_raw()[b0 + 2]);
                assert(post.copy_window(idx, w, k)[3] == post.spec_raw()[bk + 3]);
                assert(post.copy_window(idx, w, 0)[3] == post.spec_raw()[b0 + 3]);
                assert(post.spec_raw()[bk + 2] == post.spec_raw()[b0 + 2]);
                assert(post.spec_raw()[bk + 3] == post.spec_raw()[b0 + 3]);
            }
        }
    }

    /// Decodes a FAT12 table entry: two bytes, one twelve-bit half.
    fn fat12_table_get(&self, cluster: u32) -> (r: Result<ClusterValue, Error>)
        requires
            self.wf(),
            self.fat_type == FatType::Fat12,
            cluster < self.clusters_count,
        ensures
            (match r {
                Ok(v) => v == self.spec_fat()[cluster as int],
                Err(e) => e == Error::DeviceIO,
            }),
    {
        let idx = cluster + cluster / 2;
        proof {
            self.lemma_fat_idx_bounds(cluster);
            self.lemma_fat_region_bounds();
        }
        let v = match self.read_fat_window(idx, 2) {
            Ok(v) => v,
            Err(e) => {
                return Err(e);
            },
        };
        let b0 = v[0];
        let b1 = v[1];
        let val = le16(b0, b1);
        let raw_value = if cluster % 2 == 0 {
            proof {
                assert((val & 0x0FFF) == (b0 as u32) + 256 * ((b1 as u32) % 16) && (val & 0x0FFF)
                    < 0x1000) by (bit_vector)
                    requires
                        val == (b0 as u32) + 256 * (b1 as u32),
                ;
            }
            val & 0x0FFF
        } else {
            proof {
                assert((val >> 4) == (b0 as u32) / 16 + 16 * (b1 as u32) && (val >> 4) < 0x1000)
                    by (bit_vector)
                    requires
                        val == (b0 as u32) + 256 * (b1 as u32),
                ;
            }
            val >> 4
        };
        proof {
            assert(b0 == self.spec_raw()[self.fat_base() + idx] && b1 == self.spec_raw()[
                self.fat_base() + idx + 1]) by {
                assert(v@[0] == self.spec_raw()[self.fat_base() + idx]);
                assert(v@[1] == self.spec_raw()[self.fat_base() + idx + 1]);
            }
            assert(self.spec_fat()[cluster as int] == spec_fat_entry(
                self.fat_type,
                self.spec_raw(),
                self.fat_base(),
                cluster as int,
            ));
        }
        Ok(decode12(raw_value))
    }

    /// Decodes a FAT16 table entry: one little-endian 16-bit word.
    fn fat16_table_get(&self, cluster: u32) -> (r: Result<ClusterValue, Error>)
        requires
            self.wf(),
            self.fat_type == FatType::Fat16,
            cluster < self.clusters_count,
        ensures
            (match r {
                Ok(v) => v == self.spec_fat()[cluster as int],
                Err(e) => e == Error::DeviceIO,
            }),
    {
        let idx = 2 * cluster;
        proof {
            self.lemma_fat_idx_bounds(cluster);
            self.lemma_fat_region_bounds();
        }
        let v = match self.read_fat_window(idx, 2) {
            Ok(v) => v,
            Err(e) => {
                return Err(e);
            },
        };
        proof {
            let ghost sub = self.spec_raw().subrange(
                self.fat_base() + idx,
                self.fat_base() + idx + 2,
            );
            assert(v@ == sub);
            assert(sub[0] == self.spec_raw()[self.fat_base() + idx]);
            assert(sub[1] == self.spec_raw()[self.fat_base() + idx + 1]);
            assert(self.spec_fat()[cluster as int] == spec_fat_entry(
                self.fat_type,
                self.spec_raw(),
                self.fat_base(),
                cluster as int,
            ));
        }
        Ok(decode16(le16(v[0], v[1])))
    }

    /// Decodes a FAT32 table entry: one little-endian 32-bit word, of which
    /// the low 28 bits count.
    fn fat32_table_get(&self, cluster: u32) -> (r: Result<ClusterValue, Error>)
        requires
            self.wf(),
            self.fat_type == FatType::Fat32,
            cluster < self.clusters_count,
        ensures
            (match r {
                Ok(v) => v == self.spec_fat()[cluster as int],
                Err(e) => e == Error::DeviceIO,
            }),
    {
        let idx = 4 * cluster;
        proof {
            self.lemma_fat_idx_bounds(cluster);
            self.lemma_fat_region_bounds();
        }
        let v = match self.read_fat_window(idx, 4) {
            Ok(v) => v,
            Err(e) => {
                return Err(e);
            },
        };
        proof {
            assert(v@[0] == self.spec_raw()[self.fat_base() + idx]);
            assert(v@[1] == self.spec_raw()[self.fat_base() + idx + 1]);
            assert(v@[2] == self.spec_raw()[self.fat_base() + idx + 2]);
            assert(v@[3] == self.spec_raw()[self.fat_base() + idx + 3]);
            assert(self.spec_fat()[cluster as int] == spec_fat_entry(
                self.fat_type,
                self.spec_raw(),
                self.fat_base(),
                cluster as int,
            ));
        }
        Ok(decode32(le32(v[0], v[1], v[2], v[3])))
    }

    /// Encodes a FAT16 table entry into every table copy.
    fn fat16_table_set(&mut self, cluster: u32, value: ClusterValue) -> (r: Result<(), Error>)
        requires
            old(self).wf(),
            old(self).fat_type == FatType::Fat16,
            cluster < old(self).clusters_count,
            (value matches ClusterValue::Next(n) ==> 2 <= n < old(self).clusters_count),
        ensures
            final(self).wf(),
            final(self).geom() == old(self).geom(),
            forall|d: u32|
                old(self).cluster_in_range(d) ==> #[trigger] final(self).spec_data(d as int)
                    == old(self).spec_data(d as int),
            (match r {
                Ok(()) => final(self).spec_fat() == old(self).spec_fat().update(
                    cluster as int,
                    value,
                ) && forall|k: int|
                    0 <= k < old(self).geom().fats_count
                        ==> #[trigger] final(self).spec_fat_copy_entry(k, cluster as int)
                        == value,
                Err(e) => e == Error::DeviceIO && (final(self).spec_fat() == old(self).spec_fat()
                    || final(self).spec_fat() == old(self).spec_fat().update(
                    cluster as int,
                    value,
                )),
            }),
    {
        let n16: u32 = match value {
            ClusterValue::Free => 0x0000,
            ClusterValue::Bad => 0xFFF7,
            ClusterValue::Last => 0xFFF8,
            ClusterValue::Next(x) => x,
        };
        proof {
            assert((n16 & 0xFF) < 0x100 && ((n16 >> 8) & 0xFF) < 0x100 && (n16 & 0xFF) + 256 * ((
            n16 >> 8) & 0xFF) == n16) by (bit_vector)
                requires
                    n16 < 0x1_0000,
            ;
        }
        let w0 = (n16 & 0xFF) as u8;
        let w1 = ((n16 >> 8) & 0xFF) as u8;
        let mut win: Vec<u8> = Vec::new();
        win.push(w0);
        win.push(w1);
        let idx = 2 * cluster;
        proof {
            self.lemma_fat_idx_bounds(cluster);
            self.lemma_fat_region_bounds();
        }
        let ghost pre = *self;
        let r = self.write_fat_window(idx, win.as_slice());
        proof {
            if Self::fat_window_written(pre, *self, idx as int, win@) {
                let base = pre.fat_base();
                pre.lemma_fat_idx_bounds(cluster);
                pre.lemma_fat_region_bounds();
                assert(self.spec_raw()[base + idx] == w0 && self.spec_raw()[base + idx + 1] == w1)
                    by {
                    assert(self.spec_raw().subrange(base + idx, base + idx + 2) == win@);
                    assert(self.spec_raw().subrange(base + idx, base + idx + 2)[0] == self.spec_raw()[
                        base + idx]);
                    assert(self.spec_raw().subrange(base + idx, base + idx + 2)[1] == self.spec_raw()[
                        base + idx + 1]);
                    assert(win@[0] == w0 && win@[1] == w1);
                }
                assert(spec_fat_entry(pre.fat_type, self.spec_raw(), base, cluster as int)
                    == value);
                Self::lemma_set_effect(pre, *self, cluster, value, win@);
                if r is Ok {
                    Self::lemma_copies_entry(pre, *self, cluster, value, win@);
                }
            }
        }
        match r {
            Ok(()) => Ok(()),
            Err(e) => Err(e),
        }
    }

    /// Encodes a FAT32 table entry into every table copy.
    fn fat32_table_set(&mut self, cluster: u32, value: ClusterValue) -> (r: Result<(), Error>)
        requires
            old(self).wf(),
            old(self).fat_type == FatType::Fat32,
            cluster < old(self).clusters_count,
            (value matches ClusterValue::Next(n) ==> 2 <= n < old(self).clusters_count),
        ensures
            final(self).wf(),
            final(self).geom() == old(self).geom(),
            forall|d: u32|
                old(self).cluster_in_range(d) ==> #[trigger] final(self).spec_data(d as int)
                    == old(self).spec_data(d as int),
            (match r {
                Ok(()) => final(self).spec_fat() == old(self).spec_fat().update(
                    cluster as int,
                    value,
                ) && forall|k: int|
                    0 <= k < old(self).geom().fats_count
                        ==> #[trigger] final(self).spec_fat_copy_entry(k, cluster as int)
                        == value,
                Err(e) => e == Error::DeviceIO && (final(self).spec_fat() == old(self).spec_fat()
                    || final(self).spec_fat() == old(self).spec_fat().update(
                    cluster as int,
                    value,
                )),
            }),
    {
        let n: u32 = match value {
            ClusterValue::Free => 0x0000_0000,
            ClusterValue::Bad => 0x0FFF_FFF7,
            ClusterValue::Last => 0x0FFF_FFF8,
            ClusterValue::Next(x) => x,
        };
        proof {
            assert((n & 0xFF) < 0x100 && ((n >> 8) & 0xFF) < 0x100 && ((n >> 16) & 0xFF) < 0x100
                && ((n >> 24) & 0xFF) < 0x100 && (n & 0xFF) + 0x100 * ((n >> 8) & 0xFF) + 0x1_0000
                * ((n >> 16) & 0xFF) + 0x100_0000 * ((n >> 24) & 0xFF) == n) by (bit_vector);
        }
        let w0 = (n & 0xFF) as u8;
        let w1 = ((n >> 8) & 0xFF) as u8;
        let w2 = ((n >> 16) & 0xFF) as u8;
        let w3 = ((n >> 24) & 0xFF) as u8;
        let mut win: Vec<u8> = Vec::new();
        win.push(w0);
        win.push(w1);
        win.push(w2);
        win.push(w3);
        let idx = 4 * cluster;
        proof {
            self.lemma_fat_idx_bounds(cluster);
            self.lemma_fat_region_bounds();
        }
        let ghost pre = *self;
        let r = self.write_fat_window(idx, win.as_slice());
        proof {
            if Self::fat_window_written(pre, *self, idx as int, win@) {
                let base = pre.fat_base();
                pre.lemma_fat_idx_bounds(cluster);
                pre.lemma_fat_region_bounds();
                assert(self.spec_raw()[base + idx] == w0 && self.spec_raw()[base + idx + 1] == w1
                    && self.spec_raw()[base + idx + 2] == w2 && self.spec_raw()[base + idx + 3]
                    == w3) by {
                    assert(self.spec_raw().subrange(base + idx, base + idx + 4) == win@);
                    assert(self.spec_raw().subrange(base + idx, base + idx + 4)[0] == self.spec_raw()[
                        base + idx]);
                    assert(self.spec_raw().subrange(base + idx, base + idx + 4)[1] == self.spec_raw()[
                        base + idx + 1]);
                    assert(self.spec_raw().subrange(base + idx, base + idx + 4)[2] == self.spec_raw()[
                        base + idx + 2]);
                    assert(self.spec_raw().subrange(base + idx, base + idx + 4)[3] == self.spec_raw()[
                        base + idx + 3]);
                    assert(win@[0] == w0 && win@[1] == w1 && win@[2] == w2 && win@[3] == w3);
                }
                assert(n < 0x1000_0000 ==> n % 0x1000_0000 == n) by (bit_vector);
                assert(0x0FFF_FFF7u32 % 0x1000_0000 == 0x0FFF_FFF7 && 0x0FFF_FFF8u32
                    % 0x1000_0000 == 0x0FFF_FFF8) by (bit_vector);
                assert(spec_fat_entry(pre.fat_type, self.spec_raw(), base, cluster as int)
                    == value);
                Self::lemma_set_effect(pre, *self, cluster, value, win@);
                if r is Ok {
                    Self::lemma_copies_entry(pre, *self, cluster, value, win@);
                }
            }
        }
        match r {
            Ok(()) => Ok(()),
            Err(e) => Err(e),
        }
    }

    /// Encodes a FAT12 table entry into every table copy, reading the
    /// two-byte window first so the neighbouring entry's nibble survives.
    fn fat12_table_set(&mut self, cluster: u32, value: ClusterValue) -> (r: Result<(), Error>)
        requires
            old(self).wf(),
            old(self).fat_type == FatType::Fat12,
            cluster < old(self).clusters_count,
            (value matches ClusterValue::Next(n) ==> 2 <= n < old(self).clusters_count),
        ensures
            final(self).wf(),
            final(self).geom() == old(self).geom(),
            forall|d: u32|
                old(self).cluster_in_range(d) ==> #[trigger] final(self).spec_data(d as int)
                    == old(self).spec_data(d as int),
            (match r {
                Ok(()) => final(self).spec_fat() == old(self).spec_fat().update(
                    cluster as int,
                    value,
                ) && forall|k: int|
                    0 <= k < old(self).geom().fats_count
                        ==> #[trigger] final(self).spec_fat_copy_entry(k, cluster as int)
                        == value,
                Err(e) => e == Error::DeviceIO && (final(self).spec_fat() == old(self).spec_fat()
                    || final(self).spec_fat() == old(self).spec_fat().update(
                    cluster as int,
                    value,
                )),
            }),
    {
        let raw_value: u32 = match value {
            ClusterValue::Next(n) => n & 0xFFF,
            ClusterValue::Last => 0xFF8,
            ClusterValue::Free => 0,
            ClusterValue::Bad => 0xFF7,
        };
        proof {
            match value {
                ClusterValue::Next(n) => {
                    assert(n & 0xFFF < 0x1000 && (n < 0x1000 ==> n & 0xFFF == n)) by (bit_vector);
                },
                _ => {},
            }
            assert(raw_value < 0x1000);
        }
        let idx = cluster + cluster / 2;
        proof {
            self.lemma_fat_idx_bounds(cluster);
            self.lemma_fat_region_bounds();
        }
        let ghost pre_read = *self;
        let o = match self.read_fat_window(idx, 2) {
            Ok(v) => v,
            Err(e) => {
                return Err(e);
            },
        };
        let o0 = o[0];
        let o1 = o[1];
        proof {
            assert((raw_value & 0xFF) < 0x100 && (((o1 as u32) & 0xF0) | ((raw_value >> 8) & 0x0F))
                < 0x100 && (((o0 as u32) & 0x0F) | ((raw_value & 0x0F) << 4)) < 0x100 && ((
            raw_value >> 4) & 0xFF) < 0x100) by (bit_vector);
            assert(o0 == pre_read.spec_raw()[pre_read.fat_base() + idx] && o1
                == pre_read.spec_raw()[pre_read.fat_base() + idx + 1]) by {
                assert(o@[0] == pre_read.spec_raw()[pre_read.fat_base() + idx]);
                assert(o@[1] == pre_read.spec_raw()[pre_read.fat_base() + idx + 1]);
            }
        }
        let w0: u8;
        let w1: u8;
        if cluster % 2 == 0 {
            w0 = (raw_value & 0xFF) as u8;
            w1 = (((o1 as u32) & 0xF0) | ((raw_value >> 8) & 0x0F)) as u8;
        } else {
            w0 = (((o0 as u32) & 0x0F) | ((raw_value & 0x0F) << 4)) as u8;
            w1 = ((raw_value >> 4) & 0xFF) as u8;
        }
        let mut win: Vec<u8> = Vec::new();
        win.push(w0);
        win.push(w1);
        let ghost pre = *self;
        let r = self.write_fat_window(idx, win.as_slice());
        proof {
            if Self::fat_window_written(pre, *self, idx as int, win@) {
                let base = pre.fat_base();
                pre.lemma_fat_idx_bounds(cluster);
                pre.lemma_fat_region_bounds();
                assert(self.spec_raw()[base + idx] == w0 && self.spec_raw()[base + idx + 1] == w1)
                    by {
                    assert(self.spec_raw().subrange(base + idx, base + idx + 2) == win@);
                    assert(self.spec_raw().subrange(base + idx, base + idx + 2)[0] == self.spec_raw()[
                        base + idx]);
                    assert(self.spec_raw().subrange(base + idx, base + idx + 2)[1] == self.spec_raw()[
                        base + idx + 1]);
                    assert(win@[0] == w0 && win@[1] == w1);
                }
                if cluster % 2 == 0 {
                    assert(((raw_value & 0xFF) + 256 * ((((o1 as u32) & 0xF0) | ((raw_value >> 8)
                        & 0x0F)) % 16) == raw_value) && ((((o1 as u32) & 0xF0) | ((raw_value >> 8)
                        & 0x0F)) / 16 == (o1 as u32) / 16)) by (bit_vector)
                        requires
                            raw_value < 0x1000,
                    ;
                } else {
                    assert(((((o0 as u32) & 0x0F) | ((raw_value & 0x0F) << 4)) / 16 + 16 * ((
                    raw_value >> 4) & 0xFF) == raw_value) && ((((o0 as u32) & 0x0F) | ((raw_value
                        & 0x0F) << 4)) % 16 == (o0 as u32) % 16)) by (bit_vector)
                        requires
                            raw_value < 0x1000,
                    ;
                }
                assert(spec_fat_entry(pre.fat_type, self.spec_raw(), base, cluster as int)
                    == value);
                Self::lemma_set_effect(pre, *self, cluster, value, win@);
                if r is Ok {
                    Self::lemma_copies_entry(pre, *self, cluster, value, win@);
                }
            }
        }
        match r {
            Ok(()) => Ok(()),
            Err(e) => Err(e),
        }
    }

    /// Reads from a cluster, clamped to the end of the cluster.
    fn cluster_read(&self, cluster: u32, offset: usize, len: usize) -> (r: Result<
        Vec<u8>,
        Error,
    >)
        requires
            self.wf(),
            offset < self.spec_csize(),
        ensures
            (match r {
                Ok(v) => {
                    &&& self.cluster_in_range(cluster)
                    &&& v@.len() == if offset + len <= self.spec_csize() {
                        len as int
                    } else {
                        self.spec_csize() - offset
                    }
                    &&& v@ == self.spec_data(cluster as int).subrange(
                        offset as int,
                        offset + v@.len(),
                    )
                },
                Err(e) => e == Error::DeviceIO || (e == Error::InvalidClusterNumber
                    && !self.cluster_in_range(cluster)),
            }),
            !self.cluster_in_range(cluster) ==> r == Err::<Vec<u8>, Error>(
                Error::InvalidClusterNumber,
            ),
    {
        let first = match self.cluster_to_sector(cluster) {
            Ok(s) => s,
            Err(e) => {
                return Err(e);
            },
        };
        let cs = self.csize();
        let n = if len <= cs - offset {
            len
        } else {
            cs - offset
        };
        let ss = self.sector_size as usize;
        proof {
            self.lemma_cluster_bounds(cluster);
            self.dev.lemma_inv();
            lemma_fundamental_div_mod(offset as int, ss as int);
            lemma_mod_bound(offset as int, ss as int);
            lemma_div_pos_is_pos(offset as int, ss as int);
            assert((offset as int) / (ss as int) < self.sectors_in_cluster) by (nonlinear_arith)
                requires
                    offset < self.sectors_in_cluster * ss,
                    ss >= 1,
                    (offset as int) / (ss as int) >= 0,
                    ss * ((offset as int) / (ss as int)) + (offset as int) % (ss as int) == offset
                        as int,
                    0 <= (offset as int) % (ss as int) < ss,
            ;
            Self::lemma_fat_window_addr(first as int, ss as int, offset as int);
        }
        let sector = first + (offset / ss) as u32;
        let in_sector = offset % ss;
        let v = match self.dev.read(sector, in_sector, n) {
            Ok(v) => v,
            Err(_) => {
                return Err(Error::DeviceIO);
            },
        };
        proof {
            let base = self.cluster_base(cluster as int);
            assert(sector * self.sector_size + in_sector == base + offset);
            assert(v@ =~= self.spec_data(cluster as int).subrange(offset as int, offset + n));
        }
        Ok(v)
    }

    /// Writes into a cluster, clamped to the end of the cluster; the table
    /// and every other addressable cluster keep their bytes.
    fn cluster_write(&mut self, cluster: u32, offset: usize, buf: &[u8]) -> (r: Result<
        usize,
        Error,
    >)
        requires
            old(self).wf(),
            offset < old(self).spec_csize(),
        ensures
            final(self).wf(),
            final(self).geom() == old(self).geom(),
            final(self).spec_fat() == old(self).spec_fat(),
            final(self).spec_raw().len() == old(self).spec_raw().len(),
            (match r {
                Ok(n) => {
                    &&& old(self).cluster_in_range(cluster)
                    &&& n == if offset + buf@.len() <= old(self).spec_csize() {
                        buf@.len() as int
                    } else {
                        old(self).spec_csize() - offset
                    }
                    &&& final(self).spec_data(cluster as int) == seq_write(
                        old(self).spec_data(cluster as int),
                        offset as int,
                        buf@.take(n as int),
                    )
                    &&& forall|d: u32|
                        old(self).cluster_in_range(d) && d != cluster
                            ==> #[trigger] final(self).spec_data(d as int)
                            == old(self).spec_data(d as int)
                },
                Err(e) => {
                    &&& (e == Error::DeviceIO || (e == Error::InvalidClusterNumber && !old(
                        self,
                    ).cluster_in_range(cluster)))
                    &&& final(self).spec_raw() == old(self).spec_raw()
                },
            }),
            !old(self).cluster_in_range(cluster) ==> r == Err::<usize, Error>(
                Error::InvalidClusterNumber,
            ),
    {
        let first = match self.cluster_to_sector(cluster) {
            Ok(s) => s,
            Err(e) => {
                return Err(e);
            },
        };
        let cs = self.csize();
        let n = if buf.len() <= cs - offset {
            buf.len()
        } else {
            cs - offset
        };
        let part = vstd::slice::slice_subrange(buf, 0, n);
        let ss = self.sector_size as usize;
        proof {
            self.lemma_cluster_bounds(cluster);
            self.dev.lemma_inv();
            lemma_fundamental_div_mod(offset as int, ss as int);
            lemma_mod_bound(offset as int, ss as int);
            lemma_div_pos_is_pos(offset as int, ss as int);
            assert((offset as int) / (ss as int) < self.sectors_in_cluster) by (nonlinear_arith)
                requires
                    offset < self.sectors_in_cluster * ss,
                    ss >= 1,
                    (offset as int) / (ss as int) >= 0,
                    ss * ((offset as int) / (ss as int)) + (offset as int) % (ss as int) == offset
                        as int,
                    0 <= (offset as int) % (ss as int) < ss,
            ;
            Self::lemma_fat_window_addr(first as int, ss as int, offset as int);
        }
        let sector = first + (offset / ss) as u32;
        let in_sector = offset % ss;
        let ghost pre = *self;
        match self.dev.write(sector, in_sector, part) {
            Ok(()) => {},
            Err(_) => {
                return Err(Error::DeviceIO);
            },
        }
        proof {
            let base = pre.cluster_base(cluster as int);
            let at = base + offset;
            assert(sector * pre.sector_size + in_sector == at);
            assert(self.spec_raw() == seq_write(pre.spec_raw(), at, part@));
            assert(part@ == buf@.take(n as int));
            // the written window stays inside this cluster, above the table
            pre.lemma_fat_region_bounds();
            assert(self.spec_data(cluster as int) =~= seq_write(
                pre.spec_data(cluster as int),
                offset as int,
                buf@.take(n as int),
            ));
            assert forall|d: u32|
                pre.cluster_in_range(d) && d != cluster implies #[trigger] self.spec_data(
                d as int,
            ) == pre.spec_data(d as int) by {
                pre.lemma_cluster_disjoint(cluster, d);
                pre.lemma_cluster_bounds(d);
                assert(self.spec_data(d as int) =~= pre.spec_data(d as int));
            }
            assert(self.spec_fat() =~= pre.spec_fat()) by {
                crate::fat_codec::lemma_fat_view_agree(
                    pre.fat_type,
                    pre.spec_raw(),
                    self.spec_raw(),
                    pre.fat_base(),
                    pre.clusters_count as int,
                );
            }
        }
        Ok(n)
    }
}

/// A little-endian 16-bit boot-sector field.
pub open spec fn boot_u16(b: Seq<u8>, i: int) -> int {
    spec_le16(b[i], b[i + 1])
}

/// A little-endian 32-bit boot-sector field.
pub open spec fn boot_u32(b: Seq<u8>, i: int) -> int {
    spec_le32(b[i], b[i + 1], b[i + 2], b[i + 3])
}

/// The sector size the boot sector declares.
pub open spec fn boot_sector_size(b: Seq<u8>) -> int {
    boot_u16(b, 11)
}

/// The sectors-per-cluster count the boot sector declares.
pub open spec fn boot_sectors_in_cluster(b: Seq<u8>) -> int {
    b[13] as int
}

/// The reserved-sector count, which is also the first table sector.
pub open spec fn boot_reserved(b: Seq<u8>) -> int {
    boot_u16(b, 14)
}

/// The number of table copies.
pub open spec fn boot_fats(b: Seq<u8>) -> int {
    b[16] as int
}

/// The number of root-directory entries (FAT12/16).
pub open spec fn boot_root_entries(b: Seq<u8>) -> int {
    boot_u16(b, 17)
}

/// The total sector count: the 16-bit field, or the 32-bit one if that is 0.
pub open spec fn boot_total_sectors(b: Seq<u8>) -> int {
    if boot_u16(b, 19) != 0 {
        boot_u16(b, 19)
    } else {
        boot_u32(b, 32)
    }
}

/// The table size in sectors: the 16-bit field, or the 32-bit one if 0.
pub open spec fn boot_fat_size(b: Seq<u8>) -> int {
    if boot_u16(b, 22) != 0 {
        boot_u16(b, 22)
    } else {
        boot_u32(b, 36)
    }
}

/// The sectors the root-directory region occupies, rounded up.
pub open spec fn boot_root_dir_sectors(b: Seq<u8>) -> int {
    (boot_root_entries(b) * 32 + boot_sector_size(b) - 1) / boot_sector_size(b)
}

/// The sectors in front of the data area.
pub open spec fn boot_overhead(b: Seq<u8>) -> int {
    boot_reserved(b) + boot_fats(b) * boot_fat_size(b) + boot_root_dir_sectors(b)
}

/// The cluster count, which alone decides the FAT variant.
pub open spec fn boot_clusters_count(b: Seq<u8>) -> int {
    (boot_total_sectors(b) - boot_overhead(b)) / boot_sectors_in_cluster(b)
}

/// The FAT variant of the volume the boot sector describes.
pub open spec fn boot_fat_type(b: Seq<u8>) -> FatType {
    if boot_clusters_count(b) < 4085 {
        FatType::Fat12
    } else if boot_clusters_count(b) < 65525 {
        FatType::Fat16
    } else {
        FatType::Fat32
    }
}

/// The root cluster: a boot-sector field on FAT32, 0 otherwise.
pub open spec fn boot_root_cluster(b: Seq<u8>) -> int {
    if boot_fat_type(b) == FatType::Fat32 {
        boot_u32(b, 44)
    } else {
        0
    }
}

/// The whole geometry the boot sector describes.
pub open spec fn spec_boot_geom(b: Seq<u8>) -> Geometry {
    Geometry {
        root_cluster: boot_root_cluster(b) as u32,
        first_data_sector: boot_overhead(b) as u32,
        first_fat_table_sector: boot_reserved(b) as u32,
        sectors_in_cluster: boot_sectors_in_cluster(b) as u32,
        sector_size: boot_sector_size(b) as u32,
        clusters_count: boot_clusters_count(b) as u32,
        fats_count: boot_fats(b) as u32,
        fat_size_in_sectors: boot_fat_size(b) as u32,
        fat_type: boot_fat_type(b),
        root_dir_sectors: boot_root_dir_sectors(b) as u32,
    }
}

/// Whether the boot sector describes a geometry this driver can mount on a
/// device of the given sector size and length.
pub open spec fn spec_boot_geom_ok(b: Seq<u8>, dev_ss: nat, dev_len: nat) -> bool {
    &&& b.len() == 512
    &&& 512 <= boot_sector_size(b)
    &&& boot_sector_size(b) == dev_ss
    &&& 1 <= boot_sectors_in_cluster(b)
    &&& 1 <= boot_fats(b)
    &&& 1 <= boot_reserved(b)
    &&& 1 <= boot_fat_size(b)
    &&& boot_overhead(b) + boot_sectors_in_cluster(b) <= boot_total_sectors(b)
    &&& boot_total_sectors(b) <= dev_len as int / dev_ss as int
    &&& (boot_fat_type(b) == FatType::Fat32 ==> 2 <= boot_root_cluster(b) < boot_clusters_count(b)
        && boot_clusters_count(b) < 0x0FFF_FFF7)
    &&& (boot_fat_type(b) != FatType::Fat32 ==> boot_root_dir_sectors(b)
        >= boot_sectors_in_cluster(b))
    &&& fat_needed_bytes(boot_fat_type(b), boot_clusters_count(b)) <= boot_fat_size(b)
        * boot_sector_size(b)
    &&& boot_overhead(b) + boot_clusters_count(b) * boot_sectors_in_cluster(b)
        <= boot_total_sectors(b)
}

impl<D: BlockDevice> Fs<D> {
    /// Reads the boot sector, derives the geometry, refuses one that the
    /// driver cannot address, and takes ownership of the device.
    pub fn mount(dev: D) -> (r: Result<Fs<D>, Error>)
        requires
            dev.inv(),
        ensures
            (match r {
                Ok(fs) => {
                    &&& fs.wf()
                    &&& fs.spec_raw() == dev.bytes()
                    &&& spec_boot_geom_ok(
                        dev.bytes().take(512),
                        dev.spec_sector_size(),
                        dev.bytes().len(),
                    )
                    &&& fs.geom() == spec_boot_geom(dev.bytes().take(512))
                },
                Err(e) => e == Error::DeviceIO,
            }),
            !spec_boot_geom_ok(dev.bytes().take(512), dev.spec_sector_size(), dev.bytes().len())
                ==> r is Err,
    {
        let ghost b = dev.bytes().take(512);
        let boot = match dev.read(0, 0, 512) {
            Ok(v) => v,
            Err(_) => {
                return Err(Error::DeviceIO);
            },
        };
        proof {
            assert(boot@ =~= b);
        }
        let ss = le16(boot[11], boot[12]);
        let spc = boot[13] as u32;
        let reserved = le16(boot[14], boot[15]);
        let fats = boot[16] as u32;
        let root_entries = le16(boot[17], boot[18]);
        let total16 = le16(boot[19], boot[20]);
        let fat_size16 = le16(boot[22], boot[23]);
        let total32 = le32(boot[32], boot[33], boot[34], boot[35]);
        let fat_size32 = le32(boot[36], boot[37], boot[38], boot[39]);
        if ss < 512 {
            return Err(Error::DeviceIO);
        }
        let dss = match dev.lba_size() {
            Ok(s) => s,
            Err(_) => {
                return Err(Error::DeviceIO);
            },
        };
        if dss != ss as usize {
            return Err(Error::DeviceIO);
        }
        if spc < 1 || fats < 1 || reserved < 1 {
            return Err(Error::DeviceIO);
        }
        let fat_size = if fat_size16 != 0 {
            fat_size16
        } else {
            fat_size32
        };
        if fat_size < 1 {
            return Err(Error::DeviceIO);
        }
        let total = if total16 != 0 {
            total16
        } else {
            total32
        };
        let rds = (root_entries * 32 + (ss - 1)) / ss;
        proof {
            assert((fats as u64) * (fat_size as u64) <= 0xFF * 0xFFFF_FFFF) by (nonlinear_arith)
                requires
                    fats <= 0xFF,
                    fat_size <= 0xFFFF_FFFF,
            ;
        }
        let overhead64: u64 = reserved as u64 + (fats as u64) * (fat_size as u64) + rds as u64;
        if overhead64 + spc as u64 > total as u64 {
            return Err(Error::DeviceIO);
        }
        let count = match dev.count() {
            Ok(c) => c,
            Err(_) => {
                return Err(Error::DeviceIO);
            },
        };
        proof {
            dev.lemma_inv();
        }
        if total > count {
            return Err(Error::DeviceIO);
        }
        let cc64: u64 = ((total as u64) - overhead64) / (spc as u64);
        proof {
            lemma_div_nonincreasing((total as u64 - overhead64) as int, spc as int);
            lemma_div_pos_is_pos((total as u64 - overhead64) as int, spc as int);
        }
        let cc = cc64 as u32;
        let fat_type = determine_fat_type_by_clusters_count(cc);
        let root_cluster: u32;
        match fat_type {
            FatType::Fat32 => {
                root_cluster = le32(boot[44], boot[45], boot[46], boot[47]);
                if root_cluster < 2 || root_cluster >= cc || cc >= 0x0FFF_FFF7 {
                    return Err(Error::DeviceIO);
                }
            },
            _ => {
                root_cluster = 0;
                if rds < spc {
                    return Err(Error::DeviceIO);
                }
            },
        }
        let needed64: u64 = match fat_type {
            FatType::Fat12 => cc as u64 + (cc / 2) as u64 + 2,
            FatType::Fat16 => 2 * (cc as u64) + 2,
            FatType::Fat32 => 4 * (cc as u64) + 2,
        };
        proof {
            assert((fat_size as u64) * (ss as u64) <= 0xFFFF_FFFF * 0xFFFF && cc64 * (spc as u64)
                <= 0xFFFF_FFFF * 0xFF) by (nonlinear_arith)
                requires
                    fat_size <= 0xFFFF_FFFF,
                    ss <= 0xFFFF,
                    cc64 <= 0xFFFF_FFFF,
                    spc <= 0xFF,
            ;
        }
        if needed64 > (fat_size as u64) * (ss as u64) {
            return Err(Error::DeviceIO);
        }
        if overhead64 + cc64 * (spc as u64) > total as u64 {
            return Err(Error::DeviceIO);
        }
        proof {
            assert(cc64 >= 1) by (nonlinear_arith)
                requires
                    cc64 == ((total as u64 - overhead64) as int) / (spc as int),
                    total as u64 - overhead64 >= spc,
                    1 <= spc,
                    cc64 >= 0,
                    (total as u64 - overhead64) >= 0,
            ;
        }
        let fs = Fs {
            dev,
            root_cluster,
            first_data_sector: overhead64 as u32,
            first_fat_table_sector: reserved,
            sectors_in_cluster: spc,
            sector_size: ss,
            clusters_count: cc,
            fats_count: fats,
            fat_size_in_sectors: fat_size,
            fat_type,
            root_dir_sectors: rds,
        };
        proof {
            assert(fs.spec_raw().len() as int / fs.sector_size as int >= total) by {
                fs.dev.lemma_inv();
            }
            assert(fs.wf());
            assert(spec_boot_geom_ok(b, fs.dev.spec_sector_size(), fs.dev.bytes().len()));
            assert(fs.geom() == spec_boot_geom(b));
        }
        Ok(fs)
    }

    /// The FAT variant the volume was mounted as.
    pub fn fat_type(&self) -> (t: FatType)
        ensures
            t == self.geom().fat_type,
    {
        self.fat_type
    }

    /// Gives the device back, unmounting the volume.
    pub fn into_device(self) -> (r: D)
        ensures
            r.bytes() == self.spec_raw(),
            self.wf() ==> r.inv() && r.spec_sector_size() == self.geom().sector_size,
    {
        self.dev
    }

    /// Flushes the device; no byte of the volume changes.
    fn flush_device(&mut self) -> (r: Result<(), Error>)
        requires
            old(self).wf(),
        ensures
            final(self).wf(),
            final(self).geom() == old(self).geom(),
            final(self).spec_raw() == old(self).spec_raw(),
            (match r {
                Ok(()) => true,
                Err(e) => e == Error::DeviceIO,
            }),
    {
        match self.dev.flush() {
            Ok(()) => Ok(()),
            Err(_) => Err(Error::DeviceIO),
        }
    }
}

impl<D: BlockDevice> FileSystem for Fs<D> {
    open spec fn raw(&self) -> Seq<u8> {
        self.spec_raw()
    }

    open spec fn fat(&self) -> Seq<ClusterValue> {
        self.spec_fat()
    }

    open spec fn spec_fats_count(&self) -> int {
        self.geom().fats_count as int
    }

    open spec fn fat_in_copy(&self, k: int, c: int) -> ClusterValue {
        self.spec_fat_copy_entry(k, c)
    }

    open spec fn data(&self, c: int) -> Seq<u8> {
        self.spec_data(c)
    }

    open spec fn spec_root_cluster(&self) -> u32 {
        self.geom().root_cluster
    }

    open spec fn spec_cluster_count(&self) -> u32 {
        self.geom().clusters_count
    }

    open spec fn spec_cluster_size(&self) -> nat {
        self.spec_csize()
    }

    open spec fn spec_valid_cluster(&self, c: u32) -> bool {
        self.cluster_in_range(c)
    }

    open spec fn inv(&self) -> bool {
        self.wf()
    }

    proof fn lemma_inv(&self) {
        assert(512 <= self.sectors_in_cluster * self.sector_size <= 0xFF * 0xFFFF)
            by (nonlinear_arith)
            requires
                1 <= self.sectors_in_cluster <= 0xFF,
                512 <= self.sector_size <= 0xFFFF,
        ;
        assert(self.fat_copy_base(0) == self.fat_base()) by (nonlinear_arith)
            requires
                self.fat_copy_base(0) == self.fat_base() + 0 * (self.fat_size_in_sectors
                    * self.sector_size),
        ;
        assert forall|c: int| 0 <= c < self.spec_cluster_count() implies #[trigger] self.fat_in_copy(
            0,
            c,
        ) == self.fat()[c] by {
            assert(self.spec_fat()[c] == spec_fat_entry(
                self.fat_type,
                self.spec_raw(),
                self.fat_base(),
                c,
            ));
        }
        assert forall|c: u32| self.cluster_in_range(c) implies (#[trigger] self.spec_data(
            c as int,
        )).len() == self.spec_csize() by {
            self.lemma_cluster_bounds(c);
        }
    }

    fn root_cluster(&self) -> (r: u32) {
        self.root_cluster
    }

    fn cluster_count(&self) -> (r: u32) {
        self.clusters_count
    }

    fn cluster_size(&self) -> (r: usize) {
        self.csize()
    }

    fn read(&self, c: u32, offset: usize, len: usize) -> (r: Result<Vec<u8>, Error>) {
        self.cluster_read(c, offset, len)
    }

    fn write(&mut self, c: u32, offset: usize, buf: &[u8]) -> (r: Result<usize, Error>) {
        self.cluster_write(c, offset, buf)
    }

    fn fat_table_get(&self, c: u32) -> (r: Result<ClusterValue, Error>) {
        if c >= self.clusters_count {
            return Err(Error::InvalidClusterNumber);
        }
        match self.fat_type {
            FatType::Fat12 => self.fat12_table_get(c),
            FatType::Fat16 => self.fat16_table_get(c),
            FatType::Fat32 => self.fat32_table_get(c),
        }
    }

    fn fat_table_set(&mut self, c: u32, value: ClusterValue) -> (r: Result<(), Error>) {
        if c >= self.clusters_count {
            return Err(Error::InvalidClusterNumber);
        }
        match self.fat_type {
            FatType::Fat12 => self.fat12_table_set(c, value),
            FatType::Fat16 => self.fat16_table_set(c, value),
            FatType::Fat32 => self.fat32_table_set(c, value),
        }
    }

    fn flush(&mut self) -> (r: Result<(), Error>) {
        self.flush_device()
    }
}

} // verus!
