//! A FAT filesystem driver over a sector-addressed block device.
//!
//! The driver mounts FAT12, FAT16 and FAT32 volumes, decodes and encodes
//! cluster entries in the file allocation table, follows and grows cluster
//! chains, walks directories (including long-filename records) and reads and
//! writes file contents.  Every layer carries contracts over a mathematical
//! view of the volume: the device is a flat byte sequence, the table a
//! sequence of cluster values, and each cluster a byte sequence.

use vstd::prelude::*;

pub mod block_device;
pub mod bytes;
pub mod dir;
pub mod dir_entry;
pub mod dir_iterator;
pub mod fat_codec;
pub mod fat_table;
pub mod file;
pub mod fs;
pub mod lfn;
pub mod path;
pub mod ram_device;
pub mod stream;

verus! {

/// Errors surfaced by every fallible operation of the driver.
#[derive(Clone, Copy, Debug, PartialEq, Eq, Structural)]
pub enum Error {
    /// A file operation was attempted on an entry that is not a file.
    NotFile,
    /// A directory operation was attempted on an entry that is not a directory.
    NotDir,
    /// Name resolution failed.
    NotFound,
    /// A `Free` or `Bad` table entry was met in the middle of a cluster chain.
    UnexpectedClusterValue,
    /// A cluster chain ended before the operation expected it to.
    UnexpectedEndOfFile,
    /// A cluster index was out of range for the volume.
    InvalidClusterNumber,
    /// The allocator found no free cluster.
    NoFreeCluster,
    /// Removal of a directory that still holds entries.
    DirNotEmpty,
    /// Creation of a name that already resolves.
    ObjectAlreadyExist,
    /// The block device failed, or the boot sector does not describe a
    /// geometry this driver can address.
    DeviceIO,
}

/// The three on-disk formats of the file allocation table.
#[derive(Clone, Copy, Debug, PartialEq, Eq, Structural)]
pub enum FatType {
    Fat12,
    Fat16,
    Fat32,
}

/// The decoded value of one entry of the file allocation table.
#[derive(Clone, Copy, Debug, PartialEq, Eq, Structural)]
pub enum ClusterValue {
    /// The cluster is unallocated.
    Free,
    /// The cluster is allocated and the chain continues at the given cluster.
    Next(u32),
    /// The cluster is allocated and ends its chain.
    Last,
    /// The cluster is marked unusable.
    Bad,
}

/// The volume as the directory, stream and chain layers see it, implemented
/// by [`fs::Fs`] and consumed generically.
///
/// The abstraction has three parts: the table `fat()`, one [`ClusterValue`]
/// per cluster index below `spec_cluster_count()`; the content `data(c)` of
/// each addressable cluster, `spec_cluster_size()` bytes; and the raw volume
/// bytes `raw()`, which only `flush` speaks of.  Mutating operations keep the
/// geometry (root, count, size) unchanged and state exactly which part of the
/// view they move.
pub trait FileSystem: Sized {
    /// Every byte of the volume, in address order.
    spec fn raw(&self) -> Seq<u8>;

    /// The decoded file allocation table.
    spec fn fat(&self) -> Seq<ClusterValue>;

    /// How many copies of the table the volume keeps.
    spec fn spec_fats_count(&self) -> int;

    /// The entry of cluster `c` as table copy `k` stores it.
    spec fn fat_in_copy(&self, k: int, c: int) -> ClusterValue;

    /// The content of cluster `c`.
    spec fn data(&self, c: int) -> Seq<u8>;

    /// The cluster the root directory starts at (0 on FAT12/16).
    spec fn spec_root_cluster(&self) -> u32;

    /// The number of table entries, including the two reserved ones.
    spec fn spec_cluster_count(&self) -> u32;

    /// The size of one cluster in bytes.
    spec fn spec_cluster_size(&self) -> nat;

    /// Indices accepted by the cluster-to-sector mapping: the root region
    /// and the data clusters reachable from it.
    spec fn spec_valid_cluster(&self, c: u32) -> bool;

    /// Internal well-formedness, established at mount.
    spec fn inv(&self) -> bool;

    /// Shape facts every well-formed volume provides.
    proof fn lemma_inv(&self)
        requires
            self.inv(),
        ensures
            self.fat().len() == self.spec_cluster_count(),
            1 <= self.spec_cluster_count(),
            1 <= self.spec_fats_count(),
            forall|c: int|
                0 <= c < self.spec_cluster_count() ==> #[trigger] self.fat_in_copy(0, c)
                    == self.fat()[c],
            512 <= self.spec_cluster_size() <= 0x100_0000,
            self.spec_valid_cluster(self.spec_root_cluster()),
            forall|c: u32| self.spec_valid_cluster(c) ==> c < self.spec_cluster_count(),
            forall|c: u32|
                self.spec_valid_cluster(c) ==> (#[trigger] self.data(c as int)).len()
                    == self.spec_cluster_size(),
    ;

    /// The cluster the root directory starts at.
    fn root_cluster(&self) -> (r: u32)
        requires
            self.inv(),
        ensures
            r == self.spec_root_cluster(),
    ;

    /// The number of table entries.
    fn cluster_count(&self) -> (r: u32)
        requires
            self.inv(),
        ensures
            r == self.spec_cluster_count(),
    ;

    /// The size of one cluster in bytes.
    fn cluster_size(&self) -> (r: usize)
        requires
            self.inv(),
        ensures
            r == self.spec_cluster_size(),
    ;

    /// Reads from cluster `c`, starting at `offset`, at most up to the end of
    /// the cluster: on success exactly `min(len, cluster_size - offset)`
    /// bytes come back.
    fn read(&self, c: u32, offset: usize, len: usize) -> (r: Result<Vec<u8>, Error>)
        requires
            self.inv(),
            offset < self.spec_cluster_size(),
        ensures
            (match r {
                Ok(v) => {
                    &&& self.spec_valid_cluster(c)
                    &&& v@.len() == if offset + len <= self.spec_cluster_size() {
                        len as int
                    } else {
                        self.spec_cluster_size() - offset
                    }
                    &&& v@ == self.data(c as int).subrange(offset as int, offset + v@.len())
                },
                Err(e) => e == Error::DeviceIO || (e == Error::InvalidClusterNumber
                    && !self.spec_valid_cluster(c)),
            }),
            !self.spec_valid_cluster(c) ==> r == Err::<Vec<u8>, Error>(Error::InvalidClusterNumber),
    ;

    /// Writes into cluster `c`, starting at `offset`, at most up to the end
    /// of the cluster; the table and every other cluster are untouched.
    fn write(&mut self, c: u32, offset: usize, buf: &[u8]) -> (r: Result<usize, Error>)
        requires
            old(self).inv(),
            offset < old(self).spec_cluster_size(),
        ensures
            final(self).inv(),
            final(self).spec_root_cluster() == old(self).spec_root_cluster(),
            final(self).spec_cluster_count() == old(self).spec_cluster_count(),
            final(self).spec_cluster_size() == old(self).spec_cluster_size(),
            final(self).fat() == old(self).fat(),
            forall|d: u32| final(self).spec_valid_cluster(d) == old(self).spec_valid_cluster(d),
            (match r {
                Ok(n) => {
                    &&& old(self).spec_valid_cluster(c)
                    &&& n == if offset + buf@.len() <= old(self).spec_cluster_size() {
                        buf@.len() as int
                    } else {
                        old(self).spec_cluster_size() - offset
                    }
                    &&& final(self).data(c as int) == crate::bytes::seq_write(
                        old(self).data(c as int),
                        offset as int,
                        buf@.take(n as int),
                    )
                    &&& forall|d: u32|
                        old(self).spec_valid_cluster(d) && d != c
                            ==> #[trigger] final(self).data(d as int) == old(self).data(d as int)
                },
                Err(e) => {
                    &&& (e == Error::DeviceIO || (e == Error::InvalidClusterNumber && !old(
                        self,
                    ).spec_valid_cluster(c)))
                    &&& final(self).raw() == old(self).raw()
                    &&& forall|d: u32|
                        old(self).spec_valid_cluster(d)
                            ==> #[trigger] final(self).data(d as int) == old(self).data(d as int)
                },
            }),
            !old(self).spec_valid_cluster(c) ==> r == Err::<usize, Error>(
                Error::InvalidClusterNumber,
            ),
    ;

    /// Decodes the table entry of cluster `c`.
    fn fat_table_get(&self, c: u32) -> (r: Result<ClusterValue, Error>)
        requires
            self.inv(),
        ensures
            (match r {
                Ok(v) => c < self.spec_cluster_count() && v == self.fat()[c as int],
                Err(e) => e == Error::DeviceIO || (e == Error::InvalidClusterNumber && c
                    >= self.spec_cluster_count()),
            }),
            c >= self.spec_cluster_count() ==> r == Err::<ClusterValue, Error>(
                Error::InvalidClusterNumber,
            ),
    ;

    /// Encodes `value` into the table entry of cluster `c`, in every copy of
    /// the table; in the first copy — the one the decoded view reads — every
    /// other entry and every cluster are untouched.  A `Next` payload names
    /// the successor cluster of a chain, so it lies between 2 and the
    /// cluster count: a twelve-bit entry could not hold an arbitrary number
    /// faithfully, and no chain ever needs one.
    fn fat_table_set(&mut self, c: u32, value: ClusterValue) -> (r: Result<(), Error>)
        requires
            old(self).inv(),
            (value matches ClusterValue::Next(n) ==> 2 <= n < old(self).spec_cluster_count()),
        ensures
            final(self).inv(),
            final(self).spec_root_cluster() == old(self).spec_root_cluster(),
            final(self).spec_cluster_count() == old(self).spec_cluster_count(),
            final(self).spec_cluster_size() == old(self).spec_cluster_size(),
            forall|d: u32| final(self).spec_valid_cluster(d) == old(self).spec_valid_cluster(d),
            forall|d: u32|
                old(self).spec_valid_cluster(d) ==> #[trigger] final(self).data(d as int) == old(
                    self,
                ).data(d as int),
            final(self).spec_fats_count() == old(self).spec_fats_count(),
            (match r {
                Ok(()) => {
                    &&& c < old(self).spec_cluster_count()
                    &&& final(self).fat() == old(self).fat().update(c as int, value)
                    &&& forall|k: int|
                        0 <= k < old(self).spec_fats_count()
                            ==> #[trigger] final(self).fat_in_copy(k, c as int) == value
                },
                Err(e) => {
                    &&& (e == Error::DeviceIO || (e == Error::InvalidClusterNumber && c >= old(
                        self,
                    ).spec_cluster_count()))
                    &&& (final(self).fat() == old(self).fat() || final(self).fat() == old(
                        self,
                    ).fat().update(c as int, value))
                },
            }),
            c >= old(self).spec_cluster_count() ==> r == Err::<(), Error>(
                Error::InvalidClusterNumber,
            ) && final(self).raw() == old(self).raw(),
    ;

    /// Flushes the device.  No byte of the volume changes.
    fn flush(&mut self) -> (r: Result<(), Error>)
        requires
            old(self).inv(),
        ensures
            final(self).inv(),
            final(self).raw() == old(self).raw(),
            final(self).fat() == old(self).fat(),
            final(self).spec_root_cluster() == old(self).spec_root_cluster(),
            final(self).spec_cluster_count() == old(self).spec_cluster_count(),
            final(self).spec_cluster_size() == old(self).spec_cluster_size(),
            forall|d: u32| final(self).spec_valid_cluster(d) == old(self).spec_valid_cluster(d),
            forall|d: u32|
                old(self).spec_valid_cluster(d) ==> #[trigger] final(self).data(d as int) == old(
                    self,
                ).data(d as int),
            (match r {
                Ok(()) => true,
                Err(e) => e == Error::DeviceIO,
            }),
    ;
}

/// The FAT variant is determined by the cluster count alone; the type
/// string in the boot sector is ignored.
pub open spec fn spec_fat_type(clusters_count: u32) -> FatType {
    if clusters_count < 4085 {
        FatType::Fat12
    } else if clusters_count < 65525 {
        FatType::Fat16
    } else {
        FatType::Fat32
    }
}

/// Picks the FAT variant from the cluster count, as the mount procedure does.
pub fn determine_fat_type_by_clusters_count(count: u32) -> (t: FatType)
    ensures
        t == spec_fat_type(count),
{
    if count < 4085 {
        FatType::Fat12
    } else if count < 65525 {
        FatType::Fat16
    } else {
        FatType::Fat32
    }
}

} // verus!
