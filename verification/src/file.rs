//! An open file: its directory entry, a cursor over its cluster chain, the
//! byte offset reached, and whether the entry must be written back.

use vstd::prelude::*;

use crate::dir_entry::spec_entry_size;
use crate::dir_entry::spec_is_file;
use crate::dir_entry::DirEntry;
use crate::stream::Stream;
use crate::ClusterValue;
use crate::Error;
use crate::FileSystem;

verus! {

/// An open file.
pub struct File {
    dir_entry: DirEntry,
    stream: Stream,
    offset: u32,
    is_dirty: bool,
}

impl File {
    /// The directory entry the file was opened from.
    pub closed spec fn spec_entry(&self) -> DirEntry {
        self.dir_entry
    }

    /// The cursor over the file's chain.
    pub closed spec fn spec_stream(&self) -> Stream {
        self.stream
    }

    /// The byte offset reached.
    pub closed spec fn spec_offset(&self) -> int {
        self.offset as int
    }

    /// Whether the entry holds a size not yet on disk.
    pub closed spec fn spec_dirty(&self) -> bool {
        self.is_dirty
    }

    /// The file size the entry holds.
    pub open spec fn spec_size(&self) -> int {
        spec_entry_size(self.spec_entry().spec_raw())
    }

    /// The entry is a whole record.
    pub closed spec fn wf(&self) -> bool {
        self.dir_entry.wf()
    }

    /// Opens the file an entry names; an entry that is not a file is
    /// refused.
    pub fn open(dir_entry: DirEntry) -> (r: Result<File, Error>)
        requires
            dir_entry.wf(),
        ensures
            (match r {
                Ok(f) => {
                    &&& spec_is_file(dir_entry.spec_raw()[11])
                    &&& f.wf()
                    &&& f.spec_entry() == dir_entry
                    &&& f.spec_offset() == 0
                    &&& !f.spec_dirty()
                    &&& f.spec_stream().spec_cluster() == crate::dir_entry::spec_entry_cluster(
                        dir_entry.spec_raw(),
                    )
                    &&& f.spec_stream().spec_offset() == 0
                },
                Err(e) => e == Error::NotFile && !spec_is_file(dir_entry.spec_raw()[11]),
            }),
    {
        if !dir_entry.is_file() {
            return Err(Error::NotFile);
        }
        let cluster = dir_entry.cluster();
        Ok(File { stream: Stream::open(cluster), dir_entry, offset: 0, is_dirty: false })
    }

    /// Reads up to `len` bytes at the current offset, never past the stored
    /// size, and moves the offset by what came back.
    pub fn read<F: FileSystem>(&mut self, fs: &F, len: usize) -> (r: Result<Vec<u8>, Error>)
        requires
            fs.inv(),
            old(self).wf(),
            old(self).spec_stream().spec_offset() <= fs.spec_cluster_size(),
        ensures
            final(self).wf(),
            final(self).spec_entry() == old(self).spec_entry(),
            final(self).spec_dirty() == old(self).spec_dirty(),
            final(self).spec_stream().spec_offset() <= fs.spec_cluster_size(),
            (match r {
                Ok(v) => {
                    &&& v@.len() <= len
                    &&& old(self).spec_offset() + v@.len() <= old(self).spec_size()
                        || v@.len() == 0
                    &&& final(self).spec_offset() == old(self).spec_offset() + v@.len()
                    &&& (crate::stream::stream_ok(fs, old(self).spec_stream()) ==> v@
                        == crate::stream::stream_rest(fs, old(self).spec_stream()).take(
                        v@.len() as int,
                    ) && v@.len() == vstd::math::min(
                        vstd::math::min(
                            len as int,
                            if old(self).spec_size() >= old(self).spec_offset() {
                                old(self).spec_size() - old(self).spec_offset()
                            } else {
                                0
                            },
                        ),
                        crate::stream::stream_rest(fs, old(self).spec_stream()).len() as int,
                    ))
                },
                Err(e) => {
                    &&& (e == Error::UnexpectedClusterValue || e == Error::DeviceIO || e
                        == Error::InvalidClusterNumber)
                    &&& final(self).spec_offset() == old(self).spec_offset()
                },
            }),
    {
        let size = self.dir_entry.size();
        let remaining: u32 = if size >= self.offset {
            size - self.offset
        } else {
            0
        };
        let len_to_read: usize = if len as u64 <= remaining as u64 {
            len
        } else {
            remaining as usize
        };
        let v = match self.stream.read(fs, len_to_read) {
            Ok(v) => v,
            Err(e) => {
                return Err(e);
            },
        };
        self.offset = self.offset + (v.len() as u32);
        Ok(v)
    }

    /// Writes the whole buffer at the current offset, growing the chain as
    /// needed; an offset moved past the stored size marks the entry dirty
    /// with the new size.
    pub fn write<F: FileSystem>(&mut self, fs: &mut F, buf: &[u8]) -> (r: Result<usize, Error>)
        requires
            old(fs).inv(),
            old(self).wf(),
            old(self).spec_stream().spec_offset() <= old(fs).spec_cluster_size(),
            old(self).spec_offset() + buf@.len() <= u32::MAX,
        ensures
            final(fs).inv(),
            final(fs).spec_root_cluster() == old(fs).spec_root_cluster(),
            final(fs).spec_cluster_count() == old(fs).spec_cluster_count(),
            final(fs).spec_cluster_size() == old(fs).spec_cluster_size(),
            forall|d: u32| final(fs).spec_valid_cluster(d) == old(fs).spec_valid_cluster(d),
            final(self).wf(),
            final(self).spec_stream().spec_offset() <= old(fs).spec_cluster_size(),
            (match r {
                Ok(n) => {
                    &&& n == buf@.len()
                    &&& final(self).spec_offset() == old(self).spec_offset() + n
                    &&& final(self).spec_size() == vstd::math::max(
                        old(self).spec_size(),
                        final(self).spec_offset(),
                    )
                    &&& final(self).spec_dirty() == (old(self).spec_dirty()
                        || final(self).spec_offset() > old(self).spec_size())
                    &&& (crate::stream::stream_ok(&*old(fs), old(self).spec_stream()) ==> {
                        let st = old(self).spec_stream();
                        let s = crate::fat_table::chain(old(fs).fat(), st.spec_cluster()).unwrap();
                        let cs = old(fs).spec_cluster_size() as int;
                        let end = st.spec_offset() + buf@.len();
                        let s2 = crate::fat_table::chain(
                            final(fs).fat(),
                            st.spec_cluster(),
                        ).unwrap();
                        &&& crate::fat_table::chain(final(fs).fat(), st.spec_cluster()) is Some
                        &&& s2.take(s.len() as int) == s
                        &&& s2.len() == crate::stream::grown_len(s.len() as int, end, cs)
                        &&& crate::stream::chain_bytes(&*final(fs), s2) == crate::bytes::seq_write(
                            crate::stream::chain_bytes(&*old(fs), s) + crate::bytes::zeros(
                                ((s2.len() - s.len()) * cs) as nat,
                            ),
                            st.spec_offset(),
                            buf@,
                        )
                        &&& (forall|d: u32|
                        d < old(fs).spec_cluster_count() && !crate::fat_table::chain(
                            final(fs).fat(),
                            st.spec_cluster(),
                        ).unwrap().contains(d) ==> (#[trigger] final(fs).fat()[d as int])
                            == old(fs).fat()[d as int])
                        &&& (forall|d: u32|
                        old(fs).spec_valid_cluster(d) && !crate::fat_table::chain(
                            final(fs).fat(),
                            st.spec_cluster(),
                        ).unwrap().contains(d) ==> (#[trigger] final(fs).data(d as int))
                            == old(fs).data(d as int))
                    })
                },
                Err(e) => {
                    &&& (e == Error::UnexpectedClusterValue || e == Error::DeviceIO || e
                        == Error::InvalidClusterNumber || e == Error::NoFreeCluster)
                    &&& (crate::stream::stream_ok(&*old(fs), old(self).spec_stream()) ==> e
                        != Error::UnexpectedClusterValue)
                    &&& (e == Error::NoFreeCluster ==> forall|d: u32|
                        2 <= d < old(fs).spec_cluster_count()
                            ==> (#[trigger] final(fs).fat()[d as int]) != ClusterValue::Free)
                },
            }),
    {
        let n = match self.stream.write(fs, buf) {
            Ok(n) => n,
            Err(e) => {
                return Err(e);
            },
        };
        self.offset = self.offset + (n as u32);
        if self.offset > self.dir_entry.size() {
            self.dir_entry.set_size(self.offset);
            self.is_dirty = true;
        }
        Ok(n)
    }

    /// Writes the entry back when it is dirty.
    pub fn flush<F: FileSystem>(&mut self, fs: &mut F) -> (r: Result<(), Error>)
        requires
            old(fs).inv(),
            old(self).wf(),
            old(self).spec_entry().spec_stream().spec_offset() <= old(fs).spec_cluster_size(),
        ensures
            final(fs).inv(),
            final(fs).spec_root_cluster() == old(fs).spec_root_cluster(),
            final(fs).spec_cluster_count() == old(fs).spec_cluster_count(),
            final(fs).spec_cluster_size() == old(fs).spec_cluster_size(),
            forall|d: u32| final(fs).spec_valid_cluster(d) == old(fs).spec_valid_cluster(d),
            final(self).wf(),
            final(self).spec_entry() == old(self).spec_entry(),
            final(self).spec_offset() == old(self).spec_offset(),
            final(self).spec_stream() == old(self).spec_stream(),
            !old(self).spec_dirty() ==> final(fs).raw() == old(fs).raw() && final(fs).fat()
                == old(fs).fat() && !final(self).spec_dirty(),
            (match r {
                Ok(()) => {
                    &&& !final(self).spec_dirty()
                    &&& (old(self).spec_dirty() && crate::stream::stream_ok(
                        &*old(fs),
                        old(self).spec_entry().spec_stream(),
                    ) ==> {
                        let st = old(self).spec_entry().spec_stream();
                        let s = crate::fat_table::chain(old(fs).fat(), st.spec_cluster()).unwrap();
                        let s2 = crate::fat_table::chain(
                            final(fs).fat(),
                            st.spec_cluster(),
                        ).unwrap();
                        &&& crate::fat_table::chain(final(fs).fat(), st.spec_cluster()) is Some
                        &&& crate::stream::chain_bytes(&*final(fs), s2) == crate::bytes::seq_write(
                            crate::stream::chain_bytes(&*old(fs), s) + crate::bytes::zeros(
                                ((s2.len() - s.len()) * old(fs).spec_cluster_size()) as nat,
                            ),
                            st.spec_offset(),
                            old(self).spec_entry().spec_raw(),
                        )
                        &&& (forall|d: u32|
                        d < old(fs).spec_cluster_count() && !crate::fat_table::chain(
                            final(fs).fat(),
                            st.spec_cluster(),
                        ).unwrap().contains(d) ==> (#[trigger] final(fs).fat()[d as int])
                            == old(fs).fat()[d as int])
                        &&& (forall|d: u32|
                        old(fs).spec_valid_cluster(d) && !crate::fat_table::chain(
                            final(fs).fat(),
                            st.spec_cluster(),
                        ).unwrap().contains(d) ==> (#[trigger] final(fs).data(d as int))
                            == old(fs).data(d as int))
                    })
                },
                Err(e) => e == Error::UnexpectedClusterValue || e == Error::DeviceIO || e
                    == Error::InvalidClusterNumber || e == Error::NoFreeCluster,
            }),
    {
        if self.is_dirty {
            match self.dir_entry.flush(fs) {
                Ok(()) => {},
                Err(e) => {
                    return Err(e);
                },
            }
            self.is_dirty = false;
        }
        Ok(())
    }

    /// Cuts the chain at the current cluster and makes the current offset
    /// the size.
    pub fn truncate<F: FileSystem>(&mut self, fs: &mut F) -> (r: Result<u32, Error>)
        requires
            old(fs).inv(),
            old(self).wf(),
        ensures
            final(fs).inv(),
            final(fs).spec_root_cluster() == old(fs).spec_root_cluster(),
            final(fs).spec_cluster_count() == old(fs).spec_cluster_count(),
            final(fs).spec_cluster_size() == old(fs).spec_cluster_size(),
            forall|d: u32| final(fs).spec_valid_cluster(d) == old(fs).spec_valid_cluster(d),
            final(self).wf(),
            forall|d: u32|
                old(fs).spec_valid_cluster(d) ==> (#[trigger] final(fs).data(d as int)) == old(
                    fs,
                ).data(d as int),
            (match r {
                Ok(n) => {
                    &&& n == old(self).spec_offset()
                    &&& final(self).spec_size() == old(self).spec_offset()
                    &&& final(self).spec_dirty()
                    &&& (crate::fat_table::chain(
                        old(fs).fat(),
                        old(self).spec_stream().spec_cluster(),
                    ) matches Some(s) ==> final(fs).fat() == crate::fat_table::free_all(
                        old(fs).fat(),
                        s,
                    ).update(old(self).spec_stream().spec_cluster() as int, ClusterValue::Last))
                },
                Err(e) => e == Error::UnexpectedClusterValue || e == Error::DeviceIO || e
                    == Error::InvalidClusterNumber,
            }),
            (crate::fat_table::chain(old(fs).fat(), old(self).spec_stream().spec_cluster())
                is Some ==> r is Ok || r == Err::<u32, Error>(Error::DeviceIO)),
    {
        match self.stream.truncate(fs) {
            Ok(()) => {},
            Err(e) => {
                return Err(e);
            },
        }
        self.dir_entry.set_size(self.offset);
        self.is_dirty = true;
        Ok(self.offset)
    }

    /// Flushes and gives the file up.
    pub fn close<F: FileSystem>(self, fs: &mut F) -> (r: Result<(), Error>)
        requires
            old(fs).inv(),
            self.wf(),
            self.spec_entry().spec_stream().spec_offset() <= old(fs).spec_cluster_size(),
        ensures
            final(fs).inv(),
            final(fs).spec_root_cluster() == old(fs).spec_root_cluster(),
            final(fs).spec_cluster_count() == old(fs).spec_cluster_count(),
            final(fs).spec_cluster_size() == old(fs).spec_cluster_size(),
            forall|d: u32| final(fs).spec_valid_cluster(d) == old(fs).spec_valid_cluster(d),
            !self.spec_dirty() ==> final(fs).raw() == old(fs).raw() && final(fs).fat() == old(
                fs,
            ).fat(),
            (match r {
                Ok(()) => (self.spec_dirty() && crate::stream::stream_ok(
                    &*old(fs),
                    self.spec_entry().spec_stream(),
                ) ==> {
                    let st = self.spec_entry().spec_stream();
                    let s = crate::fat_table::chain(old(fs).fat(), st.spec_cluster()).unwrap();
                    let s2 = crate::fat_table::chain(final(fs).fat(), st.spec_cluster()).unwrap();
                    &&& crate::fat_table::chain(final(fs).fat(), st.spec_cluster()) is Some
                    &&& crate::stream::chain_bytes(&*final(fs), s2) == crate::bytes::seq_write(
                        crate::stream::chain_bytes(&*old(fs), s) + crate::bytes::zeros(
                            ((s2.len() - s.len()) * old(fs).spec_cluster_size()) as nat,
                        ),
                        st.spec_offset(),
                        self.spec_entry().spec_raw(),
                    )
                    &&& (forall|d: u32|
                        d < old(fs).spec_cluster_count() && !crate::fat_table::chain(
                            final(fs).fat(),
                            st.spec_cluster(),
                        ).unwrap().contains(d) ==> (#[trigger] final(fs).fat()[d as int])
                            == old(fs).fat()[d as int])
                    &&& (forall|d: u32|
                        old(fs).spec_valid_cluster(d) && !crate::fat_table::chain(
                            final(fs).fat(),
                            st.spec_cluster(),
                        ).unwrap().contains(d) ==> (#[trigger] final(fs).data(d as int))
                            == old(fs).data(d as int))
                }),
                Err(e) => e == Error::UnexpectedClusterValue || e == Error::DeviceIO || e
                    == Error::InvalidClusterNumber || e == Error::NoFreeCluster,
            }),
    {
        let mut f = self;
        f.flush(fs)
    }
}

} // verus!
