//! Directories: opening, walking, creating and removing entries, with path
//! resolution over the components a path names.

use vstd::prelude::*;

use crate::ClusterValue;
use crate::dir_entry;
use crate::dir_entry::spec_entry_cluster;
use crate::dir_entry::spec_is_dir;
use crate::dir_entry::spec_is_file;
use crate::dir_entry::spec_short_name;
use crate::dir_entry::DirEntry;
use crate::dir_iterator::DirIterator;
use crate::file::File;
use crate::lfn;
use crate::path::Path;
use crate::stream::Stream;
use crate::Error;
use crate::FileSystem;

verus! {

/// Whether the directory starting at `cluster` lies on a sound chain whose
/// first record is a live short entry — no free or removed record, no
/// long-name record, a file or a directory.
pub open spec fn first_record_live<F: FileSystem>(fs: &F, cluster: u32) -> bool {
    &&& crate::fat_table::chain(fs.fat(), cluster) is Some
    &&& crate::stream::valid_chain(fs, crate::fat_table::chain(fs.fat(), cluster).unwrap())
    &&& first_record(fs, cluster).len() == 32
    &&& first_record(fs, cluster)[0] != crate::dir_entry::FREE_ENTRY
    &&& first_record(fs, cluster)[0] != crate::dir_entry::REMOVED_ENTRY
    &&& !crate::lfn::spec_is_lfn(first_record(fs, cluster))
    &&& (spec_is_file(first_record(fs, cluster)[11]) || spec_is_dir(
        first_record(fs, cluster)[11],
    ))
}

/// The first 32-byte record of the directory starting at `cluster`.
pub open spec fn first_record<F: FileSystem>(fs: &F, cluster: u32) -> Seq<u8> {
    crate::stream::chain_bytes(fs, crate::fat_table::chain(fs.fat(), cluster).unwrap()).take(32)
}

/// The name the first record stores.
pub open spec fn first_record_name<F: FileSystem>(fs: &F, cluster: u32) -> Seq<u8> {
    crate::dir_entry::spec_entry_name(
        first_record(fs, cluster).subrange(0, 11),
        spec_is_file(first_record(fs, cluster)[11]),
    )
}

/// The cluster chain owned by the entry standing first in the directory at
/// `dir_cluster`.
pub open spec fn first_entry_chain<F: FileSystem>(fs: &F, dir_cluster: u32) -> Seq<u32> {
    crate::fat_table::chain(
        fs.fat(),
        spec_entry_cluster(first_record(fs, dir_cluster)) as u32,
    ).unwrap()
}

/// Whether that chain exists and shares no cluster with the directory's own
/// chain: the file's clusters stand apart from the records that name it.
pub open spec fn first_entry_chain_apart<F: FileSystem>(fs: &F, dir_cluster: u32) -> bool {
    &&& crate::fat_table::chain(
        fs.fat(),
        spec_entry_cluster(first_record(fs, dir_cluster)) as u32,
    ) is Some
    &&& forall|i: int|
        0 <= i < first_entry_chain(fs, dir_cluster).len()
            ==> !crate::fat_table::chain(fs.fat(), dir_cluster).unwrap().contains(
            #[trigger] first_entry_chain(fs, dir_cluster)[i],
        )
}

/// A directory: the cluster its records start at.
#[derive(Clone, Copy)]
pub struct Dir {
    cluster: u32,
}

impl Dir {
    /// The cluster the records start at.
    pub closed spec fn spec_cluster(&self) -> u32 {
        self.cluster
    }

    /// The root directory of the volume.
    pub fn root<F: FileSystem>(fs: &F) -> (r: Result<Dir, Error>)
        requires
            fs.inv(),
        ensures
            (match r {
                Ok(d) => d.spec_cluster() == fs.spec_root_cluster(),
                Err(_) => false,
            }),
    {
        Ok(Dir { cluster: fs.root_cluster() })
    }

    /// Opens the directory an entry names; a file entry is refused.
    pub fn open(&self, dir_entry: &DirEntry) -> (r: Result<Dir, Error>)
        requires
            dir_entry.wf(),
        ensures
            (match r {
                Ok(d) => spec_is_dir(dir_entry.spec_raw()[11]) && d.spec_cluster()
                    == spec_entry_cluster(dir_entry.spec_raw()),
                Err(e) => e == Error::NotDir && !spec_is_dir(dir_entry.spec_raw()[11]),
            }),
    {
        if !dir_entry.is_dir() {
            return Err(Error::NotDir);
        }
        Ok(Dir { cluster: dir_entry.cluster() })
    }

    /// A walk over this directory's entries.
    pub fn iter(&self) -> (r: DirIterator)
        ensures
            r.spec_stream().spec_cluster() == self.spec_cluster(),
            r.spec_stream().spec_offset() == 0,
    {
        DirIterator::new(self.cluster)
    }

    /// Looks `name` up among the entries: each is compared against its
    /// stored short name and, when one came along, its long name.
    pub fn find_dir_entry<F: FileSystem>(&self, fs: &F, name: &[u8]) -> (r: Result<
        DirEntry,
        Error,
    >)
        requires
            fs.inv(),
        ensures
            (match r {
                Ok(e) => {
                    &&& e.wf()
                    &&& spec_is_file(e.spec_raw()[11]) || spec_is_dir(e.spec_raw()[11])
                    &&& e.spec_stream().spec_offset() <= fs.spec_cluster_size()
                    &&& (e.spec_lfn_pos() matches Some(p) ==> p.spec_offset()
                        <= fs.spec_cluster_size())
                    &&& (crate::stream::stream_ok(fs, e.spec_stream()) ==> e.spec_raw()
                        == crate::stream::stream_rest(fs, e.spec_stream()).take(32))
                    // the entry matched the name: by its stored 8.3 name, or
                    // by a long name whose checksum bound it to this entry
                    &&& (crate::dir_entry::spec_entry_name(
                        e.spec_raw().subrange(0, 11),
                        spec_is_file(e.spec_raw()[11]),
                    ) == name@ || e.spec_lfn_pos() is Some)
                },
                Err(e) => e == Error::NotFound || e == Error::UnexpectedClusterValue || e
                    == Error::DeviceIO || e == Error::InvalidClusterNumber,
            }),
            // a live entry standing first in the directory, stored under the
            // very name asked for, is found
            (first_record_live(fs, self.spec_cluster()) && first_record_name(
                fs,
                self.spec_cluster(),
            ) == name@ ==> (match r {
                Ok(e) => e.spec_raw() == first_record(fs, self.spec_cluster())
                    && e.spec_lfn_pos() is None && e.spec_stream().spec_cluster()
                    == self.spec_cluster() && e.spec_stream().spec_offset() == 0,
                Err(e) => e == Error::DeviceIO,
            })),
            // on a sound directory chain a found entry is one of the
            // directory's own records, byte for byte
            ((crate::fat_table::chain(fs.fat(), self.spec_cluster()) matches Some(s)
                && crate::stream::valid_chain(fs, s)) ==> (match r {
                Ok(e) => exists|k: int|
                    0 <= k < crate::dir_iterator::records_of(
                        crate::stream::chain_bytes(
                            fs,
                            crate::fat_table::chain(fs.fat(), self.spec_cluster()).unwrap(),
                        ),
                    ).len() && e.spec_raw() == crate::dir_iterator::records_of(
                        crate::stream::chain_bytes(
                            fs,
                            crate::fat_table::chain(fs.fat(), self.spec_cluster()).unwrap(),
                        ),
                    )[k],
                Err(e) => e == Error::NotFound || e == Error::DeviceIO || e
                    == Error::UnexpectedClusterValue,
            })),
            // a lookup that came back empty walked every live record: none
            // stores the very name asked for as its 8.3 name
            ((crate::fat_table::chain(fs.fat(), self.spec_cluster()) matches Some(s)
                && crate::stream::valid_chain(fs, s) && r == Err::<DirEntry, Error>(
                Error::NotFound,
            )) ==> crate::dir_iterator::spec_name_absent(
                crate::dir_iterator::records_of(
                    crate::stream::chain_bytes(
                        fs,
                        crate::fat_table::chain(fs.fat(), self.spec_cluster()).unwrap(),
                    ),
                ),
                0,
                name@,
            )),
    {
        let mut iter = self.iter();
        let cs = fs.cluster_size();
        let cc = fs.cluster_count();
        proof {
            fs.lemma_inv();
            assert((cc as u64) * ((cs as u64) / 32) <= 0xFFFF_FFFF * 0x8_0000)
                by (nonlinear_arith)
                requires
                    cc <= 0xFFFF_FFFF,
                    cs <= 0x100_0000,
            ;
        }
        let ghost start = iter.spec_stream();
        let ghost rest0 = crate::stream::stream_rest(fs, start);
        let ghost decided = first_record_live(fs, self.spec_cluster()) && first_record_name(
            fs,
            self.spec_cluster(),
        ) == name@;
        let ghost sound = crate::fat_table::chain(fs.fat(), self.spec_cluster()) matches Some(s)
            && crate::stream::valid_chain(fs, s);
        let ghost recs0 = crate::dir_iterator::records_of(rest0);
        let ghost mut i: int = 0;
        proof {
            if decided {
                let s = crate::fat_table::chain(fs.fat(), self.spec_cluster()).unwrap();
                assert(crate::stream::stream_ok(fs, start));
                assert(rest0 =~= crate::stream::chain_bytes(fs, s));
            }
            if sound {
                let s = crate::fat_table::chain(fs.fat(), self.spec_cluster()).unwrap();
                assert(crate::stream::stream_ok(fs, start));
                assert(rest0 =~= crate::stream::chain_bytes(fs, s));
                assert(rest0 == rest0.skip(32 * i));
            }
        }
        let mut guard: u64 = (cc as u64) * ((cs / 32) as u64) + 2;
        let ghost g0 = guard;
        loop
            invariant
                fs.inv(),
                cs == fs.spec_cluster_size(),
                iter.spec_stream().spec_offset() <= cs,
                rest0 == crate::stream::stream_rest(fs, start),
                start.spec_cluster() == self.spec_cluster() && start.spec_offset() == 0,
                decided == (first_record_live(fs, self.spec_cluster()) && first_record_name(
                    fs,
                    self.spec_cluster(),
                ) == name@),
                decided ==> {
                    &&& crate::stream::stream_ok(fs, start)
                    &&& rest0.len() >= 32
                    &&& rest0.take(32) == first_record(fs, self.spec_cluster())
                    &&& rest0[0] != crate::dir_entry::FREE_ENTRY
                    &&& rest0[0] != crate::dir_entry::REMOVED_ENTRY
                    &&& !crate::lfn::spec_is_lfn(rest0.take(32))
                    &&& (spec_is_file(rest0.take(32)[11]) || spec_is_dir(rest0.take(32)[11]))
                    &&& crate::dir_entry::spec_entry_name(
                        rest0.take(32).subrange(0, 11),
                        spec_is_file(rest0.take(32)[11]),
                    ) == name@
                },
                g0 >= 2,
                decided ==> guard == g0 && iter.spec_stream() == start,
                sound == (crate::fat_table::chain(fs.fat(), self.spec_cluster()) matches Some(s)
                    && crate::stream::valid_chain(fs, s)),
                recs0 == crate::dir_iterator::records_of(rest0),
                sound ==> {
                    &&& crate::stream::stream_ok(fs, start)
                    &&& rest0 == crate::stream::chain_bytes(
                        fs,
                        crate::fat_table::chain(fs.fat(), self.spec_cluster()).unwrap(),
                    )
                    &&& 0 <= i
                    &&& 32 * i <= rest0.len()
                    &&& crate::stream::stream_ok(fs, iter.spec_stream())
                    &&& crate::stream::stream_rest(fs, iter.spec_stream()) == rest0.skip(32 * i)
                    &&& crate::dir_iterator::spec_name_absent(recs0, 0, name@)
                        == crate::dir_iterator::spec_name_absent(recs0, i, name@)
                },
            decreases guard,
        {
            if guard == 0 {
                return Err(Error::UnexpectedClusterValue);
            }
            guard = guard - 1;
            let ghost mut k: int = 0;
            match iter.next(fs) {
                Some(item) => {
                    let (entry, lfn) = match item {
                        Ok(pair) => pair,
                        Err(e) => {
                            proof {
                                if decided {
                                    assert(e == Error::DeviceIO);
                                }
                                if sound {
                                    assert(e == Error::DeviceIO);
                                }
                            }
                            return Err(e);
                        },
                    };
                    proof {
                        if decided {
                            assert(entry.spec_raw() == rest0.take(32));
                        }
                        if sound {
                            let rest_i = rest0.skip(32 * i);
                            let recs_i = crate::dir_iterator::records_of(rest_i);
                            crate::dir_iterator::lemma_records_of_skip(rest0, i);
                            crate::dir_iterator::lemma_first_live_shift(recs0, i, i);
                            if crate::dir_iterator::first_live(recs_i, 0) is None {
                                // the walk would have ended, not yielded
                                assert(false);
                            }
                            let k0 = crate::dir_iterator::first_live(recs_i, 0).unwrap();
                            k = i + k0;
                            assert(crate::dir_iterator::first_live(recs0, i) == Some(k));
                            crate::dir_iterator::lemma_first_live_bounds(recs0, i);
                            assert(entry.spec_raw() == recs_i[k0]);
                            assert(recs_i[k0] == recs0[k]);
                            vstd::arithmetic::div_mod::lemma_fundamental_div_mod(
                                rest0.len() as int,
                                32,
                            );
                            vstd::arithmetic::div_mod::lemma_mod_bound(rest0.len() as int, 32);
                            assert(32 * (k + 1) <= 32 * recs0.len()) by (nonlinear_arith)
                                requires
                                    k < recs0.len(),
                            ;
                            assert(32 * recs0.len() <= rest0.len());
                            assert(crate::stream::stream_rest(fs, iter.spec_stream())
                                == rest_i.skip(32 * (k0 + 1)));
                            assert(rest_i.skip(32 * (k0 + 1)) =~= rest0.skip(32 * (k + 1)));
                            crate::dir_iterator::lemma_name_absent_step(recs0, i, name@);
                        }
                    }
                    if entry.compare(name) {
                        proof {
                            if sound {
                                assert(0 <= k < recs0.len() && entry.spec_raw() == recs0[k]);
                            }
                        }
                        return Ok(entry);
                    }
                    proof {
                        if decided {
                            // the stored name is the one asked for
                            assert(false);
                        }
                    }
                    match lfn {
                        Some(l) => {
                            if l.compare(name) {
                                proof {
                                    if sound {
                                        assert(0 <= k < recs0.len() && entry.spec_raw()
                                            == recs0[k]);
                                    }
                                }
                                return Ok(entry);
                            }
                        },
                        None => {},
                    }
                    proof {
                        if sound {
                            // the stored 8.3 name was not the one asked for
                            assert(crate::dir_entry::spec_entry_name(
                                recs0[k].subrange(0, 11),
                                spec_is_file(recs0[k][11]),
                            ) != name@);
                            i = k + 1;
                        }
                    }
                },
                None => {
                    proof {
                        if decided {
                            assert(false);
                        }
                        if sound {
                            crate::dir_iterator::lemma_records_of_skip(rest0, i);
                            crate::dir_iterator::lemma_first_live_shift(recs0, i, i);
                            assert(crate::dir_iterator::first_live(recs0, i) is None);
                            crate::dir_iterator::lemma_name_absent_step(recs0, i, name@);
                            assert(crate::dir_iterator::spec_name_absent(recs0, 0, name@));
                        }
                    }
                    return Err(Error::NotFound);
                },
            }
        }
    }

    /// Walks the directory components of a path down from this directory.
    pub fn follow<F: FileSystem>(&self, fs: &F, path: &mut Path) -> (r: Result<Dir, Error>)
        requires
            fs.inv(),
            old(path).wf(),
        ensures
            final(path).wf(),
            final(path).spec_path() == old(path).spec_path(),
            final(path).spec_name_index() == old(path).spec_name_index(),
            (match r {
                Ok(_) => true,
                Err(e) => e == Error::NotFound || e == Error::UnexpectedClusterValue || e
                    == Error::DeviceIO || e == Error::InvalidClusterNumber || e == Error::NotDir,
            }),
            // a walk that starts at the final name has nowhere to go
            (old(path).spec_path_index() >= old(path).spec_name_index() ==> (match r {
                Ok(d) => d.spec_cluster() == self.spec_cluster() && *final(path) == *old(path),
                Err(_) => false,
            })),
    {
        let ghost nocomp = old(path).spec_path_index() >= old(path).spec_name_index();
        let mut dir = Dir { cluster: self.cluster };
        loop
            invariant
                fs.inv(),
                path.wf(),
                path.spec_path() == old(path).spec_path(),
                path.spec_name_index() == old(path).spec_name_index(),
                nocomp == (old(path).spec_path_index() >= old(path).spec_name_index()),
                nocomp ==> dir.spec_cluster() == self.spec_cluster() && *path == *old(path),
            decreases path.spec_name_index() - path.spec_path_index(),
        {
            let component = match path.next() {
                Some(c) => c,
                None => {
                    return Ok(dir);
                },
            };
            proof {
                if nocomp {
                    // a component came back although the walk stood at the
                    // name: its separator would lie before the name's start
                    assert(false);
                }
            }
            let entry = match dir.find_dir_entry(fs, component) {
                Ok(e) => e,
                Err(e) => {
                    return Err(e);
                },
            };
            dir = match dir.open(&entry) {
                Ok(d) => d,
                Err(e) => {
                    return Err(e);
                },
            };
        }
    }

    /// Resolves a whole path to the entry its final name means.
    pub fn open_dir_entry<F: FileSystem>(&self, fs: &F, path: &[u8]) -> (r: Result<
        DirEntry,
        Error,
    >)
        requires
            fs.inv(),
        ensures
            (match r {
                Ok(e) => {
                    &&& e.wf()
                    &&& spec_is_file(e.spec_raw()[11]) || spec_is_dir(e.spec_raw()[11])
                    &&& e.spec_stream().spec_offset() <= fs.spec_cluster_size()
                    &&& (e.spec_lfn_pos() matches Some(p) ==> p.spec_offset()
                        <= fs.spec_cluster_size())
                    &&& (crate::stream::stream_ok(fs, e.spec_stream()) ==> e.spec_raw()
                        == crate::stream::stream_rest(fs, e.spec_stream()).take(32))
                },
                Err(e) => e == Error::NotFound || e == Error::UnexpectedClusterValue || e
                    == Error::DeviceIO || e == Error::InvalidClusterNumber || e == Error::NotDir,
            }),
            // a plain name resolves against this directory's first record
            (crate::path::spec_name_start(path@) == 0 && first_record_live(
                fs,
                self.spec_cluster(),
            ) && first_record_name(fs, self.spec_cluster()) == path@ ==> (match r {
                Ok(e) => e.spec_raw() == first_record(fs, self.spec_cluster())
                    && e.spec_lfn_pos() is None && e.spec_stream().spec_cluster()
                    == self.spec_cluster() && e.spec_stream().spec_offset() == 0,
                Err(e) => e == Error::DeviceIO,
            })),
    {
        let mut parsed = match Path::new(path) {
            Ok(p) => p,
            Err(e) => {
                return Err(e);
            },
        };
        let dir = match self.follow(fs, &mut parsed) {
            Ok(d) => d,
            Err(e) => {
                return Err(e);
            },
        };
        let name = parsed.name();
        proof {
            if crate::path::spec_name_start(path@) == 0 {
                assert(name@ =~= path@);
            }
        }
        dir.find_dir_entry(fs, name)
    }

    /// Adds an entry under `name`: refused when the name already resolves;
    /// otherwise the long-name records and the short entry are written into
    /// free room.  The fresh entry stores `cluster` and size zero, under the
    /// 8.3 form of `name`.
    pub fn create_dir_entry<F: FileSystem>(
        &self,
        fs: &mut F,
        name: &[u8],
        is_file: bool,
        cluster: u32,
    ) -> (r: Result<DirEntry, Error>)
        requires
            old(fs).inv(),
            name@.len() <= 255,
        ensures
            final(fs).inv(),
            final(fs).spec_root_cluster() == old(fs).spec_root_cluster(),
            final(fs).spec_cluster_count() == old(fs).spec_cluster_count(),
            final(fs).spec_cluster_size() == old(fs).spec_cluster_size(),
            forall|d: u32| final(fs).spec_valid_cluster(d) == old(fs).spec_valid_cluster(d),
            (match r {
                Ok(e) => {
                    &&& e.wf()
                    &&& e.spec_raw().subrange(0, 11) == spec_short_name(name@, is_file)
                    &&& spec_entry_cluster(e.spec_raw()) == cluster
                    &&& crate::dir_entry::spec_entry_size(e.spec_raw()) == 0
                    &&& spec_is_file(e.spec_raw()[11]) == is_file
                    &&& e.spec_stream().spec_offset() <= old(fs).spec_cluster_size()
                },
                Err(e) => e == Error::ObjectAlreadyExist || e == Error::UnexpectedClusterValue
                    || e == Error::DeviceIO || e == Error::InvalidClusterNumber || e
                    == Error::NoFreeCluster,
            }),
            // a taken name is refused before anything is written
            (r == Err::<DirEntry, Error>(Error::ObjectAlreadyExist) ==> final(fs).raw() == old(
                fs,
            ).raw() && final(fs).fat() == old(fs).fat()),
            // on a sound directory chain the fresh record is in place:
            // reading the volume back at the returned position yields its
            // bytes
            ((crate::fat_table::chain(old(fs).fat(), self.spec_cluster()) matches Some(s)
                && crate::stream::valid_chain(&*old(fs), s)) ==> (r matches Ok(e)
                ==> crate::stream::stream_rest(&*final(fs), e.spec_stream()).take(32)
                == e.spec_raw())),
    {
        let ghost h = crate::fat_table::chain(old(fs).fat(), self.spec_cluster())
            matches Some(s) && crate::stream::valid_chain(&*old(fs), s);
        match self.find_dir_entry(fs, name) {
            Ok(_) => {
                return Err(Error::ObjectAlreadyExist);
            },
            Err(Error::NotFound) => {},
            Err(e) => {
                return Err(e);
            },
        }
        let raw_dir_entry = match dir_entry::create_raw(name, is_file, cluster) {
            Ok(v) => v,
            Err(e) => {
                return Err(e);
            },
        };
        let lfn_size = lfn::lfn_need_space(name);
        proof {
            vstd::arithmetic::div_mod::lemma_fundamental_div_mod(name@.len() as int + 13, 13);
        }
        let mut pos_to_write = match DirIterator::find_free_space(fs, self.cluster, 1 + lfn_size) {
            Ok(p) => p,
            Err(e) => {
                return Err(e);
            },
        };
        proof {
            if h {
                assert(crate::stream::stream_ok(&*old(fs), pos_to_write));
            }
        }
        if lfn_size != 0 {
            let crc = dir_entry::checksum(raw_dir_entry.as_slice());
            match lfn::lfn_serialize(fs, &mut pos_to_write, name, crc) {
                Ok(()) => {},
                Err(e) => {
                    return Err(e);
                },
            }
        }
        let ghost mid = *fs;
        proof {
            if h {
                assert(crate::stream::stream_ok(&mid, pos_to_write));
            }
        }
        let entry = match DirEntry::from_raw_data(raw_dir_entry, pos_to_write, None) {
            Ok(e) => e,
            Err(e) => {
                return Err(e);
            },
        };
        match entry.flush(fs) {
            Ok(()) => {},
            Err(e) => {
                return Err(e);
            },
        }
        proof {
            if h {
                let st = entry.spec_stream();
                let off = st.spec_offset();
                let raw = entry.spec_raw();
                let cs = mid.spec_cluster_size() as int;
                let sm = crate::fat_table::chain(mid.fat(), st.spec_cluster()).unwrap();
                let s2 = crate::fat_table::chain(fs.fat(), st.spec_cluster()).unwrap();
                mid.lemma_inv();
                crate::stream::lemma_chain_bytes_len(&mid, sm);
                crate::fat_table::lemma_chain_rec_props(
                    mid.fat(),
                    st.spec_cluster(),
                    (mid.fat().len() + 1) as nat,
                    sm,
                );
                st.lemma_offset_nonneg();
                let base = crate::stream::chain_bytes(&mid, sm) + crate::bytes::zeros(
                    ((s2.len() - sm.len()) * cs) as nat,
                );
                let end = off + 32;
                assert(s2.len() >= sm.len() && end <= s2.len() * cs) by {
                    if end > sm.len() * cs {
                        vstd::arithmetic::div_mod::lemma_fundamental_div_mod(end + cs - 1, cs);
                        vstd::arithmetic::div_mod::lemma_mod_bound(end + cs - 1, cs);
                        assert(s2.len() == (end + cs - 1) / cs);
                        assert(s2.len() * cs >= end);
                        assert(s2.len() >= sm.len()) by (nonlinear_arith)
                            requires
                                s2.len() * cs >= end,
                                end > sm.len() * cs,
                                cs > 0,
                        ;
                    }
                }
                assert(base.len() == s2.len() * cs) by (nonlinear_arith)
                    requires
                        s2.len() >= sm.len(),
                        base.len() == sm.len() * cs + (s2.len() - sm.len()) * cs,
                ;
                crate::bytes::lemma_seq_write_read(base, off, raw);
                assert(crate::stream::stream_rest(fs, st).take(32) =~= crate::bytes::seq_write(
                    base,
                    off,
                    raw,
                ).subrange(off, off + 32));
            }
        }
        Ok(entry)
    }

    /// Creates a directory under the path's final name: a fresh chain
    /// holding the two self and parent entries, then the new entry in the
    /// parent.
    pub fn create_dir<F: FileSystem>(&self, fs: &mut F, path: &[u8]) -> (r: Result<Dir, Error>)
        requires
            old(fs).inv(),
            path@.len() - crate::path::spec_name_start(path@) <= 255,
        ensures
            final(fs).inv(),
            final(fs).spec_root_cluster() == old(fs).spec_root_cluster(),
            final(fs).spec_cluster_count() == old(fs).spec_cluster_count(),
            final(fs).spec_cluster_size() == old(fs).spec_cluster_size(),
            forall|d: u32| final(fs).spec_valid_cluster(d) == old(fs).spec_valid_cluster(d),
            (match r {
                // the fresh directory lives on a cluster that was free
                // before the call
                Ok(d) => 2 <= d.spec_cluster() < old(fs).spec_cluster_count()
                    && old(fs).fat()[d.spec_cluster() as int] == ClusterValue::Free,
                Err(e) => e != Error::NotFile && e != Error::DirNotEmpty && e
                    != Error::UnexpectedEndOfFile,
            }),
    {
        let mut parsed = match Path::new(path) {
            Ok(p) => p,
            Err(e) => {
                return Err(e);
            },
        };
        let dir = match self.follow(fs, &mut parsed) {
            Ok(d) => d,
            Err(e) => {
                return Err(e);
            },
        };
        let name = parsed.name();
        proof {
            crate::path::lemma_name_start_in_range(path@);
            assert(name@.len() == path@.len() - crate::path::spec_name_start(path@));
        }
        let mut stream = match Stream::create(fs) {
            Ok(s) => s,
            Err(e) => {
                return Err(e);
            },
        };
        let new_cluster = stream.cluster();
        let self_entry = match dir_entry::create_raw(&[0x2E], false, new_cluster) {
            Ok(v) => v,
            Err(e) => {
                return Err(e);
            },
        };
        match stream.write(fs, self_entry.as_slice()) {
            Ok(_) => {},
            Err(e) => {
                return Err(e);
            },
        }
        let parent_entry = match dir_entry::create_raw(&[0x2E, 0x2E], false, dir.cluster) {
            Ok(v) => v,
            Err(e) => {
                return Err(e);
            },
        };
        match stream.write(fs, parent_entry.as_slice()) {
            Ok(_) => {},
            Err(e) => {
                return Err(e);
            },
        }
        let entry = match dir.create_dir_entry(fs, name, false, new_cluster) {
            Ok(e) => e,
            Err(e) => {
                return Err(e);
            },
        };
        dir.open(&entry)
    }

    /// Creates a file under the path's final name, owning one fresh zeroed
    /// cluster, and opens it.
    pub fn create_file<F: FileSystem>(&self, fs: &mut F, path: &[u8]) -> (r: Result<File, Error>)
        requires
            old(fs).inv(),
            path@.len() - crate::path::spec_name_start(path@) <= 255,
        ensures
            final(fs).inv(),
            final(fs).spec_root_cluster() == old(fs).spec_root_cluster(),
            final(fs).spec_cluster_count() == old(fs).spec_cluster_count(),
            final(fs).spec_cluster_size() == old(fs).spec_cluster_size(),
            forall|d: u32| final(fs).spec_valid_cluster(d) == old(fs).spec_valid_cluster(d),
            (match r {
                Ok(f) => {
                    &&& f.wf()
                    &&& f.spec_offset() == 0
                    &&& f.spec_size() == 0
                    &&& !f.spec_dirty()
                    // the entry stores the path's final name in 8.3 form and
                    // points at a cluster that was free before the call
                    &&& f.spec_entry().spec_raw().subrange(0, 11) == spec_short_name(
                        path@.skip(crate::path::spec_name_start(path@)),
                        true,
                    )
                    &&& spec_is_file(f.spec_entry().spec_raw()[11])
                    &&& 2 <= spec_entry_cluster(f.spec_entry().spec_raw()) < old(
                        fs,
                    ).spec_cluster_count()
                    &&& old(fs).fat()[spec_entry_cluster(f.spec_entry().spec_raw())]
                        == ClusterValue::Free
                },
                Err(e) => e != Error::NotFile && e != Error::DirNotEmpty && e
                    != Error::UnexpectedEndOfFile,
            }),
    {
        let mut parsed = match Path::new(path) {
            Ok(p) => p,
            Err(e) => {
                return Err(e);
            },
        };
        let dir = match self.follow(fs, &mut parsed) {
            Ok(d) => d,
            Err(e) => {
                return Err(e);
            },
        };
        let name = parsed.name();
        proof {
            crate::path::lemma_name_start_in_range(path@);
            assert(name@.len() == path@.len() - crate::path::spec_name_start(path@));
        }
        let stream = match Stream::create(fs) {
            Ok(s) => s,
            Err(e) => {
                return Err(e);
            },
        };
        let entry = match dir.create_dir_entry(fs, name, true, stream.cluster()) {
            Ok(e) => e,
            Err(e) => {
                return Err(e);
            },
        };
        File::open(entry)
    }

    /// Opens the file a path names.
    pub fn open_file<F: FileSystem>(&self, fs: &F, path: &[u8]) -> (r: Result<File, Error>)
        requires
            fs.inv(),
        ensures
            (match r {
                Ok(f) => f.wf() && f.spec_offset() == 0 && !f.spec_dirty()
                    && f.spec_stream().spec_offset() == 0,
                Err(e) => e == Error::NotFound || e == Error::UnexpectedClusterValue || e
                    == Error::DeviceIO || e == Error::InvalidClusterNumber || e == Error::NotDir
                    || e == Error::NotFile,
            }),
            // a plain name whose first-record entry is a file opens it
            (crate::path::spec_name_start(path@) == 0 && first_record_live(
                fs,
                self.spec_cluster(),
            ) && first_record_name(fs, self.spec_cluster()) == path@ && spec_is_file(
                first_record(fs, self.spec_cluster())[11],
            ) ==> (match r {
                Ok(f) => f.spec_entry().spec_raw() == first_record(fs, self.spec_cluster()),
                Err(e) => e == Error::DeviceIO,
            })),
    {
        let entry = match self.open_dir_entry(fs, path) {
            Ok(e) => e,
            Err(e) => {
                return Err(e);
            },
        };
        File::open(entry)
    }

    /// Opens the directory a path names.
    pub fn open_dir<F: FileSystem>(&self, fs: &F, path: &[u8]) -> (r: Result<Dir, Error>)
        requires
            fs.inv(),
        ensures
            (match r {
                Ok(_) => true,
                Err(e) => e == Error::NotFound || e == Error::UnexpectedClusterValue || e
                    == Error::DeviceIO || e == Error::InvalidClusterNumber || e == Error::NotDir,
            }),
            // a plain name whose first-record entry is a directory opens it
            (crate::path::spec_name_start(path@) == 0 && first_record_live(
                fs,
                self.spec_cluster(),
            ) && first_record_name(fs, self.spec_cluster()) == path@ && spec_is_dir(
                first_record(fs, self.spec_cluster())[11],
            ) ==> (match r {
                Ok(d) => d.spec_cluster() == spec_entry_cluster(
                    first_record(fs, self.spec_cluster()),
                ),
                Err(e) => e == Error::DeviceIO,
            })),
    {
        let entry = match self.open_dir_entry(fs, path) {
            Ok(e) => e,
            Err(e) => {
                return Err(e);
            },
        };
        self.open(&entry)
    }

    /// Removes the directory a path names: refused while it still holds any
    /// entry besides the self and parent ones; otherwise its chain is freed
    /// and its records are marked removed.
    pub fn remove_dir<F: FileSystem>(&self, fs: &mut F, path: &[u8]) -> (r: Result<(), Error>)
        requires
            old(fs).inv(),
        ensures
            final(fs).inv(),
            final(fs).spec_root_cluster() == old(fs).spec_root_cluster(),
            final(fs).spec_cluster_count() == old(fs).spec_cluster_count(),
            final(fs).spec_cluster_size() == old(fs).spec_cluster_size(),
            forall|d: u32| final(fs).spec_valid_cluster(d) == old(fs).spec_valid_cluster(d),
            (match r {
                Ok(()) => true,
                Err(e) => e != Error::NotFile && e != Error::ObjectAlreadyExist,
            }),
            // the resolution and the emptiness check precede any mutation
            ((r == Err::<(), Error>(Error::DirNotEmpty) || r == Err::<(), Error>(Error::NotDir)
                || r == Err::<(), Error>(Error::NotFound)) ==> final(fs).raw() == old(fs).raw()
                && final(fs).fat() == old(fs).fat()),
            // a directory whose own first record is a live entry other than
            // the self and parent ones is never removed
            (crate::path::spec_name_start(path@) == 0 && first_record_live(
                old(fs),
                self.spec_cluster(),
            ) && first_record_name(old(fs), self.spec_cluster()) == path@ && spec_is_dir(
                first_record(old(fs), self.spec_cluster())[11],
            ) && first_record_live(
                old(fs),
                spec_entry_cluster(first_record(old(fs), self.spec_cluster())) as u32,
            ) && first_record_name(
                old(fs),
                spec_entry_cluster(first_record(old(fs), self.spec_cluster())) as u32,
            ) != seq![0x2Eu8] && first_record_name(
                old(fs),
                spec_entry_cluster(first_record(old(fs), self.spec_cluster())) as u32,
            ) != seq![0x2Eu8, 0x2Eu8] ==> !(r is Ok)),
            // an empty directory standing first in this one, on a chain of
            // its own, leaves every one of its clusters free once removed
            ((crate::path::spec_name_start(path@) == 0 && first_record_live(
                old(fs),
                self.spec_cluster(),
            ) && first_record_name(old(fs), self.spec_cluster()) == path@ && spec_is_dir(
                first_record(old(fs), self.spec_cluster())[11],
            ) && first_entry_chain_apart(old(fs), self.spec_cluster())) ==> (match r {
                Ok(()) => forall|i: int|
                    0 <= i < first_entry_chain(old(fs), self.spec_cluster()).len()
                        ==> final(fs).fat()[(#[trigger] first_entry_chain(
                        old(fs),
                        self.spec_cluster(),
                    )[i]) as int] == ClusterValue::Free,
                Err(_) => true,
            })),
    {
        let ghost fcl = spec_entry_cluster(first_record(&*old(fs), self.spec_cluster())) as u32;
        let ghost cond = crate::path::spec_name_start(path@) == 0 && first_record_live(
            &*old(fs),
            self.spec_cluster(),
        ) && first_record_name(&*old(fs), self.spec_cluster()) == path@ && spec_is_dir(
            first_record(&*old(fs), self.spec_cluster())[11],
        ) && first_entry_chain_apart(&*old(fs), self.spec_cluster());
        let entry = match self.open_dir_entry(fs, path) {
            Ok(e) => e,
            Err(e) => {
                return Err(e);
            },
        };
        if !entry.is_dir() {
            return Err(Error::NotDir);
        }
        proof {
            if cond {
                assert(entry.spec_raw() == first_record(&*old(fs), self.spec_cluster()));
                assert(spec_entry_cluster(entry.spec_raw()) == fcl);
            }
        }
        let dir = match self.open(&entry) {
            Ok(d) => d,
            Err(e) => {
                return Err(e);
            },
        };
        let count = match dir.item_count(fs) {
            Ok(c) => c,
            Err(e) => {
                return Err(e);
            },
        };
        if count != 0 {
            return Err(Error::DirNotEmpty);
        }
        match Stream::remove(fs, entry.cluster()) {
            Ok(()) => {},
            Err(e) => {
                return Err(e);
            },
        }
        let ghost mid = *fs;
        proof {
            if cond {
                fs.lemma_inv();
                let fc = first_entry_chain(&*old(fs), self.spec_cluster());
                let s_dir = crate::fat_table::chain(old(fs).fat(), self.spec_cluster()).unwrap();
                assert(fc == crate::fat_table::chain(old(fs).fat(), fcl).unwrap());
                // the directory's clusters are free now
                assert(mid.fat() == crate::fat_table::free_all(old(fs).fat(), fc));
                assert forall|i: int|
                    0 <= i < fc.len() implies (#[trigger] mid.fat()[fc[i] as int])
                    == ClusterValue::Free by {
                    crate::fat_table::lemma_chain_rec_props(
                        old(fs).fat(),
                        fcl,
                        (old(fs).fat().len() + 1) as nat,
                        fc,
                    );
                }
                // the parent's own chain was not touched: no cluster of the
                // removed directory's chain lies on it
                crate::fat_table::lemma_chain_rec_props(
                    old(fs).fat(),
                    self.spec_cluster(),
                    (old(fs).fat().len() + 1) as nat,
                    s_dir,
                );
                crate::fat_table::lemma_chain_bound(old(fs).fat(), s_dir);
                assert forall|j: int|
                    0 <= j < s_dir.len() implies (#[trigger] mid.fat()[s_dir[j] as int]) == old(
                    fs,
                ).fat()[s_dir[j] as int] by {
                    if exists|kk: int| 0 <= kk < fc.len() && fc[kk] == s_dir[j] {
                        let kk = choose|kk: int| 0 <= kk < fc.len() && fc[kk] == s_dir[j];
                        assert(s_dir.contains(fc[kk]));
                        assert(false);
                    }
                }
                assert(crate::fat_table::is_chain(mid.fat(), s_dir)) by {
                    assert(mid.fat()[s_dir.last() as int] == old(fs).fat()[s_dir.last() as int]);
                }
                crate::fat_table::lemma_chain_rec_from_links(
                    mid.fat(),
                    s_dir,
                    (mid.fat().len() + 1) as nat,
                );
                assert(crate::fat_table::chain(mid.fat(), self.spec_cluster()) == Some(s_dir));
                assert(crate::stream::valid_chain(&mid, s_dir));
                assert(crate::stream::stream_ok(&mid, entry.spec_stream()));
            }
        }
        let r2 = entry.remove(fs);
        proof {
            if cond && r2 is Ok {
                // rewriting the short record in place left the table as the
                // chain free put it
                assert(final(fs).fat() == mid.fat());
            }
        }
        r2
    }

    /// Removes the file a path names: its chain is freed and its records
    /// are marked removed.
    pub fn remove_file<F: FileSystem>(&self, fs: &mut F, path: &[u8]) -> (r: Result<(), Error>)
        requires
            old(fs).inv(),
        ensures
            final(fs).inv(),
            final(fs).spec_root_cluster() == old(fs).spec_root_cluster(),
            final(fs).spec_cluster_count() == old(fs).spec_cluster_count(),
            final(fs).spec_cluster_size() == old(fs).spec_cluster_size(),
            forall|d: u32| final(fs).spec_valid_cluster(d) == old(fs).spec_valid_cluster(d),
            (match r {
                Ok(()) => true,
                Err(e) => e != Error::DirNotEmpty && e != Error::ObjectAlreadyExist,
            }),
            // the resolution and the kind check precede any mutation
            ((r == Err::<(), Error>(Error::NotFile) || r == Err::<(), Error>(Error::NotFound))
                ==> final(fs).raw() == old(fs).raw() && final(fs).fat() == old(fs).fat()),
            // a file standing first in this directory, on a chain of its
            // own, leaves every one of its clusters free once removed
            ((crate::path::spec_name_start(path@) == 0 && first_record_live(
                old(fs),
                self.spec_cluster(),
            ) && first_record_name(old(fs), self.spec_cluster()) == path@ && spec_is_file(
                first_record(old(fs), self.spec_cluster())[11],
            ) && first_entry_chain_apart(old(fs), self.spec_cluster())) ==> (match r {
                Ok(()) => forall|i: int|
                    0 <= i < first_entry_chain(old(fs), self.spec_cluster()).len()
                        ==> final(fs).fat()[(#[trigger] first_entry_chain(
                        old(fs),
                        self.spec_cluster(),
                    )[i]) as int] == ClusterValue::Free,
                Err(_) => true,
            })),
    {
        let ghost fcl = spec_entry_cluster(first_record(&*old(fs), self.spec_cluster())) as u32;
        let ghost cond = crate::path::spec_name_start(path@) == 0 && first_record_live(
            &*old(fs),
            self.spec_cluster(),
        ) && first_record_name(&*old(fs), self.spec_cluster()) == path@ && spec_is_file(
            first_record(&*old(fs), self.spec_cluster())[11],
        ) && first_entry_chain_apart(&*old(fs), self.spec_cluster());
        let entry = match self.open_dir_entry(fs, path) {
            Ok(e) => e,
            Err(e) => {
                return Err(e);
            },
        };
        if !entry.is_file() {
            return Err(Error::NotFile);
        }
        proof {
            if cond {
                assert(entry.spec_raw() == first_record(&*old(fs), self.spec_cluster()));
                assert(spec_entry_cluster(entry.spec_raw()) == fcl);
            }
        }
        match Stream::remove(fs, entry.cluster()) {
            Ok(()) => {},
            Err(e) => {
                return Err(e);
            },
        }
        let ghost mid = *fs;
        proof {
            if cond {
                fs.lemma_inv();
                let fc = first_entry_chain(&*old(fs), self.spec_cluster());
                let s_dir = crate::fat_table::chain(old(fs).fat(), self.spec_cluster()).unwrap();
                assert(fc == crate::fat_table::chain(old(fs).fat(), fcl).unwrap());
                // the file's clusters are free now
                assert(mid.fat() == crate::fat_table::free_all(old(fs).fat(), fc));
                assert forall|i: int|
                    0 <= i < fc.len() implies (#[trigger] mid.fat()[fc[i] as int])
                    == ClusterValue::Free by {
                    crate::fat_table::lemma_chain_rec_props(
                        old(fs).fat(),
                        fcl,
                        (old(fs).fat().len() + 1) as nat,
                        fc,
                    );
                }
                // the directory's own chain was not touched: no cluster of
                // the file's chain lies on it
                crate::fat_table::lemma_chain_rec_props(
                    old(fs).fat(),
                    self.spec_cluster(),
                    (old(fs).fat().len() + 1) as nat,
                    s_dir,
                );
                crate::fat_table::lemma_chain_bound(old(fs).fat(), s_dir);
                assert forall|j: int|
                    0 <= j < s_dir.len() implies (#[trigger] mid.fat()[s_dir[j] as int]) == old(
                    fs,
                ).fat()[s_dir[j] as int] by {
                    if exists|kk: int| 0 <= kk < fc.len() && fc[kk] == s_dir[j] {
                        let kk = choose|kk: int| 0 <= kk < fc.len() && fc[kk] == s_dir[j];
                        assert(s_dir.contains(fc[kk]));
                        assert(false);
                    }
                }
                assert(crate::fat_table::is_chain(mid.fat(), s_dir)) by {
                    assert(mid.fat()[s_dir.last() as int] == old(fs).fat()[s_dir.last() as int]);
                }
                crate::fat_table::lemma_chain_rec_from_links(
                    mid.fat(),
                    s_dir,
                    (mid.fat().len() + 1) as nat,
                );
                assert(crate::fat_table::chain(mid.fat(), self.spec_cluster()) == Some(s_dir));
                assert(crate::stream::valid_chain(&mid, s_dir));
                assert(crate::stream::stream_ok(&mid, entry.spec_stream()));
            }
        }
        let r2 = entry.remove(fs);
        proof {
            if cond && r2 is Ok {
                // rewriting the short record in place left the table as the
                // chain free put it
                let fc = first_entry_chain(&*old(fs), self.spec_cluster());
                assert(final(fs).fat() == mid.fat());
            }
        }
        r2
    }

    /// Counts the live entries, the self and parent entries left out.
    pub fn item_count<F: FileSystem>(&self, fs: &F) -> (r: Result<usize, Error>)
        requires
            fs.inv(),
        ensures
            (match r {
                Ok(_) => true,
                Err(e) => e == Error::UnexpectedClusterValue || e == Error::DeviceIO || e
                    == Error::InvalidClusterNumber,
            }),
            // a live entry standing first, named neither the self nor the
            // parent entry, makes any successful count positive
            (first_record_live(fs, self.spec_cluster()) && first_record_name(
                fs,
                self.spec_cluster(),
            ) != seq![0x2Eu8] && first_record_name(fs, self.spec_cluster()) != seq![
                0x2Eu8,
                0x2Eu8,
            ] ==> (r matches Ok(n) ==> n >= 1)),
            // on a sound directory chain a successful count is exactly what
            // the record scan yields, and a refused count could only come
            // from the device or a walk past every record the volume holds
            ((crate::fat_table::chain(fs.fat(), self.spec_cluster()) matches Some(s)
                && crate::stream::valid_chain(fs, s)) ==> (match r {
                Ok(n) => n == crate::dir_iterator::spec_item_count(
                    crate::dir_iterator::records_of(
                        crate::stream::chain_bytes(
                            fs,
                            crate::fat_table::chain(fs.fat(), self.spec_cluster()).unwrap(),
                        ),
                    ),
                    0,
                ),
                Err(e) => e == Error::DeviceIO || e == Error::UnexpectedClusterValue,
            })),
    {
        let mut count: usize = 0;
        let mut iter = self.iter();
        let cs = fs.cluster_size();
        let cc = fs.cluster_count();
        proof {
            fs.lemma_inv();
            assert((cc as u64) * ((cs as u64) / 32) <= 0xFFFF_FFFF * 0x8_0000)
                by (nonlinear_arith)
                requires
                    cc <= 0xFFFF_FFFF,
                    cs <= 0x100_0000,
            ;
        }
        let ghost start = iter.spec_stream();
        let ghost rest0 = crate::stream::stream_rest(fs, start);
        let ghost decided = first_record_live(fs, self.spec_cluster()) && first_record_name(
            fs,
            self.spec_cluster(),
        ) != seq![0x2Eu8] && first_record_name(fs, self.spec_cluster()) != seq![0x2Eu8, 0x2Eu8];
        let ghost sound = crate::fat_table::chain(fs.fat(), self.spec_cluster()) matches Some(s)
            && crate::stream::valid_chain(fs, s);
        let ghost recs0 = crate::dir_iterator::records_of(rest0);
        let ghost mut i: int = 0;
        proof {
            if decided {
                let s = crate::fat_table::chain(fs.fat(), self.spec_cluster()).unwrap();
                assert(crate::stream::stream_ok(fs, start));
                assert(rest0 =~= crate::stream::chain_bytes(fs, s));
            }
            if sound {
                let s = crate::fat_table::chain(fs.fat(), self.spec_cluster()).unwrap();
                assert(crate::stream::stream_ok(fs, start));
                assert(rest0 =~= crate::stream::chain_bytes(fs, s));
                assert(rest0 == rest0.skip(32 * i));
            }
        }
        let mut dot: Vec<u8> = Vec::new();
        dot.push(0x2E);
        let mut dotdot: Vec<u8> = Vec::new();
        dotdot.push(0x2E);
        dotdot.push(0x2E);
        let mut guard: u64 = (cc as u64) * ((cs / 32) as u64) + 2;
        loop
            invariant
                fs.inv(),
                cs == fs.spec_cluster_size(),
                iter.spec_stream().spec_offset() <= cs,
                dot@ == seq![0x2Eu8],
                dotdot@ == seq![0x2Eu8, 0x2Eu8],
                rest0 == crate::stream::stream_rest(fs, start),
                decided == (first_record_live(fs, self.spec_cluster()) && first_record_name(
                    fs,
                    self.spec_cluster(),
                ) != seq![0x2Eu8] && first_record_name(fs, self.spec_cluster()) != seq![
                    0x2Eu8,
                    0x2Eu8,
                ]),
                decided ==> {
                    &&& crate::stream::stream_ok(fs, start)
                    &&& rest0.len() >= 32
                    &&& rest0.take(32) == first_record(fs, self.spec_cluster())
                    &&& rest0[0] != crate::dir_entry::FREE_ENTRY
                    &&& rest0[0] != crate::dir_entry::REMOVED_ENTRY
                    &&& !crate::lfn::spec_is_lfn(rest0.take(32))
                    &&& (spec_is_file(rest0.take(32)[11]) || spec_is_dir(rest0.take(32)[11]))
                    &&& crate::dir_entry::spec_entry_name(
                        rest0.take(32).subrange(0, 11),
                        spec_is_file(rest0.take(32)[11]),
                    ) != seq![0x2Eu8]
                    &&& crate::dir_entry::spec_entry_name(
                        rest0.take(32).subrange(0, 11),
                        spec_is_file(rest0.take(32)[11]),
                    ) != seq![0x2Eu8, 0x2Eu8]
                },
                decided ==> (iter.spec_stream() == start && count == 0) || count >= 1,
                sound == (crate::fat_table::chain(fs.fat(), self.spec_cluster()) matches Some(s)
                    && crate::stream::valid_chain(fs, s)),
                start.spec_cluster() == self.spec_cluster() && start.spec_offset() == 0,
                recs0 == crate::dir_iterator::records_of(rest0),
                sound ==> {
                    &&& crate::stream::stream_ok(fs, start)
                    &&& rest0 == crate::stream::chain_bytes(
                        fs,
                        crate::fat_table::chain(fs.fat(), self.spec_cluster()).unwrap(),
                    )
                    &&& 0 <= i
                    &&& 32 * i <= rest0.len()
                    &&& crate::stream::stream_ok(fs, iter.spec_stream())
                    &&& crate::stream::stream_rest(fs, iter.spec_stream()) == rest0.skip(32 * i)
                    &&& count + crate::dir_iterator::spec_item_count(recs0, i)
                        == crate::dir_iterator::spec_item_count(recs0, 0)
                },
            decreases guard,
        {
            if guard == 0 {
                return Err(Error::UnexpectedClusterValue);
            }
            guard = guard - 1;
            let ghost mut k: int = 0;
            match iter.next(fs) {
                Some(item) => {
                    let (entry, _) = match item {
                        Ok(pair) => pair,
                        Err(e) => {
                            proof {
                                if sound {
                                    assert(e == Error::DeviceIO);
                                }
                            }
                            return Err(e);
                        },
                    };
                    proof {
                        if sound {
                            let rest_i = rest0.skip(32 * i);
                            let recs_i = crate::dir_iterator::records_of(rest_i);
                            crate::dir_iterator::lemma_records_of_skip(rest0, i);
                            crate::dir_iterator::lemma_first_live_shift(recs0, i, i);
                            if crate::dir_iterator::first_live(recs_i, 0) is None {
                                // the walk would have ended, not yielded
                                assert(false);
                            }
                            let k0 = crate::dir_iterator::first_live(recs_i, 0).unwrap();
                            k = i + k0;
                            assert(crate::dir_iterator::first_live(recs0, i) == Some(k));
                            crate::dir_iterator::lemma_first_live_bounds(recs0, i);
                            assert(entry.spec_raw() == recs_i[k0]);
                            assert(recs_i[k0] == recs0[k]);
                            vstd::arithmetic::div_mod::lemma_fundamental_div_mod(
                                rest0.len() as int,
                                32,
                            );
                            vstd::arithmetic::div_mod::lemma_mod_bound(rest0.len() as int, 32);
                            assert(32 * (k + 1) <= 32 * recs0.len()) by (nonlinear_arith)
                                requires
                                    k < recs0.len(),
                            ;
                            assert(32 * recs0.len() <= rest0.len());
                            assert(crate::stream::stream_rest(fs, iter.spec_stream())
                                == rest_i.skip(32 * (k0 + 1)));
                            assert(rest_i.skip(32 * (k0 + 1)) =~= rest0.skip(32 * (k + 1)));
                            crate::dir_iterator::lemma_item_count_step(recs0, i);
                        }
                    }
                    if entry.compare(dot.as_slice()) || entry.compare(dotdot.as_slice()) {
                        proof {
                            if decided && count == 0 {
                                // the first entry is neither dot entry
                                assert(entry.spec_raw() == rest0.take(32));
                                assert(false);
                            }
                            if sound {
                                assert(crate::dir_iterator::spec_is_dot_entry(recs0[k]));
                                i = k + 1;
                            }
                        }
                        continue;
                    }
                    if count == usize::MAX {
                        return Err(Error::UnexpectedClusterValue);
                    }
                    count = count + 1;
                    proof {
                        if sound {
                            assert(!crate::dir_iterator::spec_is_dot_entry(recs0[k]));
                            i = k + 1;
                        }
                    }
                },
                None => {
                    proof {
                        if decided && count == 0 {
                            assert(false);
                        }
                        if sound {
                            crate::dir_iterator::lemma_records_of_skip(rest0, i);
                            crate::dir_iterator::lemma_first_live_shift(recs0, i, i);
                            assert(crate::dir_iterator::first_live(recs0, i) is None);
                            crate::dir_iterator::lemma_item_count_step(recs0, i);
                            assert(count == crate::dir_iterator::spec_item_count(recs0, 0));
                        }
                    }
                    return Ok(count);
                },
            }
        }
    }
}

} // verus!
