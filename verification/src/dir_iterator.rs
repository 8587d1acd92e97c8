//! Walking a directory: 32-byte records read through a stream, long-name
//! records collected on the way, and each short entry yielded together with
//! the long name that belongs to it.

use vstd::prelude::*;

use crate::dir_entry::checksum;
use crate::dir_entry::DirEntry;
use crate::dir_entry::FREE_ENTRY;
use crate::dir_entry::REMOVED_ENTRY;
use crate::lfn::Lfn;
use crate::lfn::LfnBuilder;
use crate::stream::Stream;
use crate::Error;
use crate::FileSystem;

verus! {

/// A byte run cut into 32-byte records.
pub open spec fn records_of(bytes: Seq<u8>) -> Seq<Seq<u8>> {
    Seq::new((bytes.len() / 32) as nat, |i: int| bytes.subrange(32 * i, 32 * i + 32))
}

/// Where the free-slot search ends, scanning from record `i` with `run`
/// removed records already behind it, the earliest at `run_start`: the start
/// of the first completed run of `k` removed records, or the first free
/// record, or the directory's end — whichever the scan meets first.
pub open spec fn spec_free_slot(
    recs: Seq<Seq<u8>>,
    k: int,
    i: int,
    run_start: int,
    run: int,
) -> int
    decreases recs.len() - i,
{
    if i >= recs.len() {
        i
    } else if recs[i][0] == FREE_ENTRY {
        i
    } else if recs[i][0] == REMOVED_ENTRY {
        if run + 1 == k {
            if run == 0 {
                i
            } else {
                run_start
            }
        } else {
            spec_free_slot(
                recs,
                k,
                i + 1,
                if run == 0 {
                    i
                } else {
                    run_start
                },
                run + 1,
            )
        }
    } else {
        spec_free_slot(recs, k, i + 1, 0, 0)
    }
}

/// The index of the record the directory walk yields next, scanning from
/// record `i`: removed records, long-name records and volume labels are
/// passed over; the first free record, or the end, stops the walk.
pub open spec fn first_live(recs: Seq<Seq<u8>>, i: int) -> Option<int>
    decreases recs.len() - i,
{
    if i >= recs.len() {
        None
    } else if recs[i][0] == FREE_ENTRY {
        None
    } else if recs[i][0] == REMOVED_ENTRY || crate::lfn::spec_is_lfn(recs[i]) || !(
    crate::dir_entry::spec_is_file(recs[i][11]) || crate::dir_entry::spec_is_dir(
        recs[i][11],
    )) {
        first_live(recs, i + 1)
    } else {
        Some(i)
    }
}

/// The walk never yields a record it has passed: the next live record
/// stands at or after where the scan begins, inside the run.
pub proof fn lemma_first_live_bounds(recs: Seq<Seq<u8>>, i: int)
    ensures
        first_live(recs, i) matches Some(k) ==> i <= k < recs.len(),
    decreases recs.len() - i,
{
    if i >= recs.len() {
    } else if recs[i][0] == FREE_ENTRY {
    } else if recs[i][0] == REMOVED_ENTRY || crate::lfn::spec_is_lfn(recs[i]) || !(
    crate::dir_entry::spec_is_file(recs[i][11]) || crate::dir_entry::spec_is_dir(
        recs[i][11],
    )) {
        lemma_first_live_bounds(recs, i + 1);
    }
}

/// Whether a record stores one of the two bookkeeping names every
/// directory begins with.
pub open spec fn spec_is_dot_entry(rec: Seq<u8>) -> bool {
    ||| crate::dir_entry::spec_entry_name(
        rec.subrange(0, 11),
        crate::dir_entry::spec_is_file(rec[11]),
    ) == seq![0x2Eu8]
    ||| crate::dir_entry::spec_entry_name(
        rec.subrange(0, 11),
        crate::dir_entry::spec_is_file(rec[11]),
    ) == seq![0x2Eu8, 0x2Eu8]
}

/// How many records from `i` on the walk yields, the self and parent
/// entries left out: removed records, long-name records and volume labels
/// are passed over, and the count stops at the first free record or at the
/// run's end.
pub open spec fn spec_item_count(recs: Seq<Seq<u8>>, i: int) -> nat
    decreases recs.len() - i,
{
    if i >= recs.len() {
        0
    } else if recs[i][0] == FREE_ENTRY {
        0
    } else if recs[i][0] == REMOVED_ENTRY || crate::lfn::spec_is_lfn(recs[i]) || !(
    crate::dir_entry::spec_is_file(recs[i][11]) || crate::dir_entry::spec_is_dir(
        recs[i][11],
    )) {
        spec_item_count(recs, i + 1)
    } else if spec_is_dot_entry(recs[i]) {
        spec_item_count(recs, i + 1)
    } else {
        1 + spec_item_count(recs, i + 1)
    }
}

/// The count unrolls one yielded record at a time: it is zero where the
/// walk ends, and otherwise steps over the next live record, adding one
/// unless that record is a dot entry.
pub proof fn lemma_item_count_step(recs: Seq<Seq<u8>>, i: int)
    ensures
        (match first_live(recs, i) {
            None => spec_item_count(recs, i) == 0,
            Some(k) => spec_item_count(recs, i) == spec_item_count(recs, k + 1) + (
            if spec_is_dot_entry(recs[k]) {
                0int
            } else {
                1int
            }),
        }),
    decreases recs.len() - i,
{
    if i >= recs.len() {
    } else if recs[i][0] == FREE_ENTRY {
    } else if recs[i][0] == REMOVED_ENTRY || crate::lfn::spec_is_lfn(recs[i]) || !(
    crate::dir_entry::spec_is_file(recs[i][11]) || crate::dir_entry::spec_is_dir(
        recs[i][11],
    )) {
        lemma_item_count_step(recs, i + 1);
    }
}

/// Dropping whole records off the front commutes with cutting a byte run
/// into records.
pub proof fn lemma_records_of_skip(bytes: Seq<u8>, m: int)
    requires
        0 <= 32 * m <= bytes.len(),
    ensures
        records_of(bytes.skip(32 * m)) == records_of(bytes).skip(m),
{
    let rem = bytes.len() as int - 32 * m;
    vstd::arithmetic::div_mod::lemma_fundamental_div_mod(rem, 32);
    vstd::arithmetic::div_mod::lemma_mod_bound(rem, 32);
    vstd::arithmetic::div_mod::lemma_fundamental_div_mod_converse(
        bytes.len() as int,
        32,
        rem / 32 + m,
        rem % 32,
    );
    assert(bytes.len() as int / 32 == rem / 32 + m);
    assert(bytes.skip(32 * m).len() == bytes.len() - 32 * m);
    assert(records_of(bytes.skip(32 * m)).len() == records_of(bytes).skip(m).len());
    assert forall|j: int|
        0 <= j < records_of(bytes.skip(32 * m)).len() implies records_of(bytes.skip(32 * m))[j]
        == records_of(bytes).skip(m)[j] by {
        assert(records_of(bytes).skip(m)[j] == records_of(bytes)[j + m]);
        assert(records_of(bytes.skip(32 * m))[j] =~= records_of(bytes)[j + m]);
    }
    assert(records_of(bytes.skip(32 * m)) =~= records_of(bytes).skip(m));
}

/// The next live record of a shortened run is the next live record of the
/// whole run, shifted by what was dropped.
pub proof fn lemma_first_live_shift(recs: Seq<Seq<u8>>, m: int, i: int)
    requires
        0 <= m <= i,
        m <= recs.len(),
    ensures
        first_live(recs.skip(m), i - m) == (match first_live(recs, i) {
            None => None::<int>,
            Some(k) => Some(k - m),
        }),
    decreases recs.len() - i,
{
    if i >= recs.len() {
    } else {
        assert(recs.skip(m)[i - m] == recs[i]);
        if recs[i][0] == FREE_ENTRY {
        } else if recs[i][0] == REMOVED_ENTRY || crate::lfn::spec_is_lfn(recs[i]) || !(
        crate::dir_entry::spec_is_file(recs[i][11]) || crate::dir_entry::spec_is_dir(
            recs[i][11],
        )) {
            lemma_first_live_shift(recs, m, i + 1);
        }
    }
}

/// Whether no record the walk yields, from `i` on, stores `name` as its
/// 8.3 name.
pub open spec fn spec_name_absent(recs: Seq<Seq<u8>>, i: int, name: Seq<u8>) -> bool
    decreases recs.len() - i,
{
    if i >= recs.len() {
        true
    } else if recs[i][0] == FREE_ENTRY {
        true
    } else if recs[i][0] == REMOVED_ENTRY || crate::lfn::spec_is_lfn(recs[i]) || !(
    crate::dir_entry::spec_is_file(recs[i][11]) || crate::dir_entry::spec_is_dir(
        recs[i][11],
    )) {
        spec_name_absent(recs, i + 1, name)
    } else {
        &&& crate::dir_entry::spec_entry_name(
            recs[i].subrange(0, 11),
            crate::dir_entry::spec_is_file(recs[i][11]),
        ) != name
        &&& spec_name_absent(recs, i + 1, name)
    }
}

/// Whether a name is absent unrolls one yielded record at a time.
pub proof fn lemma_name_absent_step(recs: Seq<Seq<u8>>, i: int, name: Seq<u8>)
    ensures
        (match first_live(recs, i) {
            None => spec_name_absent(recs, i, name),
            Some(k) => spec_name_absent(recs, i, name) == (crate::dir_entry::spec_entry_name(
                recs[k].subrange(0, 11),
                crate::dir_entry::spec_is_file(recs[k][11]),
            ) != name && spec_name_absent(recs, k + 1, name)),
        }),
    decreases recs.len() - i,
{
    if i >= recs.len() {
    } else if recs[i][0] == FREE_ENTRY {
    } else if recs[i][0] == REMOVED_ENTRY || crate::lfn::spec_is_lfn(recs[i]) || !(
    crate::dir_entry::spec_is_file(recs[i][11]) || crate::dir_entry::spec_is_dir(
        recs[i][11],
    )) {
        lemma_name_absent_step(recs, i + 1, name);
    }
}

/// A long-name record is neither a file nor a directory: its attribute
/// byte carries the volume-label bit.
proof fn lemma_lfn_is_no_entry(attr: u8)
    requires
        attr & 0x3F == 0x0F,
    ensures
        !crate::dir_entry::spec_is_file(attr),
        !crate::dir_entry::spec_is_dir(attr),
{
    assert((0x08u8 | 0x10u8) == 0x18u8) by (bit_vector);
    assert(attr & 0x3F == 0x0F ==> (attr & 0x18 != 0 && attr & 0x18 != 0x10)) by (bit_vector);
}

/// A cursor over the records of one directory.
pub struct DirIterator {
    stream: Stream,
}

impl DirIterator {
    /// The read cursor.
    pub closed spec fn spec_stream(&self) -> Stream {
        self.stream
    }

    /// A cursor at the first record of the directory starting at `cluster`.
    pub fn new(cluster: u32) -> (r: DirIterator)
        ensures
            r.spec_stream().spec_cluster() == cluster,
            r.spec_stream().spec_offset() == 0,
    {
        DirIterator { stream: Stream::open(cluster) }
    }

    /// The next live entry: long-name records are collected, removed
    /// records are skipped, and the walk ends at the end of the chain or at
    /// the first free record.  A yielded entry is a file or a directory,
    /// and a collected long name comes along only when its records carried
    /// the short name's checksum.
    pub fn next<F: FileSystem>(&mut self, fs: &F) -> (r: Option<
        Result<(DirEntry, Option<Lfn>), Error>,
    >)
        requires
            fs.inv(),
            old(self).spec_stream().spec_offset() <= fs.spec_cluster_size(),
        ensures
            final(self).spec_stream().spec_offset() <= fs.spec_cluster_size(),
            (match r {
                Some(item) => match item {
                    Ok((e, l)) => {
                        &&& e.wf()
                        &&& crate::dir_entry::spec_is_file(e.spec_raw()[11])
                            || crate::dir_entry::spec_is_dir(e.spec_raw()[11])
                        &&& e.spec_raw()[0] != FREE_ENTRY
                        &&& e.spec_raw()[0] != REMOVED_ENTRY
                        &&& e.spec_stream().spec_offset() <= fs.spec_cluster_size()
                        &&& (e.spec_lfn_pos() matches Some(p) ==> p.spec_offset()
                            <= fs.spec_cluster_size())
                        &&& (l matches Some(lf) ==> lf.wf())
                        &&& (l is Some ==> e.spec_lfn_pos() is Some)
                        &&& (crate::stream::stream_ok(fs, e.spec_stream())
                            ==> e.spec_raw() == crate::stream::stream_rest(
                            fs,
                            e.spec_stream(),
                        ).take(32))
                    },
                    Err(e) => e == Error::UnexpectedClusterValue || e == Error::DeviceIO || e
                        == Error::InvalidClusterNumber,
                },
                None => true,
            }),
            // what the record at the cursor forces, when the stream is sound:
            // a short end means the end, the free sentinel means the end, and
            // a live short record is yielded as it stands
            (crate::stream::stream_ok(fs, old(self).spec_stream()) ==> {
                let rest = crate::stream::stream_rest(fs, old(self).spec_stream());
                &&& (rest.len() < 32 ==> r is None || r == Some(
                    Err::<(DirEntry, Option<Lfn>), Error>(Error::DeviceIO),
                ))
                &&& (rest.len() >= 32 && rest[0] == FREE_ENTRY ==> r is None || r == Some(
                    Err::<(DirEntry, Option<Lfn>), Error>(Error::DeviceIO),
                ))
                &&& (rest.len() >= 32 && rest[0] != FREE_ENTRY && rest[0] != REMOVED_ENTRY
                    && !crate::lfn::spec_is_lfn(rest.take(32)) && (
                crate::dir_entry::spec_is_file(rest.take(32)[11])
                    || crate::dir_entry::spec_is_dir(rest.take(32)[11])) ==> (match r {
                    Some(item) => match item {
                        Ok((e, l)) => e.spec_raw() == rest.take(32) && l is None
                            && e.spec_lfn_pos() is None && e.spec_stream() == old(
                            self,
                        ).spec_stream(),
                        Err(e2) => e2 == Error::DeviceIO,
                    },
                    None => false,
                }))
                // wherever the next live entry stands, the walk yields it:
                // record by record, whatever was passed over on the way
                &&& (match first_live(records_of(rest), 0) {
                    None => r is None || r == Some(
                        Err::<(DirEntry, Option<Lfn>), Error>(Error::DeviceIO),
                    ),
                    Some(k) => (match r {
                        Some(item) => match item {
                            Ok((e, l)) => e.spec_raw() == records_of(rest)[k]
                                && crate::stream::stream_rest(fs, e.spec_stream()) == rest.skip(
                                32 * k,
                            ) && crate::stream::stream_rest(fs, final(self).spec_stream())
                                == rest.skip(32 * (k + 1)) && crate::stream::stream_ok(
                                fs,
                                final(self).spec_stream(),
                            ),
                            Err(e2) => e2 == Error::DeviceIO,
                        },
                        None => false,
                    }),
                })
            }),
    {
        let cs = fs.cluster_size();
        let cc = fs.cluster_count();
        proof {
            fs.lemma_inv();
            assert((cc as u64) * ((cs as u64) / 32 + 1) <= 0xFFFF_FFFF * 0x8_0001)
                by (nonlinear_arith)
                requires
                    cc <= 0xFFFF_FFFF,
                    cs <= 0x100_0000,
            ;
        }
        let ghost sound = crate::stream::stream_ok(fs, old(self).spec_stream());
        let ghost rest = crate::stream::stream_rest(fs, old(self).spec_stream());
        let ghost recs = records_of(rest);
        let ghost decided = sound && (rest.len() < 32 || rest[0] == FREE_ENTRY || (rest[0]
            != REMOVED_ENTRY && !crate::lfn::spec_is_lfn(rest.take(32)) && (
        crate::dir_entry::spec_is_file(rest.take(32)[11]) || crate::dir_entry::spec_is_dir(
            rest.take(32)[11],
        ))));
        proof {
            if sound {
                let s = crate::fat_table::chain(
                    fs.fat(),
                    old(self).spec_stream().spec_cluster(),
                ).unwrap();
                crate::fat_table::lemma_chain_rec_props(
                    fs.fat(),
                    old(self).spec_stream().spec_cluster(),
                    (fs.fat().len() + 1) as nat,
                    s,
                );
                crate::fat_table::lemma_chain_bound(fs.fat(), s);
                crate::stream::lemma_chain_bytes_len(fs, s);
                old(self).spec_stream().lemma_offset_nonneg();
                assert(cs <= s.len() * cs) by (nonlinear_arith)
                    requires
                        s.len() >= 1,
                        cs >= 0,
                ;
                assert(rest.len() == s.len() * cs - old(self).spec_stream().spec_offset());
                assert(s.len() * cs <= cc * cs) by {
                    vstd::arithmetic::mul::lemma_mul_inequality(
                        s.len() as int,
                        cc as int,
                        cs as int,
                    );
                }
            }
        }
        let mut builder = LfnBuilder::new();
        // one step per record the volume could hold, and a little slack: a
        // walk longer than that is circling a malformed chain
        let mut guard: u64 = (cc as u64) * ((cs / 32) as u64 + 1) + 2;
        let ghost g0 = guard;
        let ghost mut i: int = 0;
        proof {
            if sound {
                assert((guard as int) * 32 >= rest.len() - 32 * i + 64) by (nonlinear_arith)
                    requires
                        guard as int == (cc as int) * ((cs as int) / 32 + 1) + 2,
                        rest.len() <= cc * cs,
                        i == 0,
                        ((cs as int) / 32) * 32 > cs - 32,
                        cs >= 1,
                        cc >= 0,
                ;
                vstd::arithmetic::div_mod::lemma_fundamental_div_mod(cs as int, 32);
                vstd::arithmetic::div_mod::lemma_mod_bound(cs as int, 32);
            }
        }
        loop
            invariant
                fs.inv(),
                cs == fs.spec_cluster_size(),
                self.stream.spec_offset() <= cs,
                builder.wf(),
                builder@.lfn_pos.spec_offset() <= cs,
                sound == crate::stream::stream_ok(fs, old(self).spec_stream()),
                rest == crate::stream::stream_rest(fs, old(self).spec_stream()),
                recs == records_of(rest),
                decided == (sound && (rest.len() < 32 || rest[0] == FREE_ENTRY || (rest[0]
                    != REMOVED_ENTRY && !crate::lfn::spec_is_lfn(rest.take(32)) && (
                crate::dir_entry::spec_is_file(rest.take(32)[11])
                    || crate::dir_entry::spec_is_dir(rest.take(32)[11]))))),
                g0 >= 2,
                // a record that decides the call by itself is handled by the
                // very first turn of the loop
                decided ==> guard == g0 && *self == *old(self) && builder@.number == 0,
                sound ==> {
                    &&& 0 <= i
                    &&& 32 * i <= rest.len()
                    &&& crate::stream::stream_ok(fs, self.stream)
                    &&& crate::stream::stream_rest(fs, self.stream) == rest.skip(32 * i)
                    &&& first_live(recs, 0) == first_live(recs, i)
                    &&& (guard as int) * 32 >= rest.len() - 32 * i + 64
                },
            decreases guard,
        {
            if guard == 0 {
                proof {
                    if sound {
                        assert(false);
                    }
                }
                return Some(Err(Error::UnexpectedClusterValue));
            }
            guard = guard - 1;
            let pos = self.stream;
            let buf = match self.stream.read(fs, 32) {
                Ok(b) => b,
                Err(e) => {
                    proof {
                        if sound {
                            assert(e == Error::DeviceIO);
                        }
                    }
                    return Some(Err(e));
                },
            };
            proof {
                if sound {
                    assert(buf@.len() == vstd::math::min(32, rest.len() - 32 * i));
                    if buf@.len() == 32 {
                        assert(32 * (i + 1) <= rest.len());
                        assert(i < recs.len()) by (nonlinear_arith)
                            requires
                                32 * (i + 1) <= rest.len(),
                                recs.len() == rest.len() / 32,
                                0 <= i,
                        ;
                        assert(buf@ =~= recs[i]);
                        assert(buf@[0] == recs[i][0]);
                        assert(buf@[11] == recs[i][11]);
                        assert(crate::stream::stream_rest(fs, self.stream) =~= rest.skip(32 * (i
                            + 1)));
                    } else {
                        assert(i >= recs.len()) by (nonlinear_arith)
                            requires
                                rest.len() - 32 * i < 32,
                                32 * i <= rest.len(),
                                recs.len() == rest.len() / 32,
                                0 <= i,
                        ;
                    }
                }
            }
            if buf.len() < 32 {
                // end of the chain: no record left to read
                return None;
            }
            proof {
                if decided {
                    assert(buf@ == rest.take(32));
                    assert(buf@[0] == rest[0]);
                }
            }
            if buf[0] == FREE_ENTRY {
                // the free record that also ends the directory
                return None;
            }
            if buf[0] == REMOVED_ENTRY {
                proof {
                    if decided {
                        assert(false);
                    }
                    if sound {
                        i = i + 1;
                    }
                }
                builder.reset();
                continue;
            }
            if builder.process(pos, buf.as_slice()) {
                proof {
                    if decided {
                        // a record that is no long-name record is refused
                        assert(!crate::lfn::spec_is_lfn(buf@));
                        assert(false);
                    }
                    if sound {
                        // only a long-name record is taken in
                        assert(crate::lfn::spec_is_lfn(recs[i as int]));
                        i = i + 1;
                    }
                }
                continue;
            }
            let built = builder.build();
            proof {
                if decided {
                    // nothing was collected, so no long name is pending
                    assert(builder@.number == 0);
                    if built is Some {
                        assert(false);
                    }
                }
            }
            let crc_of_short = checksum(buf.as_slice());
            match built {
                Some((lfn_pos, lfn_crc)) => {
                    match DirEntry::from_raw_data(buf, pos, Some((lfn_pos, lfn_crc))) {
                        Ok(e) => {
                            if e.is_dir() || e.is_file() {
                                proof {
                                    if sound {
                                        if crate::lfn::spec_is_lfn(recs[i as int]) {
                                            lemma_lfn_is_no_entry(recs[i as int][11]);
                                        }
                                        assert(first_live(recs, i) == Some(i));
                                    }
                                }
                                if crc_of_short == lfn_crc {
                                    return Some(Ok((e, Some(builder.into_name()))));
                                } else {
                                    // a long name whose checksum does not
                                    // match its short entry is dropped
                                    return Some(Ok((e, None)));
                                }
                            }
                        },
                        Err(e) => {
                            return Some(Err(e));
                        },
                    }
                },
                None => {
                    match DirEntry::from_raw_data(buf, pos, None) {
                        Ok(e) => {
                            if e.is_dir() || e.is_file() {
                                proof {
                                    if sound {
                                        if crate::lfn::spec_is_lfn(recs[i as int]) {
                                            lemma_lfn_is_no_entry(recs[i as int][11]);
                                        }
                                        assert(first_live(recs, i) == Some(i));
                                    }
                                }
                                return Some(Ok((e, None)));
                            }
                        },
                        Err(e) => {
                            return Some(Err(e));
                        },
                    }
                },
            }
            proof {
                if decided {
                    // the record was a live file or directory and was yielded
                    assert(false);
                }
                if sound {
                    // a volume label: neither file nor directory, passed over
                    i = i + 1;
                }
            }
            builder.reset();
        }
    }

    /// Finds room for `dir_entry_count` records in one piece: either a run
    /// of removed records that long, or the position where the directory
    /// ends — past its end there is room for anything, the chain grows on
    /// write.
    pub fn find_free_space<F: FileSystem>(
        fs: &F,
        cluster: u32,
        dir_entry_count: usize,
    ) -> (r: Result<Stream, Error>)
        requires
            fs.inv(),
            dir_entry_count >= 1,
        ensures
            (match r {
                Ok(pos) => {
                    &&& pos.spec_offset() <= fs.spec_cluster_size()
                    &&& (crate::stream::stream_ok(fs, pos)
                        ==> crate::stream::stream_rest(fs, pos).len() < 32
                        || crate::stream::stream_rest(fs, pos)[0] == FREE_ENTRY
                        || crate::stream::stream_rest(fs, pos)[0] == REMOVED_ENTRY)
                },
                Err(e) => e == Error::UnexpectedClusterValue || e == Error::DeviceIO || e
                    == Error::InvalidClusterNumber,
            }),
            // on a sound directory chain the search lands exactly where the
            // scan says: the start of the first run of `dir_entry_count`
            // removed records, or the first free record, or the end
            ((crate::fat_table::chain(fs.fat(), cluster) matches Some(s)
                && crate::stream::valid_chain(fs, s)) ==> (match r {
                Ok(pos) => crate::stream::stream_ok(fs, pos) && crate::stream::stream_rest(
                    fs,
                    pos,
                ) == crate::stream::chain_bytes(
                    fs,
                    crate::fat_table::chain(fs.fat(), cluster).unwrap(),
                ).skip(
                    32 * spec_free_slot(
                        records_of(
                            crate::stream::chain_bytes(
                                fs,
                                crate::fat_table::chain(fs.fat(), cluster).unwrap(),
                            ),
                        ),
                        dir_entry_count as int,
                        0,
                        0,
                        0,
                    ),
                ),
                Err(e) => e == Error::DeviceIO,
            })),
    {
        let cs = fs.cluster_size();
        let cc = fs.cluster_count();
        proof {
            fs.lemma_inv();
            assert((cc as u64) * ((cs as u64) / 32 + 1) <= 0xFFFF_FFFF * 0x8_0001)
                by (nonlinear_arith)
                requires
                    cc <= 0xFFFF_FFFF,
                    cs <= 0x100_0000,
            ;
        }
        let mut stream = Stream::open(cluster);
        let ghost start = stream;
        let ghost sound = crate::fat_table::chain(fs.fat(), cluster) matches Some(s)
            && crate::stream::valid_chain(fs, s);
        let ghost rest0 = crate::stream::stream_rest(fs, start);
        let ghost recs = records_of(rest0);
        let ghost k = dir_entry_count as int;
        proof {
            if sound {
                let s = crate::fat_table::chain(fs.fat(), cluster).unwrap();
                crate::fat_table::lemma_chain_rec_props(
                    fs.fat(),
                    cluster,
                    (fs.fat().len() + 1) as nat,
                    s,
                );
                crate::fat_table::lemma_chain_bound(fs.fat(), s);
                crate::stream::lemma_chain_bytes_len(fs, s);
                assert(crate::stream::stream_ok(fs, start));
                assert(rest0 =~= crate::stream::chain_bytes(fs, s));
                assert(rest0.len() <= cc * cs) by {
                    vstd::arithmetic::mul::lemma_mul_inequality(
                        s.len() as int,
                        cc as int,
                        cs as int,
                    );
                }
            }
        }
        let mut pos_to_write = stream;
        let mut count: usize = 0;
        let mut guard: u64 = (cc as u64) * ((cs / 32) as u64 + 1) + 2;
        let ghost mut i: int = 0;
        let ghost mut rs: int = 0;
        proof {
            if sound {
                assert((guard as int) * 32 >= rest0.len() - 32 * i + 64) by (nonlinear_arith)
                    requires
                        guard as int == (cc as int) * ((cs as int) / 32 + 1) + 2,
                        rest0.len() <= cc * cs,
                        i == 0,
                        ((cs as int) / 32) * 32 > cs - 32,
                        cs >= 1,
                        cc >= 0,
                ;
                vstd::arithmetic::div_mod::lemma_fundamental_div_mod(cs as int, 32);
                vstd::arithmetic::div_mod::lemma_mod_bound(cs as int, 32);
            }
        }
        loop
            invariant
                fs.inv(),
                cs == fs.spec_cluster_size(),
                stream.spec_offset() <= cs,
                pos_to_write.spec_offset() <= cs,
                dir_entry_count >= 1,
                count < dir_entry_count,
                count > 0 ==> (crate::stream::stream_ok(fs, pos_to_write)
                    ==> crate::stream::stream_rest(fs, pos_to_write).len() >= 32
                    && crate::stream::stream_rest(fs, pos_to_write)[0] == REMOVED_ENTRY),
                sound == (crate::fat_table::chain(fs.fat(), cluster) matches Some(s)
                    && crate::stream::valid_chain(fs, s)),
                rest0 == crate::stream::stream_rest(fs, start),
                start.spec_cluster() == cluster && start.spec_offset() == 0,
                recs == records_of(rest0),
                k == dir_entry_count as int,
                sound ==> {
                    &&& crate::stream::stream_ok(fs, start)
                    &&& rest0 == crate::stream::chain_bytes(
                        fs,
                        crate::fat_table::chain(fs.fat(), cluster).unwrap(),
                    )
                    &&& 0 <= i
                    &&& 32 * i <= rest0.len()
                    &&& crate::stream::stream_ok(fs, stream)
                    &&& crate::stream::stream_rest(fs, stream) == rest0.skip(32 * i)
                    &&& spec_free_slot(recs, k, 0, 0, 0) == spec_free_slot(
                        recs,
                        k,
                        i,
                        rs,
                        count as int,
                    )
                    &&& (count > 0 ==> 0 <= rs && rs + count == i && crate::stream::stream_ok(
                        fs,
                        pos_to_write,
                    ) && crate::stream::stream_rest(fs, pos_to_write) == rest0.skip(32 * rs))
                    &&& (guard as int) * 32 >= rest0.len() - 32 * i + 64
                },
            decreases guard,
        {
            if guard == 0 {
                proof {
                    if sound {
                        assert(false);
                    }
                }
                return Err(Error::UnexpectedClusterValue);
            }
            guard = guard - 1;
            let pos = stream;
            let buf = match stream.read(fs, 32) {
                Ok(b) => b,
                Err(e) => {
                    proof {
                        if sound {
                            assert(e == Error::DeviceIO);
                        }
                    }
                    return Err(e);
                },
            };
            proof {
                if sound {
                    assert(buf@.len() == vstd::math::min(32, rest0.len() - 32 * i));
                    if buf@.len() == 32 {
                        // the bytes read are exactly record `i`
                        assert(32 * (i + 1) <= rest0.len());
                        assert(i < recs.len()) by (nonlinear_arith)
                            requires
                                32 * (i + 1) <= rest0.len(),
                                recs.len() == rest0.len() / 32,
                                0 <= i,
                        ;
                        assert(buf@ =~= recs[i]);
                        assert(buf@[0] == recs[i][0]);
                        assert(crate::stream::stream_rest(fs, stream) =~= rest0.skip(32 * (i
                            + 1)));
                    } else {
                        // fewer than 32 bytes remain: the record run has ended
                        assert(i >= recs.len()) by (nonlinear_arith)
                            requires
                                rest0.len() - 32 * i < 32,
                                32 * i <= rest0.len(),
                                recs.len() == rest0.len() / 32,
                                0 <= i,
                        ;
                    }
                }
            }
            if buf.len() < 32 {
                // the directory ends here: room for any run
                return Ok(pos);
            }
            if buf[0] == FREE_ENTRY {
                return Ok(pos);
            }
            if buf[0] == REMOVED_ENTRY {
                if count == 0 {
                    pos_to_write = pos;
                    proof {
                        rs = i;
                    }
                }
                count = count + 1;
                if count == dir_entry_count {
                    return Ok(pos_to_write);
                }
                proof {
                    i = i + 1;
                }
            } else {
                count = 0;
                proof {
                    i = i + 1;
                    rs = 0;
                }
            }
        }
    }
}

} // verus!
