//! Long filenames: thirteen name bytes per 32-byte record, a sequence
//! number walking down to one, and in every record the checksum of the short
//! entry the records belong to.
//!
//! [`lfn_serialize`] lays the records down in disk order, highest ordinal
//! first; [`LfnBuilder`] reads them back one record at a time, rebuilding the
//! name.  The builder's behaviour is one spec transition, [`spec_process`],
//! and [`lemma_lfn_round_trip`] proves that reading what was written yields
//! the name again.

use vstd::prelude::*;

use crate::stream::Stream;
use crate::Error;
use crate::FileSystem;

verus! {

/// The attribute value that marks a long-filename record.
pub const ATTR_LONG_NAME: u8 = 0x0F;

/// The attribute bits that take part in recognising one.
pub const ATTR_LONG_NAME_MASK: u8 = 0x3F;

/// A long name spans at most this many bytes of buffer.
pub const LFN_MAX_LEN: usize = 256;

/// The ordinal bit that marks the record holding the name's first bytes.
pub const LAST_LONG_ENTRY: u8 = 0x40;

/// The ordinal bits checked when recognising that mark.
pub const LAST_LONG_ENTRY_MASK: u8 = 0xF0;

/// The byte offset, inside a record, of name byte `i` of its thirteen.
pub open spec fn spec_char_order(i: int) -> int {
    if i == 0 {
        1
    } else if i == 1 {
        3
    } else if i == 2 {
        5
    } else if i == 3 {
        7
    } else if i == 4 {
        9
    } else if i == 5 {
        14
    } else if i == 6 {
        16
    } else if i == 7 {
        18
    } else if i == 8 {
        20
    } else if i == 9 {
        22
    } else if i == 10 {
        24
    } else if i == 11 {
        28
    } else {
        30
    }
}

/// The byte offset of name byte `i`.
pub fn char_order_at(i: usize) -> (r: usize)
    requires
        i < 13,
    ensures
        r == spec_char_order(i as int),
        r < 31,
{
    if i == 0 {
        1
    } else if i == 1 {
        3
    } else if i == 2 {
        5
    } else if i == 3 {
        7
    } else if i == 4 {
        9
    } else if i == 5 {
        14
    } else if i == 6 {
        16
    } else if i == 7 {
        18
    } else if i == 8 {
        20
    } else if i == 9 {
        22
    } else if i == 10 {
        24
    } else if i == 11 {
        28
    } else {
        30
    }
}

/// The thirteen name bytes a record carries.
pub open spec fn spec_rec_chars(rec: Seq<u8>) -> Seq<u8> {
    Seq::new(13, |i: int| rec[spec_char_order(i)])
}

/// Whether a record is a long-filename record at all.
pub open spec fn spec_is_lfn(rec: Seq<u8>) -> bool {
    rec[11] & ATTR_LONG_NAME_MASK == ATTR_LONG_NAME
}

/// Whether a record carries the last-record mark.
pub open spec fn spec_is_last(rec: Seq<u8>) -> bool {
    rec[0] & LAST_LONG_ENTRY_MASK == LAST_LONG_ENTRY
}

/// The sequence number a record carries.
pub open spec fn spec_rec_number(rec: Seq<u8>) -> u8 {
    rec[0] & 0x0F
}

/// How many of the thirteen name bytes count: everything before the first
/// terminator.
pub open spec fn until_zero(chars: Seq<u8>) -> int
    decreases chars.len(),
{
    if chars.len() == 0 {
        0
    } else if chars[0] == 0 {
        0
    } else {
        1 + until_zero(chars.skip(1))
    }
}

/// The terminator starts exactly where the zeros do.
pub proof fn lemma_until_zero_of(s: Seq<u8>, n: int)
    requires
        0 <= n <= s.len(),
        forall|k: int| 0 <= k < n ==> s[k] != 0,
        n < s.len() ==> s[n] == 0,
    ensures
        until_zero(s) == n,
    decreases s.len(),
{
    if s.len() > 0 && s[0] != 0 {
        assert(forall|k: int| 0 <= k < s.skip(1).len() ==> s.skip(1)[k] == s[k + 1]);
        lemma_until_zero_of(s.skip(1), n - 1);
    }
}

/// The builder's abstract state.
pub ghost struct BuilderState {
    pub buf: Seq<u8>,
    pub len: int,
    pub checksum: u8,
    pub number: u8,
    pub lfn_pos: Stream,
}

/// What one record does to the builder: the new state, and whether the
/// record was taken as part of a long name.
pub open spec fn spec_process(st: BuilderState, pos: Stream, rec: Seq<u8>) -> (BuilderState, bool) {
    if !spec_is_lfn(rec) {
        (st, false)
    } else {
        let st1 = if spec_is_last(rec) {
            BuilderState {
                checksum: rec[13],
                number: spec_rec_number(rec),
                lfn_pos: pos,
                len: spec_rec_number(rec) * 13,
                buf: st.buf,
            }
        } else {
            st
        };
        if !spec_is_last(rec) && (rec[13] != st.checksum || spec_rec_number(rec) + 1
            != st.number) {
            (st, false)
        } else {
            let st2 = if spec_is_last(rec) {
                st1
            } else {
                BuilderState { number: spec_rec_number(rec), ..st1 }
            };
            if st2.number == 0 {
                (st2, false)
            } else {
                let start = (st2.number - 1) * 13;
                let chars = spec_rec_chars(rec);
                let uz = until_zero(chars);
                (
                    BuilderState {
                        buf: crate::bytes::seq_write(st2.buf, start, chars.take(uz)),
                        len: if uz < 13 {
                            start + uz
                        } else {
                            st2.len
                        },
                        ..st2
                    },
                    true,
                )
            }
        }
    }
}

/// A long name collected from its records.
pub struct Lfn {
    buf: Vec<u8>,
    len: usize,
}

impl Lfn {
    /// The collected bytes.
    pub closed spec fn spec_name(&self) -> Seq<u8> {
        self.buf@.take(self.len as int)
    }

    /// The whole buffer and the collected length, for the builder.
    pub closed spec fn spec_buf(&self) -> Seq<u8> {
        self.buf@
    }

    /// The collected length.
    pub closed spec fn spec_len(&self) -> int {
        self.len as int
    }

    /// A buffer fit for the longest name.
    pub closed spec fn wf(&self) -> bool {
        self.buf@.len() == 256 && 0 <= self.len <= 256
    }

    /// An empty name.
    pub fn new() -> (r: Lfn)
        ensures
            r.wf(),
            r.spec_len() == 0,
            r.spec_buf() == crate::bytes::zeros(256),
    {
        Lfn { buf: crate::bytes::zero_vec(256), len: 0 }
    }

    /// The collected name bytes.
    pub fn name(&self) -> (r: &[u8])
        requires
            self.wf(),
        ensures
            r@ == self.spec_name(),
    {
        let r = vstd::slice::slice_subrange(self.buf.as_slice(), 0, self.len);
        proof {
            assert(r@ =~= self.spec_name());
        }
        r
    }

    /// Whether `name` is byte for byte the collected name.
    pub fn compare(&self, name: &[u8]) -> (r: bool)
        requires
            self.wf(),
        ensures
            r == (name@ == self.spec_name()),
    {
        if name.len() != self.len {
            proof {
                assert(self.spec_name().len() == self.len as int);
                assert(name@ != self.spec_name());
            }
            return false;
        }
        let mut i: usize = 0;
        while i < self.len
            invariant
                self.wf(),
                name@.len() == self.len as int,
                i <= self.len,
                forall|k: int| 0 <= k < i ==> name@[k] == self.spec_name()[k],
            decreases self.len - i,
        {
            if self.buf[i] != name[i] {
                proof {
                    assert(name@[i as int] != self.spec_name()[i as int]);
                }
                return false;
            }
            i = i + 1;
        }
        proof {
            assert(name@ =~= self.spec_name());
        }
        true
    }
}

/// Rebuilds a long name record by record, holding the checksum and the
/// sequence number still owed.
pub struct LfnBuilder {
    lfn: Lfn,
    lfn_pos: Stream,
    checksum: u8,
    number: u8,
}

impl LfnBuilder {
    /// The abstract state.
    pub closed spec fn view(&self) -> BuilderState {
        BuilderState {
            buf: self.lfn.spec_buf(),
            len: self.lfn.spec_len(),
            checksum: self.checksum,
            number: self.number,
            lfn_pos: self.lfn_pos,
        }
    }

    /// The buffer keeps its size.
    pub closed spec fn wf(&self) -> bool {
        self.lfn.wf()
    }

    /// A builder with nothing collected.
    pub fn new() -> (r: LfnBuilder)
        ensures
            r.wf(),
            r.view().number == 0,
            r.view().len == 0,
            r.view().checksum == 0,
            r.view().buf == crate::bytes::zeros(256),
            r.view().lfn_pos.spec_cluster() == 0,
            r.view().lfn_pos.spec_offset() == 0,
    {
        LfnBuilder { lfn: Lfn::new(), lfn_pos: Stream::open(0), checksum: 0, number: 0 }
    }

    /// Forgets the sequence in progress.
    pub fn reset(&mut self)
        requires
            old(self).wf(),
        ensures
            final(self).wf(),
            final(self).view() == (BuilderState { number: 0, ..old(self).view() }),
    {
        self.number = 0;
    }

    /// Feeds one record: the state moves by [`spec_process`], and the result
    /// says whether the record belonged to a long name.
    pub fn process(&mut self, pos: Stream, rec: &[u8]) -> (r: bool)
        requires
            old(self).wf(),
            rec@.len() == 32,
        ensures
            final(self).wf(),
            final(self).view() == spec_process(old(self).view(), pos, rec@).0,
            r == spec_process(old(self).view(), pos, rec@).1,
    {
        let attr = rec[11];
        if attr & ATTR_LONG_NAME_MASK != ATTR_LONG_NAME {
            return false;
        }
        let ord = rec[0];
        proof {
            assert(ord & 0x0F < 16) by (bit_vector);
        }
        if ord & LAST_LONG_ENTRY_MASK == LAST_LONG_ENTRY {
            self.checksum = rec[13];
            self.number = ord & 0x0F;
            self.lfn_pos = pos;
            self.lfn.len = (self.number as usize) * 13;
        } else {
            if rec[13] != self.checksum {
                return false;
            }
            let number = ord & 0x0F;
            if number + 1 != self.number {
                return false;
            }
            self.number = number;
        }
        if self.number == 0 {
            return false;
        }
        let start = ((self.number - 1) as usize) * 13;
        let ghost st2 = self.view();
        let ghost chars = spec_rec_chars(rec@);
        let mut i: usize = 0;
        let mut cut = false;
        while i < 13 && !cut
            invariant
                self.wf(),
                rec@.len() == 32,
                i <= 13,
                start + 13 <= 256,
                start == (st2.number - 1) * 13,
                chars == spec_rec_chars(rec@),
                self@.checksum == st2.checksum,
                self@.number == st2.number,
                self@.lfn_pos == st2.lfn_pos,
                st2.buf.len() == 256,
                !cut ==> forall|k: int| 0 <= k < i ==> chars[k] != 0,
                !cut ==> self@.buf == crate::bytes::seq_write(
                    st2.buf,
                    start as int,
                    chars.take(i as int),
                ),
                !cut ==> self@.len == st2.len,
                cut ==> i < 13 && chars[i as int] == 0 && (forall|k: int|
                    0 <= k < i ==> chars[k] != 0) && self@.buf == crate::bytes::seq_write(
                    st2.buf,
                    start as int,
                    chars.take(i as int),
                ) && self@.len == start + i,
            decreases 13 - i + (if cut {
                0int
            } else {
                1int
            }),
        {
            let n = char_order_at(i);
            if rec[n] == 0x00 {
                self.lfn.len = start + i;
                cut = true;
            } else {
                self.lfn.buf[start + i] = rec[n];
                proof {
                    assert(self@.buf =~= crate::bytes::seq_write(
                        st2.buf,
                        start as int,
                        chars.take(i + 1),
                    ));
                }
                i = i + 1;
            }
        }
        proof {
            lemma_until_zero_of(chars, if cut {
                i as int
            } else {
                13
            });
            assert(chars.take(13) =~= chars);
        }
        true
    }

    /// Where the collected sequence starts and which checksum it carries,
    /// once the record numbered one has arrived.
    pub fn build(&self) -> (r: Option<(Stream, u8)>)
        requires
            self.wf(),
        ensures
            (match r {
                Some((pos, crc)) => self@.number == 1 && pos == self@.lfn_pos && crc
                    == self@.checksum,
                None => self@.number != 1,
            }),
    {
        if self.number == 1 {
            Some((self.lfn_pos, self.checksum))
        } else {
            None
        }
    }

    /// Hands out the collected name.
    pub fn into_name(self) -> (r: Lfn)
        requires
            self.wf(),
        ensures
            r.wf(),
            r.spec_buf() == self@.buf,
            r.spec_len() == self@.len,
            r.spec_name() == self@.buf.take(self@.len),
    {
        self.lfn
    }
}

/// The name-byte slot a record byte belongs to, or -1 for the fixed bytes.
pub open spec fn spec_char_index(k: int) -> int {
    if k == 1 {
        0
    } else if k == 3 {
        1
    } else if k == 5 {
        2
    } else if k == 7 {
        3
    } else if k == 9 {
        4
    } else if k == 14 {
        5
    } else if k == 16 {
        6
    } else if k == 18 {
        7
    } else if k == 20 {
        8
    } else if k == 22 {
        9
    } else if k == 24 {
        10
    } else if k == 28 {
        11
    } else if k == 30 {
        12
    } else {
        -1
    }
}

/// How many records a name of `len` bytes needs: one per thirteen bytes,
/// the terminator counted in.
pub open spec fn spec_lfn_count(len: int) -> int {
    (len + 13) / 13
}

/// The records a name needs, terminator counted: names of exactly thirteen
/// bytes take two records, of exactly twenty-six three, and so on.
pub fn lfn_need_space(name: &[u8]) -> (r: usize)
    requires
        name@.len() + 13 <= usize::MAX,
    ensures
        r == spec_lfn_count(name@.len() as int),
{
    let l = name.len();
    let count = (l + 1) / 13;
    let r = if (l + 1) % 13 != 0 {
        count + 1
    } else {
        count
    };
    proof {
        let li = l as int;
        vstd::arithmetic::div_mod::lemma_fundamental_div_mod(li + 1, 13);
        let q = (li + 1) / 13;
        let rem = (li + 1) % 13;
        if rem == 0 {
            vstd::arithmetic::div_mod::lemma_fundamental_div_mod_converse_div(
                li + 13,
                13,
                q,
                12,
            );
        } else {
            vstd::arithmetic::div_mod::lemma_fundamental_div_mod_converse_div(
                li + 13,
                13,
                q + 1,
                rem - 1,
            );
        }
    }
    r
}

/// The ordinal byte of record `i` of `count`: the sequence number, and on
/// the record holding the name's first bytes the last-record mark.
pub open spec fn spec_lfn_ordinal(i: int, count: int) -> u8 {
    if i == count - 1 {
        (0x40 + i + 1) as u8
    } else {
        (i + 1) as u8
    }
}

/// Record `i` of the `count` records of `name`: ordinal, long-name
/// attribute, the short entry's checksum, and thirteen name bytes, zero
/// beyond the name's end.
pub open spec fn spec_lfn_record(name: Seq<u8>, i: int, count: int, crc: u8) -> Seq<u8> {
    Seq::new(
        32,
        |k: int|
            if k == 0 {
                spec_lfn_ordinal(i, count)
            } else if k == 11 {
                ATTR_LONG_NAME
            } else if k == 13 {
                crc
            } else if spec_char_index(k) >= 0 && 13 * i + spec_char_index(k) < name.len() {
                name[13 * i + spec_char_index(k)]
            } else {
                0
            },
    )
}

/// Every record of a serialized long name carries the short entry's
/// checksum in its checksum byte.
pub proof fn lemma_lfn_records_carry_checksum(name: Seq<u8>, count: int, crc: u8)
    ensures
        forall|i: int| 0 <= i < count ==> (#[trigger] spec_lfn_record(name, i, count, crc))[13]
            == crc,
{
}

/// The first `t` records of `name` as the directory holds them, one after
/// the other in disk order: the highest ordinal — the head of the name —
/// first, the record numbered one last.
pub open spec fn spec_lfn_records(name: Seq<u8>, crc: u8, t: int) -> Seq<u8>
    decreases t,
{
    if t <= 0 {
        Seq::empty()
    } else {
        spec_lfn_records(name, crc, t - 1) + spec_lfn_record(
            name,
            spec_lfn_count(name.len() as int) - t,
            spec_lfn_count(name.len() as int),
            crc,
        )
    }
}

/// Builds record `i` of the `count` records of `name`.
pub fn lfn_record(name: &[u8], i: usize, count: usize, crc: u8) -> (r: Vec<u8>)
    requires
        i < count,
        count <= 21,
        13 * count <= usize::MAX - 13,
    ensures
        r@ == spec_lfn_record(name@, i as int, count as int, crc),
        r@.len() == 32,
{
    let ghost target = spec_lfn_record(name@, i as int, count as int, crc);
    let mut rec: Vec<u8> = crate::bytes::zero_vec(32);
    if i == count - 1 {
        rec[0] = 0x40 + (i as u8) + 1;
    } else {
        rec[0] = (i as u8) + 1;
    }
    rec[11] = ATTR_LONG_NAME;
    rec[13] = crc;
    let mut j: usize = 0;
    while j < 13
        invariant
            rec@.len() == 32,
            j <= 13,
            i < count,
            count <= 21,
            13 * count <= usize::MAX - 13,
            target == spec_lfn_record(name@, i as int, count as int, crc),
            forall|k: int|
                0 <= k < 32 ==> rec@[k] == (if spec_char_index(k) >= j {
                    0u8
                } else {
                    target[k]
                }),
        decreases 13 - j,
    {
        let n = char_order_at(j);
        proof {
            assert(spec_char_index(spec_char_order(j as int)) == j);
            assert(13 * (i as int) + (j as int) < 13 * (count as int)) by (nonlinear_arith)
                requires
                    i < count,
                    j < 13,
            ;
        }
        let pos = 13 * i + j;
        if pos < name.len() {
            rec[n] = name[pos];
        }
        j = j + 1;
    }
    proof {
        assert(rec@ =~= target);
    }
    rec
}

/// Writes the records of `name` in front of the cursor, in disk order: the
/// highest ordinal — the head of the name — first, the record numbered one
/// last, each carrying `crc`, the cursor moved past them.  The bytes that
/// land in the directory's chain are exactly the records of
/// [`spec_lfn_record`].
pub fn lfn_serialize<F: FileSystem>(
    fs: &mut F,
    pos_to_write: &mut Stream,
    name: &[u8],
    crc: u8,
) -> (r: Result<(), Error>)
    requires
        old(fs).inv(),
        old(pos_to_write).spec_offset() <= old(fs).spec_cluster_size(),
        name@.len() <= 255,
    ensures
        final(fs).inv(),
        final(fs).spec_root_cluster() == old(fs).spec_root_cluster(),
        final(fs).spec_cluster_count() == old(fs).spec_cluster_count(),
        final(fs).spec_cluster_size() == old(fs).spec_cluster_size(),
        forall|d: u32| final(fs).spec_valid_cluster(d) == old(fs).spec_valid_cluster(d),
        final(pos_to_write).spec_offset() <= old(fs).spec_cluster_size(),
        (match r {
            Ok(()) => (crate::stream::stream_ok(&*old(fs), *old(pos_to_write)) ==> {
                let st = *old(pos_to_write);
                let count = spec_lfn_count(name@.len() as int);
                let s = crate::fat_table::chain(old(fs).fat(), st.spec_cluster()).unwrap();
                let cs = old(fs).spec_cluster_size() as int;
                let s2 = crate::fat_table::chain(final(fs).fat(), st.spec_cluster()).unwrap();
                &&& crate::fat_table::chain(final(fs).fat(), st.spec_cluster()) is Some
                &&& crate::stream::chain_bytes(&*final(fs), s2) == crate::bytes::seq_write(
                    crate::stream::chain_bytes(&*old(fs), s) + crate::bytes::zeros(
                        ((s2.len() - s.len()) * cs) as nat,
                    ),
                    st.spec_offset(),
                    spec_lfn_records(name@, crc, count),
                )
                &&& crate::stream::stream_ok(&*final(fs), *final(pos_to_write))
                &&& crate::stream::stream_rest(&*final(fs), *final(pos_to_write))
                    == crate::stream::chain_bytes(&*final(fs), s2).skip(
                    st.spec_offset() + 32 * count,
                )
                    &&& (forall|d: u32|
                        d < old(fs).spec_cluster_count() && !crate::fat_table::chain(
                            final(fs).fat(),
                            st.spec_cluster(),
                        ).unwrap().contains(d) ==> (#[trigger] final(fs).fat()[d as int])
                            == old(fs).fat()[d as int])
                    &&& (forall|d: u32|
                        old(fs).spec_valid_cluster(d) && !crate::fat_table::chain(
                            final(fs).fat(),
                            st.spec_cluster(),
                        ).unwrap().contains(d) ==> (#[trigger] final(fs).data(d as int))
                            == old(fs).data(d as int))
            }),
            Err(e) => {
                &&& (e == Error::UnexpectedClusterValue || e == Error::DeviceIO || e
                    == Error::InvalidClusterNumber || e == Error::NoFreeCluster)
                &&& (crate::stream::stream_ok(&*old(fs), *old(pos_to_write)) ==> e
                    != Error::UnexpectedClusterValue)
            },
        }),
{
    let count = lfn_need_space(name);
    proof {
        vstd::arithmetic::div_mod::lemma_fundamental_div_mod(name@.len() as int + 13, 13);
        assert(spec_lfn_records(name@, crc, 0) =~= Seq::<u8>::empty());
    }
    let mut buf: Vec<u8> = Vec::new();
    let mut t: usize = 0;
    while t < count
        invariant
            t <= count,
            count == spec_lfn_count(name@.len() as int),
            1 <= count <= 21,
            name@.len() <= 255,
            buf@ == spec_lfn_records(name@, crc, t as int),
            buf@.len() == 32 * t,
        decreases count - t,
    {
        let mut rec = lfn_record(name, count - 1 - t, count, crc);
        buf.append(&mut rec);
        t = t + 1;
    }
    match pos_to_write.write(fs, buf.as_slice()) {
        Ok(_) => Ok(()),
        Err(e) => Err(e),
    }
}

/// The builder's state after feeding the first `t` of the `count` records
/// of `name`, in disk order, the record at position `ps[u]` fed at step `u`.
pub open spec fn spec_run(
    st: BuilderState,
    name: Seq<u8>,
    crc: u8,
    ps: Seq<Stream>,
    t: int,
) -> BuilderState
    decreases t,
{
    if t <= 0 {
        st
    } else {
        spec_process(
            spec_run(st, name, crc, ps, t - 1),
            ps[t - 1],
            spec_lfn_record(name, spec_lfn_count(name.len() as int) - t, spec_lfn_count(
                name.len() as int,
            ), crc),
        ).0
    }
}

/// Whether the builder accepts record `t` of the run.
pub open spec fn spec_run_accepts(
    st: BuilderState,
    name: Seq<u8>,
    crc: u8,
    ps: Seq<Stream>,
    t: int,
) -> bool {
    spec_process(
        spec_run(st, name, crc, ps, t - 1),
        ps[t - 1],
        spec_lfn_record(name, spec_lfn_count(name.len() as int) - t, spec_lfn_count(
            name.len() as int,
        ), crc),
    ).1
}

/// What holds after the first `t` records went in: the builder waits for
/// number `count - t`, carries the checksum and the head record's position,
/// knows the name's length, and holds its tail from byte `13 (count - t)` on.
pub proof fn lemma_lfn_run_inv(
    st: BuilderState,
    name: Seq<u8>,
    crc: u8,
    ps: Seq<Stream>,
    t: int,
)
    requires
        1 <= name.len() <= 194,
        forall|m: int| 0 <= m < name.len() ==> name[m] != 0,
        ps.len() >= spec_lfn_count(name.len() as int),
        st.buf.len() == 256,
        1 <= t <= spec_lfn_count(name.len() as int),
    ensures
        ({
            let count = spec_lfn_count(name.len() as int);
            let stt = spec_run(st, name, crc, ps, t);
            &&& stt.number == count - t + 1
            &&& stt.checksum == crc
            &&& stt.lfn_pos == ps[0]
            &&& stt.len == name.len()
            &&& stt.buf.len() == 256
            &&& forall|m: int|
                13 * (count - t) <= m < name.len() ==> #[trigger] stt.buf[m] == name[m]
            &&& spec_run_accepts(st, name, crc, ps, t)
        }),
    decreases t,
{
    let l = name.len() as int;
    let count = spec_lfn_count(l);
    vstd::arithmetic::div_mod::lemma_fundamental_div_mod(l + 13, 13);
    vstd::arithmetic::div_mod::lemma_mod_bound(l + 13, 13);
    assert(13 * count <= l + 13 && l + 1 <= 13 * count);
    assert(1 <= count <= 15);
    let i = count - t;
    let rec = spec_lfn_record(name, i, count, crc);
    let prev = spec_run(st, name, crc, ps, t - 1);
    let stt = spec_run(st, name, crc, ps, t);
    assert(stt == spec_process(prev, ps[t - 1], rec).0);
    // the record's shape
    assert(rec[11] == ATTR_LONG_NAME && rec[13] == crc);
    assert(spec_is_lfn(rec)) by {
        assert(0x0Fu8 & 0x3F == 0x0F) by (bit_vector);
    }
    let chars = spec_rec_chars(rec);
    assert(forall|j: int|
        0 <= j < 13 ==> #[trigger] chars[j] == rec[spec_char_order(j)]);
    assert(forall|j: int|
        0 <= j < 13 ==> spec_char_index(#[trigger] spec_char_order(j)) == j);
    assert(forall|j: int|
        0 <= j < 13 ==> #[trigger] chars[j] == (if 13 * i + j < l {
            name[13 * i + j]
        } else {
            0
        }));
    if t == 1 {
        // the head record: marked last, numbered `count`
        let ordc = (count) as u8;
        assert(rec[0] == (0x40 + count) as u8);
        assert(spec_is_last(rec) && spec_rec_number(rec) == count) by {
            assert(1 <= ordc <= 15 ==> ((0x40 + ordc) as u8) & 0xF0 == 0x40 && ((0x40
                + ordc) as u8) & 0x0F == ordc) by (bit_vector);
        }
        let start = (count - 1) * 13;
        assert(start == 13 * i);
        let uz = l - 13 * i;
        assert(0 <= uz < 13);
        lemma_until_zero_of(chars, uz);
        assert(stt.len == start + uz);
        assert(stt.number == count && stt.checksum == crc && stt.lfn_pos == ps[0]);
        assert forall|m: int| 13 * (count - 1) <= m < l implies #[trigger] stt.buf[m]
            == name[m] by {
            assert(chars.take(uz)[m - start] == name[m]);
        }
    } else {
        lemma_lfn_run_inv(st, name, crc, ps, t - 1);
        // a continuation record: number one below the one awaited
        assert(prev.number == count - t + 2);
        let ordi = (i + 1) as u8;
        assert(rec[0] == ordi);
        assert(!spec_is_last(rec) && spec_rec_number(rec) == i + 1) by {
            assert(1 <= ordi <= 14 ==> ordi & 0xF0 == 0 && ordi & 0x0F == ordi)
                by (bit_vector);
        }
        assert(spec_rec_number(rec) + 1 == prev.number);
        // all thirteen bytes lie inside the name
        assert(13 * i + 13 <= l) by (nonlinear_arith)
            requires
                i <= count - 2,
                13 * count <= l + 13,
        ;
        lemma_until_zero_of(chars, 13);
        let start = (i + 1 - 1) * 13;
        assert(start == 13 * i);
        assert(stt.len == prev.len);
        assert forall|m: int| 13 * i <= m < l implies #[trigger] stt.buf[m] == name[m] by {
            if m < 13 * i + 13 {
                assert(chars.take(13)[m - start] == name[m]);
            } else {
                assert(prev.buf[m] == name[m]);
            }
        }
    }
}

/// Reading back what was written: feeding the serialized records of a name
/// to a fresh builder — in disk order, as the directory holds them — leaves
/// the builder holding exactly that name, awaiting sequence number one,
/// with the checksum and the position of the head record.  Names longer
/// than fourteen records cannot carry their ordinal in the four bits the
/// reader checks, so the law covers names up to 194 bytes.
pub proof fn lemma_lfn_round_trip(st: BuilderState, name: Seq<u8>, crc: u8, ps: Seq<Stream>)
    requires
        1 <= name.len() <= 194,
        forall|m: int| 0 <= m < name.len() ==> name[m] != 0,
        ps.len() >= spec_lfn_count(name.len() as int),
        st.buf.len() == 256,
    ensures
        ({
            let count = spec_lfn_count(name.len() as int);
            let stt = spec_run(st, name, crc, ps, count);
            &&& stt.number == 1
            &&& stt.checksum == crc
            &&& stt.lfn_pos == ps[0]
            &&& stt.len == name.len()
            &&& stt.buf.take(name.len() as int) == name
            &&& forall|t: int| 1 <= t <= count ==> spec_run_accepts(st, name, crc, ps, t)
        }),
{
    let l = name.len() as int;
    let count = spec_lfn_count(l);
    lemma_lfn_run_inv(st, name, crc, ps, count);
    let stt = spec_run(st, name, crc, ps, count);
    assert(stt.buf.take(l) =~= name);
    assert forall|t: int| 1 <= t <= count implies spec_run_accepts(st, name, crc, ps, t) by {
        lemma_lfn_run_inv(st, name, crc, ps, t);
    }
}

} // verus!
