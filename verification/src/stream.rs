//! A byte cursor over a cluster chain.
//!
//! The stream holds a current cluster and an offset inside it.  Reading walks
//! the chain transparently; writing grows the chain when it runs off its
//! last cluster.  The bytes a chain holds are modelled by [`chain_bytes`]:
//! the contents of its clusters, one after the other.

use vstd::prelude::*;

use crate::fat_table;
use crate::fat_table::chain;
use crate::fat_table::is_chain;
use crate::fat_table::lemma_chain_bound;
use crate::fat_table::lemma_chain_rec_from_links;
use crate::fat_table::lemma_chain_rec_props;
use crate::ClusterValue;
use crate::Error;
use crate::FileSystem;
use vstd::arithmetic::div_mod::lemma_fundamental_div_mod;
use vstd::arithmetic::div_mod::lemma_fundamental_div_mod_converse_div;
use vstd::arithmetic::div_mod::lemma_fundamental_div_mod_converse_mod;
use vstd::arithmetic::div_mod::lemma_mod_bound;
use vstd::arithmetic::mul::lemma_mul_inequality;

verus! {

/// The bytes a run of clusters holds, one cluster after the other.
pub open spec fn chain_bytes<F: FileSystem>(fs: &F, s: Seq<u32>) -> Seq<u8>
    decreases s.len(),
{
    if s.len() == 0 {
        Seq::empty()
    } else {
        fs.data(s[0] as int) + chain_bytes(fs, s.skip(1))
    }
}

/// A chain whose clusters the volume can all address.
pub open spec fn valid_chain<F: FileSystem>(fs: &F, s: Seq<u32>) -> bool {
    &&& is_chain(fs.fat(), s)
    &&& forall|i: int| 0 <= i < s.len() ==> fs.spec_valid_cluster(#[trigger] s[i])
}

/// A run of addressable clusters holds one cluster's worth of bytes each.
pub proof fn lemma_chain_bytes_len<F: FileSystem>(fs: &F, s: Seq<u32>)
    requires
        fs.inv(),
        forall|i: int| 0 <= i < s.len() ==> fs.spec_valid_cluster(#[trigger] s[i]),
    ensures
        chain_bytes(fs, s).len() == s.len() * fs.spec_cluster_size(),
    decreases s.len(),
{
    fs.lemma_inv();
    let cs = fs.spec_cluster_size() as int;
    if s.len() == 0 {
    } else {
        assert(forall|i: int| 0 <= i < s.skip(1).len() ==> s.skip(1)[i] == s[i + 1]);
        lemma_chain_bytes_len(fs, s.skip(1));
        assert(s.len() * cs == (s.len() - 1) * cs + cs) by (nonlinear_arith);
    }
}

/// Byte `m` of a run of clusters is byte `m % cluster_size` of cluster
/// `m / cluster_size` of the run.
pub proof fn lemma_chain_bytes_at<F: FileSystem>(fs: &F, s: Seq<u32>, m: int)
    requires
        fs.inv(),
        forall|i: int| 0 <= i < s.len() ==> fs.spec_valid_cluster(#[trigger] s[i]),
        0 <= m < s.len() * fs.spec_cluster_size(),
    ensures
        chain_bytes(fs, s)[m] == fs.data(
            s[m / (fs.spec_cluster_size() as int)] as int,
        )[m % (fs.spec_cluster_size() as int)],
    decreases s.len(),
{
    fs.lemma_inv();
    let cs = fs.spec_cluster_size() as int;
    lemma_chain_bytes_len(fs, s);
    assert(s.len() >= 1) by (nonlinear_arith)
        requires
            0 <= m < s.len() * cs,
            0 <= cs,
    ;
    if m < cs {
        assert(m / cs == 0 && m % cs == m) by (nonlinear_arith)
            requires
                0 <= m < cs,
        ;
        assert(chain_bytes(fs, s)[m] == fs.data(s[0] as int)[m]);
    } else {
        assert(forall|i: int| 0 <= i < s.skip(1).len() ==> s.skip(1)[i] == s[i + 1]);
        lemma_chain_bytes_len(fs, s.skip(1));
        assert(s.len() * cs == (s.len() - 1) * cs + cs) by (nonlinear_arith);
        lemma_chain_bytes_at(fs, s.skip(1), m - cs);
        lemma_fundamental_div_mod(m - cs, cs);
        lemma_mod_bound(m - cs, cs);
        let q = (m - cs) / cs;
        let r = (m - cs) % cs;
        assert(m == (q + 1) * cs + r) by (nonlinear_arith)
            requires
                m - cs == cs * q + r,
        ;
        lemma_fundamental_div_mod_converse_div(m, cs, q + 1, r);
        lemma_fundamental_div_mod_converse_mod(m, cs, q + 1, r);
        assert(chain_bytes(fs, s)[m] == chain_bytes(fs, s.skip(1))[m - cs]);
        assert(q < s.len() - 1) by (nonlinear_arith)
            requires
                m - cs == cs * q + r,
                0 <= r < cs,
                0 <= q,
                m < s.len() * cs,
        ;
        assert(s.skip(1)[q] == s[q + 1]);
        assert(chain_bytes(fs, s.skip(1))[m - cs] == fs.data(s[q + 1] as int)[r]);
    }
}

/// One more cluster behind a run appends its bytes.
pub proof fn lemma_chain_bytes_push<F: FileSystem>(fs: &F, s: Seq<u32>, x: u32)
    ensures
        chain_bytes(fs, s.push(x)) == chain_bytes(fs, s) + fs.data(x as int),
    decreases s.len(),
{
    if s.len() == 0 {
        assert(s.push(x).skip(1) =~= Seq::<u32>::empty());
        assert(s.push(x)[0] == x);
        assert(chain_bytes(fs, s.push(x)) == fs.data(x as int) + chain_bytes(
            fs,
            Seq::<u32>::empty(),
        ));
        assert(chain_bytes(fs, Seq::<u32>::empty()) == Seq::<u8>::empty());
        assert(chain_bytes(fs, s) == Seq::<u8>::empty());
        assert(fs.data(x as int) + Seq::<u8>::empty() =~= fs.data(x as int));
        assert(chain_bytes(fs, s.push(x)) =~= chain_bytes(fs, s) + fs.data(x as int));
    } else {
        assert(s.push(x).skip(1) =~= s.skip(1).push(x));
        lemma_chain_bytes_push(fs, s.skip(1), x);
        assert(s.push(x)[0] == s[0]);
        assert(chain_bytes(fs, s.push(x)) == fs.data(s[0] as int) + chain_bytes(
            fs,
            s.skip(1).push(x),
        ));
        assert(chain_bytes(fs, s.push(x)) =~= chain_bytes(fs, s) + fs.data(x as int));
    }
}

/// Two volumes whose clusters along a run hold the same bytes give the run
/// the same bytes.
pub proof fn lemma_chain_bytes_congruence<F: FileSystem>(fs1: &F, fs2: &F, s: Seq<u32>)
    requires
        forall|i: int|
            0 <= i < s.len() ==> fs2.data(#[trigger] s[i] as int) == fs1.data(s[i] as int),
    ensures
        chain_bytes(fs2, s) == chain_bytes(fs1, s),
    decreases s.len(),
{
    if s.len() > 0 {
        assert(forall|i: int| 0 <= i < s.skip(1).len() ==> s.skip(1)[i] == s[i + 1]);
        lemma_chain_bytes_congruence(fs1, fs2, s.skip(1));
    }
}

/// Overwriting a window inside one cluster of a run — no cluster repeating —
/// overwrites the matching window of the run's bytes.
pub proof fn lemma_chain_bytes_update<F: FileSystem>(
    fs1: &F,
    fs2: &F,
    s: Seq<u32>,
    j: int,
    off: int,
    w: Seq<u8>,
)
    requires
        fs1.inv(),
        fs2.inv(),
        fs2.spec_cluster_size() == fs1.spec_cluster_size(),
        forall|i: int| 0 <= i < s.len() ==> fs1.spec_valid_cluster(#[trigger] s[i]),
        forall|i: int| 0 <= i < s.len() ==> fs2.spec_valid_cluster(#[trigger] s[i]),
        s.no_duplicates(),
        0 <= j < s.len(),
        0 <= off,
        off + w.len() <= fs1.spec_cluster_size(),
        fs2.data(s[j] as int) == crate::bytes::seq_write(fs1.data(s[j] as int), off, w),
        forall|i: int|
            0 <= i < s.len() && i != j ==> fs2.data(#[trigger] s[i] as int) == fs1.data(
                s[i] as int,
            ),
    ensures
        chain_bytes(fs2, s) == crate::bytes::seq_write(
            chain_bytes(fs1, s),
            j * fs1.spec_cluster_size() + off,
            w,
        ),
{
    fs1.lemma_inv();
    fs2.lemma_inv();
    let cs = fs1.spec_cluster_size() as int;
    lemma_chain_bytes_len(fs1, s);
    lemma_chain_bytes_len(fs2, s);
    let at = j * cs + off;
    assert(0 <= j * cs && at + w.len() <= s.len() * cs) by (nonlinear_arith)
        requires
            0 <= j < s.len(),
            0 <= off,
            off + w.len() <= cs,
            at == j * cs + off,
            0 <= cs,
    ;
    assert forall|m: int| 0 <= m < s.len() * cs implies chain_bytes(fs2, s)[m]
        == crate::bytes::seq_write(chain_bytes(fs1, s), at, w)[m] by {
        lemma_chain_bytes_at(fs1, s, m);
        lemma_chain_bytes_at(fs2, s, m);
        lemma_fundamental_div_mod(m, cs);
        lemma_mod_bound(m, cs);
        let q = m / cs;
        let r = m % cs;
        assert(0 <= q < s.len()) by (nonlinear_arith)
            requires
                m == cs * q + r,
                0 <= r < cs,
                0 <= m < s.len() * cs,
                0 <= cs,
        ;
        if q == j {
            assert(cs * q == j * cs) by (nonlinear_arith)
                requires
                    q == j,
            ;
            assert(m - at == r - off);
            assert(fs1.data(s[j] as int).len() == cs);
            assert(chain_bytes(fs2, s)[m] == fs2.data(s[j] as int)[r]);
            assert(fs2.data(s[j] as int)[r] == crate::bytes::seq_write(
                fs1.data(s[j] as int),
                off,
                w,
            )[r]);
            assert(at <= m < at + w.len() <==> off <= r < off + w.len());
        } else {
            // a different cluster of the run: its bytes did not move, and
            // the window does not reach it
            assert(s[q] != s[j]);
            assert(!(at <= m < at + w.len())) by (nonlinear_arith)
                requires
                    m == cs * q + r,
                    0 <= r < cs,
                    at == j * cs + off,
                    0 <= off,
                    off + w.len() <= cs,
                    q != j,
                    0 <= cs,
        ;
        }
    }
    assert(chain_bytes(fs2, s) =~= crate::bytes::seq_write(chain_bytes(fs1, s), at, w));
}

/// A cursor standing on cluster `j` of a run of chained clusters sees
/// exactly the run's bytes from its absolute position on.
pub proof fn lemma_stream_suffix<F: FileSystem>(fs: &F, s: Seq<u32>, j: int, cur: Stream)
    requires
        fs.inv(),
        valid_chain(fs, s),
        0 <= j < s.len(),
        cur.spec_cluster() == s[j],
        0 <= cur.spec_offset() <= fs.spec_cluster_size(),
    ensures
        stream_ok(fs, cur),
        stream_rest(fs, cur) == chain_bytes(fs, s).skip(
            j * fs.spec_cluster_size() + cur.spec_offset(),
        ),
{
    fs.lemma_inv();
    let cs = fs.spec_cluster_size() as int;
    lemma_chain_bound(fs.fat(), s);
    lemma_chain_bytes_len(fs, s);
    let suf = s.skip(j);
    assert(forall|i: int| 0 <= i < suf.len() ==> suf[i] == s[i + j]);
    assert(is_chain(fs.fat(), suf)) by {
        assert(suf.last() == s.last());
        assert forall|i: int| 0 <= i < suf.len() - 1 implies fs.fat()[#[trigger] suf[i] as int]
            == ClusterValue::Next(suf[i + 1]) by {
            assert(fs.fat()[s[i + j] as int] == ClusterValue::Next(s[i + j + 1]));
        }
    }
    lemma_chain_rec_from_links(fs.fat(), suf, (fs.fat().len() + 1) as nat);
    assert(chain(fs.fat(), cur.spec_cluster()) == Some(suf));
    lemma_chain_bytes_len(fs, suf);
    assert(chain_bytes(fs, suf) =~= chain_bytes(fs, s).skip(j * cs)) by {
        assert((s.len() - j) * cs + j * cs == s.len() * cs && 0 <= j * cs) by (nonlinear_arith)
            requires
                0 <= j <= s.len(),
                0 <= cs,
        ;
        assert forall|m: int| 0 <= m < (s.len() - j) * cs implies chain_bytes(fs, suf)[m]
            == chain_bytes(fs, s)[j * cs + m] by {
            lemma_chain_bytes_at(fs, suf, m);
            lemma_chain_bytes_at(fs, s, j * cs + m);
            lemma_fundamental_div_mod(m, cs);
            lemma_mod_bound(m, cs);
            let q = m / cs;
            let r = m % cs;
            assert(j * cs + m == (j + q) * cs + r) by (nonlinear_arith)
                requires
                    m == cs * q + r,
            ;
            lemma_fundamental_div_mod_converse_div(j * cs + m, cs, j + q, r);
            lemma_fundamental_div_mod_converse_mod(j * cs + m, cs, j + q, r);
            assert(q < s.len() - j) by (nonlinear_arith)
                requires
                    m < (s.len() - j) * cs,
                    m == cs * q + r,
                    0 <= r < cs,
                    0 <= q,
            ;
            assert(suf[q] == s[j + q]);
        }
    }
    assert(j * cs + cur.spec_offset() <= s.len() * cs) by (nonlinear_arith)
        requires
            0 <= j < s.len(),
            0 <= cur.spec_offset() <= cs,
            0 <= cs,
    ;
    assert(stream_rest(fs, cur) == chain_bytes(fs, suf).skip(cur.spec_offset()));
    assert(stream_rest(fs, cur) =~= chain_bytes(fs, s).skip(
        j * fs.spec_cluster_size() + cur.spec_offset(),
    ));
}

/// Whether the cursor can keep walking: its cluster starts a chain of
/// addressable clusters and its offset lies within the current cluster.
pub open spec fn stream_ok<F: FileSystem>(fs: &F, st: Stream) -> bool {
    &&& chain(fs.fat(), st.spec_cluster()) is Some
    &&& valid_chain(fs, chain(fs.fat(), st.spec_cluster()).unwrap())
    &&& st.spec_offset() <= fs.spec_cluster_size()
}

/// The bytes between the cursor and the end of its chain.
pub open spec fn stream_rest<F: FileSystem>(fs: &F, st: Stream) -> Seq<u8> {
    chain_bytes(fs, chain(fs.fat(), st.spec_cluster()).unwrap()).skip(st.spec_offset())
}

/// A cursor over a cluster chain: the current cluster and the byte offset
/// inside it.  The offset may rest at `cluster_size` between operations; the
/// next read or write first follows the chain.
#[derive(Clone, Copy)]
pub struct Stream {
    cluster: u32,
    offset: usize,
}

impl Stream {
    /// The offset never leaves the machine range it is stored in.
    pub proof fn lemma_offset_nonneg(&self)
        ensures
            self.spec_offset() >= 0,
    {
    }

    /// The current cluster.
    pub closed spec fn spec_cluster(&self) -> u32 {
        self.cluster
    }

    /// The offset inside the current cluster.
    pub closed spec fn spec_offset(&self) -> int {
        self.offset as int
    }

    /// A cursor at the start of the chain of `cluster`.
    pub fn open(cluster: u32) -> (r: Stream)
        ensures
            r.spec_cluster() == cluster,
            r.spec_offset() == 0,
    {
        Stream { cluster, offset: 0 }
    }

    /// Allocates a fresh one-cluster chain and opens a cursor on it.
    pub fn create<F: FileSystem>(fs: &mut F) -> (r: Result<Stream, Error>)
        requires
            old(fs).inv(),
        ensures
            final(fs).inv(),
            final(fs).spec_root_cluster() == old(fs).spec_root_cluster(),
            final(fs).spec_cluster_count() == old(fs).spec_cluster_count(),
            final(fs).spec_cluster_size() == old(fs).spec_cluster_size(),
            forall|d: u32| final(fs).spec_valid_cluster(d) == old(fs).spec_valid_cluster(d),
            (match r {
                Ok(st) => {
                    &&& st.spec_offset() == 0
                    &&& 2 <= st.spec_cluster() < old(fs).spec_cluster_count()
                    &&& old(fs).fat()[st.spec_cluster() as int] == ClusterValue::Free
                    &&& old(fs).spec_valid_cluster(st.spec_cluster())
                    &&& final(fs).fat() == old(fs).fat().update(
                        st.spec_cluster() as int,
                        ClusterValue::Last,
                    )
                    &&& final(fs).data(st.spec_cluster() as int) == crate::bytes::zeros(
                        old(fs).spec_cluster_size(),
                    )
                    &&& forall|d: u32|
                        old(fs).spec_valid_cluster(d) && d != st.spec_cluster() ==> (
                        #[trigger] final(fs).data(d as int)) == old(fs).data(d as int)
                },
                Err(e) => {
                    &&& (e == Error::NoFreeCluster || e == Error::DeviceIO || e
                        == Error::InvalidClusterNumber)
                    &&& (e == Error::NoFreeCluster ==> final(fs).raw() == old(fs).raw()
                        && final(fs).fat() == old(fs).fat() && forall|d: u32|
                        2 <= d < old(fs).spec_cluster_count()
                            ==> (#[trigger] old(fs).fat()[d as int]) != ClusterValue::Free)
                },
            }),
    {
        let cluster = match fat_table::create(fs) {
            Ok(c) => c,
            Err(e) => {
                return Err(e);
            },
        };
        Ok(Stream::open(cluster))
    }

    /// Frees the whole chain of `cluster`.
    pub fn remove<F: FileSystem>(fs: &mut F, cluster: u32) -> (r: Result<(), Error>)
        requires
            old(fs).inv(),
        ensures
            final(fs).inv(),
            final(fs).spec_root_cluster() == old(fs).spec_root_cluster(),
            final(fs).spec_cluster_count() == old(fs).spec_cluster_count(),
            final(fs).spec_cluster_size() == old(fs).spec_cluster_size(),
            forall|d: u32| final(fs).spec_valid_cluster(d) == old(fs).spec_valid_cluster(d),
            forall|d: u32|
                old(fs).spec_valid_cluster(d) ==> (#[trigger] final(fs).data(d as int)) == old(fs).data(d as int),
            (match r {
                Ok(()) => chain(old(fs).fat(), cluster) matches Some(s) && final(fs).fat()
                    == fat_table::free_all(old(fs).fat(), s),
                Err(e) => e == Error::UnexpectedClusterValue || e == Error::DeviceIO || e
                    == Error::InvalidClusterNumber,
            }),
            (crate::fat_table::chain(old(fs).fat(), cluster) is Some ==> (r is Ok || r == Err::<
                (),
                Error,
            >(Error::DeviceIO))),
    {
        fat_table::remove(fs, cluster)
    }

    /// Cuts the chain after the current cluster.
    pub fn truncate<F: FileSystem>(&self, fs: &mut F) -> (r: Result<(), Error>)
        requires
            old(fs).inv(),
        ensures
            final(fs).inv(),
            final(fs).spec_root_cluster() == old(fs).spec_root_cluster(),
            final(fs).spec_cluster_count() == old(fs).spec_cluster_count(),
            final(fs).spec_cluster_size() == old(fs).spec_cluster_size(),
            forall|d: u32| final(fs).spec_valid_cluster(d) == old(fs).spec_valid_cluster(d),
            forall|d: u32|
                old(fs).spec_valid_cluster(d) ==> (#[trigger] final(fs).data(d as int)) == old(fs).data(d as int),
            (match r {
                Ok(()) => (chain(old(fs).fat(), self.spec_cluster()) matches Some(s) ==> final(fs).fat() == fat_table::free_all(old(fs).fat(), s).update(
                    self.spec_cluster() as int,
                    ClusterValue::Last,
                )),
                Err(e) => e == Error::UnexpectedClusterValue || e == Error::DeviceIO || e
                    == Error::InvalidClusterNumber,
            }),
            (crate::fat_table::chain(old(fs).fat(), self.spec_cluster()) is Some ==> (r is Ok || r
                == Err::<(), Error>(Error::DeviceIO))),
    {
        fat_table::truncate(fs, self.cluster)
    }

    /// The current cluster.
    pub fn cluster(&self) -> (r: u32)
        ensures
            r == self.spec_cluster(),
    {
        self.cluster
    }

    /// Whether two cursors rest on the same cluster and offset.
    pub fn is_equal(&self, pos: &Stream) -> (r: bool)
        ensures
            r == (self.spec_cluster() == pos.spec_cluster() && self.spec_offset()
                == pos.spec_offset()),
    {
        self.cluster == pos.cluster && self.offset == pos.offset
    }

    /// Reads up to `len` bytes from the cursor on, following the chain and
    /// stopping early only where the chain ends.
    pub fn read<F: FileSystem>(&mut self, fs: &F, len: usize) -> (r: Result<Vec<u8>, Error>)
        requires
            fs.inv(),
            old(self).spec_offset() <= fs.spec_cluster_size(),
        ensures
            final(self).spec_offset() <= fs.spec_cluster_size(),
            (r matches Ok(v) ==> v@.len() <= len),
            (match r {
                Ok(v) => stream_ok(fs, *old(self)) ==> {
                    &&& v@.len() == vstd::math::min(
                        len as int,
                        stream_rest(fs, *old(self)).len() as int,
                    )
                    &&& v@ == stream_rest(fs, *old(self)).take(v@.len() as int)
                    &&& stream_ok(fs, *final(self))
                    &&& stream_rest(fs, *final(self)) == stream_rest(fs, *old(self)).skip(
                        v@.len() as int,
                    )
                },
                Err(e) => {
                    &&& (e == Error::UnexpectedClusterValue || e == Error::DeviceIO || e
                        == Error::InvalidClusterNumber)
                    &&& (stream_ok(fs, *old(self)) ==> e == Error::DeviceIO)
                },
            }),
    {
        let cs = fs.cluster_size();
        let mut v: Vec<u8> = Vec::new();
        let ghost cond = stream_ok(fs, *old(self));
        let ghost s = chain(fs.fat(), old(self).cluster).unwrap();
        let ghost whole = chain_bytes(fs, s);
        let ghost mut j: int = 0;
        proof {
            fs.lemma_inv();
            if cond {
                lemma_chain_rec_props(fs.fat(), old(self).cluster, (fs.fat().len() + 1) as nat, s);
                lemma_chain_bytes_len(fs, s);
                lemma_mul_inequality(1, s.len() as int, fs.spec_cluster_size() as int);
            }
        }
        while v.len() != len
            invariant
                fs.inv(),
                cs == fs.spec_cluster_size(),
                v@.len() <= len,
                self.offset <= cs,
                cond == stream_ok(fs, *old(self)),
                cond ==> s == chain(fs.fat(), old(self).spec_cluster()).unwrap(),
                cond ==> whole == chain_bytes(fs, s),
                cond ==> valid_chain(fs, s),
                cond ==> whole.len() == s.len() * cs,
                cond ==> old(self).spec_offset() <= cs,
                cond ==> {
                    &&& 0 <= j < s.len()
                    &&& self.spec_cluster() == s[j]
                    &&& j * cs + self.spec_offset() == old(self).spec_offset() + v@.len()
                    &&& v@ == whole.subrange(
                        old(self).spec_offset(),
                        old(self).spec_offset() + v@.len(),
                    )
                },
            decreases len - v@.len(),
        {
            proof {
                fs.lemma_inv();
            }
            if self.offset == cs {
                let value = match fs.fat_table_get(self.cluster) {
                    Ok(w) => w,
                    Err(e) => {
                        proof {
                            if cond {
                                assert(self.spec_cluster() == s[j]);
                            }
                        }
                        return Err(e);
                    },
                };
                match value {
                    ClusterValue::Next(c) => {
                        proof {
                            if cond {
                                // a `Next` entry means the chain continues
                                if j == s.len() - 1 {
                                    assert(fs.fat()[s[j] as int] == ClusterValue::Last);
                                    assert(false);
                                }
                                assert(fs.fat()[s[j] as int] == ClusterValue::Next(s[j + 1]));
                                assert((j + 1) * cs == j * cs + cs) by (nonlinear_arith);
                                j = j + 1;
                            }
                        }
                        self.cluster = c;
                        self.offset = 0;
                    },
                    ClusterValue::Last => {
                        proof {
                            if cond {
                                // the chain ends here with the cursor at its
                                // very end: everything available was read
                                if j < s.len() - 1 {
                                    assert(fs.fat()[s[j] as int] == ClusterValue::Next(s[j + 1]));
                                    assert(false);
                                }
                                assert((j + 1) * cs == j * cs + cs) by (nonlinear_arith);
                                assert(old(self).spec_offset() + v@.len() == whole.len());
                                Self::lemma_read_exit(fs, s, whole, j, *self, *old(self), v@, len);
                            }
                        }
                        return Ok(v);
                    },
                    _ => {
                        proof {
                            if cond {
                                if j == s.len() - 1 {
                                    assert(fs.fat()[s[j] as int] == ClusterValue::Last);
                                } else {
                                    assert(fs.fat()[s[j] as int] == ClusterValue::Next(s[j + 1]));
                                }
                                assert(false);
                            }
                        }
                        return Err(Error::UnexpectedClusterValue);
                    },
                }
            }
            let mut chunk = match fs.read(self.cluster, self.offset, len - v.len()) {
                Ok(c) => c,
                Err(e) => {
                    proof {
                        if cond {
                            assert(fs.spec_valid_cluster(s[j]));
                        }
                    }
                    return Err(e);
                },
            };
            let ghost chunk_view = chunk@;
            let ghost vpre = v@;
            let n = chunk.len();
            v.append(&mut chunk);
            proof {
                if cond {
                    let base0 = old(self).spec_offset() + vpre.len() + chunk_view.len();
                    assert(base0 <= j * cs + cs);
                    assert(base0 <= s.len() * cs) by (nonlinear_arith)
                        requires
                            0 <= j < s.len(),
                            0 <= cs,
                            base0 <= j * cs + cs,
                    ;
                    assert forall|m: int|
                        old(self).spec_offset() <= m < old(self).spec_offset() + vpre.len()
                            + chunk_view.len() implies whole[m] == v@[m - old(self).spec_offset()] by {
                        if m < old(self).spec_offset() + vpre.len() {
                            assert(vpre[m - old(self).spec_offset()] == whole.subrange(
                                old(self).spec_offset(),
                                old(self).spec_offset() + vpre.len(),
                            )[m - old(self).spec_offset()]);
                        } else {
                            let i = m - (old(self).spec_offset() + vpre.len());
                            lemma_chain_bytes_at(fs, s, m);
                            lemma_fundamental_div_mod_converse_div(
                                m,
                                cs as int,
                                j,
                                self.spec_offset() + i,
                            );
                            lemma_fundamental_div_mod_converse_mod(
                                m,
                                cs as int,
                                j,
                                self.spec_offset() + i,
                            );
                            assert(chunk_view[i] == fs.data(s[j] as int).subrange(
                                self.spec_offset(),
                                self.spec_offset() + chunk_view.len(),
                            )[i]);
                        }
                    }
                    assert(v@ =~= whole.subrange(
                        old(self).spec_offset(),
                        old(self).spec_offset() + v@.len(),
                    ));
                }
            }
            self.offset = self.offset + n;
        }
        proof {
            if cond {
                let pos = j * cs + self.spec_offset();
                assert(pos <= s.len() * cs) by (nonlinear_arith)
                    requires
                        0 <= j < s.len(),
                        self.spec_offset() <= cs,
                        0 <= cs,
                        pos == j * cs + self.spec_offset(),
                ;
                Self::lemma_read_exit(fs, s, whole, j, *self, *old(self), v@, len);
            }
        }
        Ok(v)
    }

    /// What the read loop's bookkeeping says of the cursor when it stops:
    /// the collected bytes are the prefix owed, and the rest of the stream
    /// starts where they end.
    proof fn lemma_read_exit<F: FileSystem>(
        fs: &F,
        s: Seq<u32>,
        whole: Seq<u8>,
        j: int,
        cur: Stream,
        orig: Stream,
        got: Seq<u8>,
        len: usize,
    )
        requires
            fs.inv(),
            stream_ok(fs, orig),
            s == chain(fs.fat(), orig.spec_cluster()).unwrap(),
            whole == chain_bytes(fs, s),
            valid_chain(fs, s),
            whole.len() == s.len() * fs.spec_cluster_size(),
            0 <= j < s.len(),
            cur.spec_cluster() == s[j],
            0 <= cur.spec_offset() <= fs.spec_cluster_size(),
            0 <= orig.spec_offset(),
            j * fs.spec_cluster_size() + cur.spec_offset() == orig.spec_offset() + got.len(),
            got == whole.subrange(orig.spec_offset(), orig.spec_offset() + got.len()),
            got.len() == len || orig.spec_offset() + got.len() == whole.len(),
            got.len() <= len,
            orig.spec_offset() <= fs.spec_cluster_size(),
        ensures
            got.len() == vstd::math::min(len as int, stream_rest(fs, orig).len() as int),
            got == stream_rest(fs, orig).take(got.len() as int),
            stream_ok(fs, cur),
            stream_rest(fs, cur) == stream_rest(fs, orig).skip(got.len() as int),
    {
        fs.lemma_inv();
        let cs = fs.spec_cluster_size() as int;
        lemma_chain_bound(fs.fat(), s);
        assert(j * cs + cur.spec_offset() <= s.len() * cs && 0 <= j * cs) by (nonlinear_arith)
            requires
                0 <= j < s.len(),
                0 <= cur.spec_offset() <= cs,
                0 <= cs,
        ;
        assert(orig.spec_offset() + got.len() <= whole.len());
        // the suffix of the chain from the cursor's cluster is itself the
        // chain of that cluster
        let suf = s.skip(j);
        assert(forall|i: int| 0 <= i < suf.len() ==> suf[i] == s[i + j]);
        assert(is_chain(fs.fat(), suf)) by {
            assert(suf.last() == s.last());
            assert forall|i: int| 0 <= i < suf.len() - 1 implies fs.fat()[#[trigger] suf[i] as int]
                == ClusterValue::Next(suf[i + 1]) by {
                assert(fs.fat()[s[i + j] as int] == ClusterValue::Next(s[i + j + 1]));
            }
        }
        lemma_chain_rec_from_links(fs.fat(), suf, (fs.fat().len() + 1) as nat);
        assert(chain(fs.fat(), cur.spec_cluster()) == Some(suf));
        lemma_chain_bytes_len(fs, suf);
        // the bytes of the suffix are the tail of the chain's bytes
        assert(chain_bytes(fs, suf) =~= whole.skip(j * cs)) by {
            assert((s.len() - j) * cs + j * cs == s.len() * cs) by (nonlinear_arith);
            assert forall|m: int| 0 <= m < (s.len() - j) * cs implies chain_bytes(fs, suf)[m]
                == whole[j * cs + m] by {
                lemma_chain_bytes_at(fs, suf, m);
                lemma_chain_bytes_at(fs, s, j * cs + m);
                lemma_fundamental_div_mod(m, cs);
                lemma_mod_bound(m, cs);
                let q = m / cs;
                let r = m % cs;
                assert(j * cs + m == (j + q) * cs + r) by (nonlinear_arith)
                    requires
                        m == cs * q + r,
                ;
                lemma_fundamental_div_mod_converse_div(j * cs + m, cs, j + q, r);
                lemma_fundamental_div_mod_converse_mod(j * cs + m, cs, j + q, r);
                assert(q < s.len() - j) by (nonlinear_arith)
                    requires
                        m < (s.len() - j) * cs,
                        m == cs * q + r,
                        0 <= r < cs,
                        0 <= q,
                ;
                assert(suf[q] == s[j + q]);
            }
        }
        assert(j * cs >= 0) by (nonlinear_arith)
            requires
                0 <= j,
                0 <= cs,
        ;
        assert(stream_rest(fs, cur) =~= stream_rest(fs, orig).skip(got.len() as int));
        assert(got =~= stream_rest(fs, orig).take(got.len() as int));
        if got.len() == len {
        } else {
            assert(orig.spec_offset() + got.len() == whole.len());
        }
    }
}

/// The number of clusters a chain of `oldlen` clusters holds once bytes up
/// to absolute position `end` exist: unchanged while `end` fits, one cluster
/// per started `cs` bytes beyond that.
pub open spec fn grown_len(oldlen: int, end: int, cs: int) -> int {
    if end <= oldlen * cs {
        oldlen
    } else {
        (end + cs - 1) / cs
    }
}

impl Stream {
    /// Writes the whole buffer from the cursor on, following the chain and
    /// hooking fresh zeroed clusters behind it when it runs out.
    #[verifier::rlimit(100)]
    pub fn write<F: FileSystem>(&mut self, fs: &mut F, buf: &[u8]) -> (r: Result<usize, Error>)
        requires
            old(fs).inv(),
            old(self).spec_offset() <= old(fs).spec_cluster_size(),
        ensures
            final(fs).inv(),
            final(fs).spec_root_cluster() == old(fs).spec_root_cluster(),
            final(fs).spec_cluster_count() == old(fs).spec_cluster_count(),
            final(fs).spec_cluster_size() == old(fs).spec_cluster_size(),
            forall|d: u32| final(fs).spec_valid_cluster(d) == old(fs).spec_valid_cluster(d),
            final(self).spec_offset() <= old(fs).spec_cluster_size(),
            (match r {
                Ok(n) => {
                    &&& n == buf@.len()
                    &&& (stream_ok(&*old(fs), *old(self)) ==> {
                        let s = chain(old(fs).fat(), old(self).spec_cluster()).unwrap();
                        let cs = old(fs).spec_cluster_size() as int;
                        let end = old(self).spec_offset() + buf@.len();
                        let s2 = chain(final(fs).fat(), old(self).spec_cluster()).unwrap();
                        &&& chain(final(fs).fat(), old(self).spec_cluster()) is Some
                        &&& valid_chain(&*final(fs), s2)
                        &&& s2.len() >= s.len()
                        &&& s2.take(s.len() as int) == s
                        &&& s2.len() == grown_len(s.len() as int, end, cs)
                        &&& chain_bytes(&*final(fs), s2) == crate::bytes::seq_write(
                            chain_bytes(&*old(fs), s) + crate::bytes::zeros(
                                ((s2.len() - s.len()) * cs) as nat,
                            ),
                            old(self).spec_offset(),
                            buf@,
                        )
                        &&& stream_ok(&*final(fs), *final(self))
                        &&& stream_rest(&*final(fs), *final(self)) == chain_bytes(
                            &*final(fs),
                            s2,
                        ).skip(end)
                        &&& (buf@.len() > 0 ==> final(self).spec_cluster() == s2[(end - 1) / cs]
                            && final(self).spec_offset() == end - ((end - 1) / cs) * cs)
                        &&& (buf@.len() == 0 ==> *final(self) == *old(self))
                        &&& (forall|i: int|
                            s.len() <= i < s2.len() ==> old(fs).fat()[#[trigger] s2[i] as int]
                                == ClusterValue::Free)
                        &&& (s2.len() == s.len() ==> final(fs).fat() == old(fs).fat())
                        &&& forall|d: u32|
                            d < old(fs).spec_cluster_count() && !s2.contains(d) ==> (
                            #[trigger] final(fs).fat()[d as int]) == old(fs).fat()[d as int]
                        &&& forall|d: u32|
                            old(fs).spec_valid_cluster(d) && !s2.contains(d)
                                ==> (#[trigger] final(fs).data(d as int))
                                == old(fs).data(d as int)
                    })
                },
                Err(e) => {
                    &&& (e == Error::UnexpectedClusterValue || e == Error::DeviceIO || e
                        == Error::InvalidClusterNumber || e == Error::NoFreeCluster)
                    &&& (stream_ok(&*old(fs), *old(self)) ==> e != Error::UnexpectedClusterValue)
                    &&& (e == Error::NoFreeCluster ==> forall|d: u32|
                        2 <= d < old(fs).spec_cluster_count()
                            ==> (#[trigger] final(fs).fat()[d as int]) != ClusterValue::Free)
                },
            }),
    {
        let cs = fs.cluster_size();
        let ghost cond = stream_ok(&*old(fs), *old(self));
        let ghost s = chain(old(fs).fat(), old(self).cluster).unwrap();
        let ghost mut s_cur = s;
        let ghost mut j: int = 0;
        let mut written: usize = 0;
        proof {
            fs.lemma_inv();
            if cond {
                crate::fat_table::lemma_chain_rec_props(
                    fs.fat(),
                    old(self).cluster,
                    (fs.fat().len() + 1) as nat,
                    s,
                );
                lemma_chain_bytes_len(fs, s);
                assert(s_cur.take(s.len() as int) =~= s);
                assert(buf@.take(0) =~= Seq::<u8>::empty());
                assert(chain_bytes(fs, s_cur) =~= crate::bytes::seq_write(
                    chain_bytes(&*old(fs), s) + crate::bytes::zeros(0),
                    old(self).spec_offset(),
                    buf@.take(0),
                ));
            }
        }
        while written != buf.len()
            invariant
                fs.inv(),
                old(fs).inv(),
                fs.spec_root_cluster() == old(fs).spec_root_cluster(),
                fs.spec_cluster_count() == old(fs).spec_cluster_count(),
                fs.spec_cluster_size() == old(fs).spec_cluster_size(),
                forall|d: u32| fs.spec_valid_cluster(d) == old(fs).spec_valid_cluster(d),
                cs == fs.spec_cluster_size(),
                written <= buf@.len(),
                self.spec_offset() <= cs,
                cond == stream_ok(&*old(fs), *old(self)),
                cond ==> s == chain(old(fs).fat(), old(self).spec_cluster()).unwrap(),
                cond ==> old(fs).spec_cluster_size() == cs,
                cond ==> 0 <= old(self).spec_offset() <= cs,
                cond ==> {
                    &&& chain(fs.fat(), old(self).spec_cluster()) == Some(s_cur)
                    &&& valid_chain(fs, s_cur)
                    &&& s.len() >= 1
                    &&& s_cur.len() >= s.len()
                    &&& s_cur.take(s.len() as int) == s
                    &&& 0 <= j < s_cur.len()
                    &&& self.spec_cluster() == s_cur[j]
                    &&& j * cs + self.spec_offset() == old(self).spec_offset() + written
                    &&& s_cur.len() == vstd::math::max(s.len() as int, j + 1)
                    &&& (s_cur.len() > s.len() ==> self.spec_offset() >= 1)
                    &&& (written > 0 ==> self.spec_offset() >= 1)
                    &&& (written == 0 ==> *self == *old(self))
                    &&& (s_cur.len() == s.len() ==> fs.fat() == old(fs).fat())
                    &&& (forall|i: int|
                        s.len() <= i < s_cur.len() ==> old(fs).fat()[#[trigger] s_cur[i] as int]
                            == ClusterValue::Free)
                    &&& chain_bytes(fs, s_cur) == crate::bytes::seq_write(
                        chain_bytes(&*old(fs), s) + crate::bytes::zeros(
                            ((s_cur.len() - s.len()) * cs) as nat,
                        ),
                        old(self).spec_offset(),
                        buf@.take(written as int),
                    )
                    &&& forall|d: u32|
                        d < old(fs).spec_cluster_count() && !s_cur.contains(d) ==> (
                        #[trigger] fs.fat()[d as int]) == old(fs).fat()[d as int]
                    &&& forall|d: u32|
                        old(fs).spec_valid_cluster(d) && !s_cur.contains(d) ==> (#[trigger] fs.data(
                            d as int,
                        )) == old(fs).data(d as int)
                },
            decreases buf@.len() - written,
        {
            proof {
                fs.lemma_inv();
                if cond {
                    crate::fat_table::lemma_chain_rec_props(
                        fs.fat(),
                        old(self).cluster,
                        (fs.fat().len() + 1) as nat,
                        s_cur,
                    );
                    lemma_chain_bound(fs.fat(), s_cur);
                    lemma_chain_bytes_len(fs, s_cur);
                }
            }
            if self.offset == cs {
                let value = match fs.fat_table_get(self.cluster) {
                    Ok(w) => w,
                    Err(e) => {
                        return Err(e);
                    },
                };
                match value {
                    ClusterValue::Next(c) => {
                        proof {
                            if cond {
                                if j == s_cur.len() - 1 {
                                    assert(fs.fat()[s_cur[j] as int] == ClusterValue::Last);
                                    assert(false);
                                }
                                assert(fs.fat()[s_cur[j] as int] == ClusterValue::Next(
                                    s_cur[j + 1],
                                ));
                                assert((j + 1) * cs == j * cs + cs) by (nonlinear_arith);
                                j = j + 1;
                            }
                        }
                        self.cluster = c;
                        self.offset = 0;
                    },
                    ClusterValue::Last => {
                        let ghost fs_pre = *fs;
                        let ghost self_pre = *self;
                        let c = match crate::fat_table::extend(fs, self.cluster) {
                            Ok(c) => c,
                            Err(e) => {
                                return Err(e);
                            },
                        };
                        proof {
                            if cond {
                                assert((j + 1) * cs == j * cs + cs) by (nonlinear_arith);
                                Self::lemma_write_extend(
                                    &fs_pre,
                                    fs,
                                    &*old(fs),
                                    s,
                                    s_cur,
                                    j,
                                    c,
                                    self_pre,
                                    *old(self),
                                    buf@,
                                    written as int,
                                );
                                let sp = s_cur.push(c);
                                assert(!s_cur.contains(c)) by {
                                    if s_cur.contains(c) {
                                        let i = choose|i: int|
                                            0 <= i < s_cur.len() && s_cur[i] == c;
                                        if i < s_cur.len() - 1 {
                                            assert(fs_pre.fat()[s_cur[i] as int]
                                                == ClusterValue::Next(s_cur[i + 1]));
                                        } else {
                                            assert(fs_pre.fat()[s_cur[i] as int]
                                                == ClusterValue::Last);
                                        }
                                    }
                                }
                                assert(old(fs).fat()[c as int] == ClusterValue::Free);
                                assert forall|d: u32|
                                    d < old(fs).spec_cluster_count() && !sp.contains(d) implies (
                                #[trigger] fs.fat()[d as int]) == old(fs).fat()[d as int] by {
                                    assert(sp.contains(sp[j + 1]));
                                    assert(sp.contains(sp[j]) && sp[j] == s_cur[j]);
                                    assert(forall|i: int|
                                        0 <= i < s_cur.len() ==> sp[i] == s_cur[i]);
                                    assert(!s_cur.contains(d)) by {
                                        if s_cur.contains(d) {
                                            let i = choose|i: int|
                                                0 <= i < s_cur.len() && s_cur[i] == d;
                                            assert(sp[i] == d);
                                        }
                                    }
                                    assert(fs_pre.fat()[d as int] == old(fs).fat()[d as int]);
                                }
                                assert forall|d: u32|
                                    old(fs).spec_valid_cluster(d) && !sp.contains(d) implies (
                                #[trigger] fs.data(d as int)) == old(fs).data(d as int) by {
                                    assert(sp.contains(sp[j + 1]));
                                    assert(!s_cur.contains(d)) by {
                                        if s_cur.contains(d) {
                                            let i = choose|i: int|
                                                0 <= i < s_cur.len() && s_cur[i] == d;
                                            assert(sp[i] == d);
                                        }
                                    }
                                    assert(fs.data(d as int) == fs_pre.data(d as int));
                                }
                                j = j + 1;
                                s_cur = sp;
                            }
                        }
                        self.cluster = c;
                        self.offset = 0;
                    },
                    _ => {
                        proof {
                            if cond {
                                if j == s_cur.len() - 1 {
                                    assert(fs.fat()[s_cur[j] as int] == ClusterValue::Last);
                                } else {
                                    assert(fs.fat()[s_cur[j] as int] == ClusterValue::Next(
                                        s_cur[j + 1],
                                    ));
                                }
                                assert(false);
                            }
                        }
                        return Err(Error::UnexpectedClusterValue);
                    },
                }
            }
            let part = vstd::slice::slice_subrange(buf, written, buf.len());
            let ghost fs_pre = *fs;
            let k = match fs.write(self.cluster, self.offset, part) {
                Ok(k) => k,
                Err(e) => {
                    return Err(e);
                },
            };
            proof {
                if cond {
                    Self::lemma_write_chunk(
                        &fs_pre,
                        fs,
                        &*old(fs),
                        s,
                        s_cur,
                        j,
                        *self,
                        *old(self),
                        buf@,
                        written as int,
                        k as int,
                    );
                    assert forall|d: u32|
                        old(fs).spec_valid_cluster(d) && !s_cur.contains(d) implies (
                    #[trigger] fs.data(d as int)) == old(fs).data(d as int) by {
                        assert(s_cur.contains(s_cur[j]));
                        assert(fs.data(d as int) == fs_pre.data(d as int));
                    }
                }
            }
            written = written + k;
            self.offset = self.offset + k;
        }
        proof {
            if cond {
                fs.lemma_inv();
                crate::fat_table::lemma_chain_rec_props(
                    fs.fat(),
                    old(self).cluster,
                    (fs.fat().len() + 1) as nat,
                    s_cur,
                );
                lemma_chain_bound(fs.fat(), s_cur);
                lemma_chain_bytes_len(fs, s_cur);
                lemma_stream_suffix(fs, s_cur, j, *self);
                let end = old(self).spec_offset() + buf@.len();
                assert(j * cs + self.spec_offset() == end);
                // the final cluster count is the grown length
                if s_cur.len() == s.len() {
                    assert(end <= s.len() * (cs as int)) by (nonlinear_arith)
                        requires
                            end == j * cs + self.spec_offset(),
                            0 <= j < s_cur.len(),
                            s_cur.len() == s.len(),
                            self.spec_offset() <= cs,
                            0 <= cs,
                    ;
                } else {
                    assert(s_cur.len() == j + 1);
                    assert(end > s.len() * (cs as int)) by (nonlinear_arith)
                        requires
                            end == j * cs + self.spec_offset(),
                            s.len() <= j,
                            self.spec_offset() >= 1,
                            cs >= 1,
                    ;
                    assert(end + cs - 1 == (j + 1) * (cs as int) + (self.spec_offset() - 1))
                        by (nonlinear_arith)
                        requires
                            end == j * cs + self.spec_offset(),
                    ;
                    vstd::arithmetic::div_mod::lemma_fundamental_div_mod_converse_div(
                        end + cs - 1,
                        cs as int,
                        j + 1,
                        self.spec_offset() - 1,
                    );
                }
                if buf@.len() > 0 {
                    // the cursor rests right behind the last byte written
                    assert(self.spec_offset() >= 1);
                    assert(end - 1 == j * (cs as int) + (self.spec_offset() - 1));
                    vstd::arithmetic::div_mod::lemma_fundamental_div_mod_converse_div(
                        end - 1,
                        cs as int,
                        j,
                        self.spec_offset() - 1,
                    );
                }
            }
        }
        Ok(written)
    }

    /// What one in-cluster write does to the loop's bookkeeping.
    proof fn lemma_write_chunk<F: FileSystem>(
        fs1: &F,
        fs2: &F,
        fs0: &F,
        s: Seq<u32>,
        s_cur: Seq<u32>,
        j: int,
        cur: Stream,
        orig: Stream,
        buf: Seq<u8>,
        written: int,
        k: int,
    )
        requires
            fs1.inv(),
            fs2.inv(),
            fs2.spec_cluster_size() == fs1.spec_cluster_size(),
            fs2.fat() == fs1.fat(),
            forall|d: u32| fs2.spec_valid_cluster(d) == fs1.spec_valid_cluster(d),
            valid_chain(fs1, s_cur),
            0 <= j < s_cur.len(),
            cur.spec_cluster() == s_cur[j],
            0 <= written <= buf.len(),
            written < buf.len(),
            0 <= cur.spec_offset() < fs1.spec_cluster_size(),
            k == if cur.spec_offset() + (buf.len() - written) <= fs1.spec_cluster_size() {
                buf.len() - written
            } else {
                fs1.spec_cluster_size() - cur.spec_offset()
            },
            fs2.data(s_cur[j] as int) == crate::bytes::seq_write(
                fs1.data(s_cur[j] as int),
                cur.spec_offset(),
                buf.subrange(written, buf.len() as int).take(k),
            ),
            forall|d: u32|
                fs1.spec_valid_cluster(d) && d != s_cur[j] ==> (#[trigger] fs2.data(d as int))
                    == fs1.data(d as int),
            // the bookkeeping so far
            fs1.spec_cluster_size() == fs0.spec_cluster_size(),
            j * fs1.spec_cluster_size() + cur.spec_offset() == orig.spec_offset() + written,
            0 <= orig.spec_offset(),
            s_cur.take(s.len() as int) == s,
            s_cur.len() >= s.len(),
            chain_bytes(fs1, s_cur) == crate::bytes::seq_write(
                chain_bytes(fs0, s) + crate::bytes::zeros(
                    ((s_cur.len() - s.len()) * fs1.spec_cluster_size()) as nat,
                ),
                orig.spec_offset(),
                buf.take(written),
            ),
        ensures
            chain(fs2.fat(), s_cur[0]) == chain(fs1.fat(), s_cur[0]),
            valid_chain(fs2, s_cur),
            chain_bytes(fs2, s_cur) == crate::bytes::seq_write(
                chain_bytes(fs0, s) + crate::bytes::zeros(
                    ((s_cur.len() - s.len()) * fs1.spec_cluster_size()) as nat,
                ),
                orig.spec_offset(),
                buf.take(written + k),
            ),
        decreases 0int,
    {
        fs1.lemma_inv();
        fs2.lemma_inv();
        let cs = fs1.spec_cluster_size() as int;
        lemma_chain_bound(fs1.fat(), s_cur);
        let w = buf.subrange(written, buf.len() as int).take(k);
        lemma_chain_bytes_update(fs1, fs2, s_cur, j, cur.spec_offset(), w);
        crate::bytes::lemma_seq_write_append(
            chain_bytes(fs0, s) + crate::bytes::zeros(((s_cur.len() - s.len()) * cs) as nat),
            orig.spec_offset(),
            buf.take(written),
            w,
        );
        assert(buf.take(written) + w =~= buf.take(written + k));
        assert(orig.spec_offset() + written == j * cs + cur.spec_offset());
    }

    /// What extending the chain by one zeroed cluster does to the loop's
    /// bookkeeping: the chain grows by one, its bytes by one cluster of
    /// zeros, and nothing written so far moves.
    proof fn lemma_write_extend<F: FileSystem>(
        fs1: &F,
        fs2: &F,
        fs0: &F,
        s: Seq<u32>,
        s_cur: Seq<u32>,
        j: int,
        c: u32,
        cur: Stream,
        orig: Stream,
        buf: Seq<u8>,
        written: int,
    )
        requires
            fs1.inv(),
            fs2.inv(),
            fs2.spec_cluster_size() == fs1.spec_cluster_size(),
            fs2.spec_cluster_count() == fs1.spec_cluster_count(),
            forall|d: u32| fs2.spec_valid_cluster(d) == fs1.spec_valid_cluster(d),
            chain(fs1.fat(), s_cur[0]) == Some(s_cur),
            valid_chain(fs1, s_cur),
            0 <= j == s_cur.len() - 1,
            cur.spec_cluster() == s_cur[j],
            cur.spec_offset() == fs1.spec_cluster_size(),
            // what the allocation promised
            2 <= c < fs1.spec_cluster_count(),
            fs1.fat()[c as int] == ClusterValue::Free,
            fs1.spec_valid_cluster(c),
            fs2.fat() == fs1.fat().update(c as int, ClusterValue::Last).update(
                cur.spec_cluster() as int,
                ClusterValue::Next(c),
            ),
            fs2.data(c as int) == crate::bytes::zeros(fs1.spec_cluster_size()),
            forall|d: u32|
                fs1.spec_valid_cluster(d) && d != c ==> (#[trigger] fs2.data(d as int))
                    == fs1.data(d as int),
            // the bookkeeping so far
            fs0.inv(),
            fs1.spec_cluster_size() == fs0.spec_cluster_size(),
            forall|d: u32| fs1.spec_valid_cluster(d) == fs0.spec_valid_cluster(d),
            j * fs1.spec_cluster_size() + cur.spec_offset() == orig.spec_offset() + written,
            0 <= orig.spec_offset(),
            0 <= written <= buf.len(),
            s_cur.take(s.len() as int) == s,
            s_cur.len() >= s.len() >= 1,
            chain_bytes(fs1, s_cur) == crate::bytes::seq_write(
                chain_bytes(fs0, s) + crate::bytes::zeros(
                    ((s_cur.len() - s.len()) * fs1.spec_cluster_size()) as nat,
                ),
                orig.spec_offset(),
                buf.take(written),
            ),
        ensures
            chain(fs2.fat(), s_cur[0]) == Some(s_cur.push(c)),
            valid_chain(fs2, s_cur.push(c)),
            s_cur.push(c)[j + 1] == c,
            s_cur.push(c).take(s.len() as int) == s,
            chain_bytes(fs2, s_cur.push(c)) == crate::bytes::seq_write(
                chain_bytes(fs0, s) + crate::bytes::zeros(
                    ((s_cur.push(c).len() - s.len()) * fs1.spec_cluster_size()) as nat,
                ),
                orig.spec_offset(),
                buf.take(written),
            ),
        decreases 0int,
    {
        fs1.lemma_inv();
        fs2.lemma_inv();
        let cs = fs1.spec_cluster_size() as int;
        lemma_chain_bound(fs1.fat(), s_cur);
        assert(s_cur.last() == cur.spec_cluster());
        crate::fat_table::lemma_extend_grows_chain(fs1.fat(), s_cur[0], s_cur, c);
        let s2 = s_cur.push(c);
        assert(chain(fs2.fat(), s_cur[0]) == Some(s2));
        crate::fat_table::lemma_chain_rec_props(
            fs2.fat(),
            s_cur[0],
            (fs2.fat().len() + 1) as nat,
            s2,
        );
        assert(valid_chain(fs2, s2)) by {
            assert(forall|i: int| 0 <= i < s_cur.len() ==> s2[i] == s_cur[i]);
        }
        assert(s2.take(s.len() as int) =~= s_cur.take(s.len() as int));
        // the chain's bytes gain exactly one cluster of zeros at the end
        assert(forall|i: int|
            0 <= i < s_cur.len() ==> fs1.spec_valid_cluster(#[trigger] s_cur[i]));
        assert forall|i: int| 0 <= i < s_cur.len() implies (#[trigger] s_cur[i]) != c by {
            if i < s_cur.len() - 1 {
                assert(fs1.fat()[s_cur[i] as int] == ClusterValue::Next(s_cur[i + 1]));
            } else {
                assert(fs1.fat()[s_cur[i] as int] == ClusterValue::Last);
            }
        }
        lemma_chain_bytes_congruence(fs1, fs2, s_cur);
        lemma_chain_bytes_push(fs2, s_cur, c);
        lemma_chain_bytes_len(fs1, s_cur);
        lemma_chain_bytes_len(fs1, s);
        let base = chain_bytes(fs0, s) + crate::bytes::zeros(((s_cur.len() - s.len()) * cs) as nat);
        let base2 = chain_bytes(fs0, s) + crate::bytes::zeros(((s2.len() - s.len()) * cs) as nat);
        assert((s2.len() - s.len()) * cs == (s_cur.len() - s.len()) * cs + cs) by (nonlinear_arith)
            requires
                s2.len() == s_cur.len() + 1,
        ;
        assert(base.len() == s_cur.len() * cs) by {
            assert(chain_bytes(fs0, s).len() == s.len() * cs) by {
                assert forall|i: int| 0 <= i < s.len() implies fs0.spec_valid_cluster(
                    #[trigger] s[i],
                ) by {
                    assert(s[i] == s_cur.take(s.len() as int)[i]);
                    assert(fs1.spec_valid_cluster(s_cur[i]));
                }
                lemma_chain_bytes_len(fs0, s);
            }
            assert(s.len() * cs + (s_cur.len() - s.len()) * cs == s_cur.len() * cs)
                by (nonlinear_arith);
        }
        assert(orig.spec_offset() + written == s_cur.len() * cs) by {
            assert(j * cs + cs == s_cur.len() * cs) by (nonlinear_arith)
                requires
                    j == s_cur.len() - 1,
            ;
        }
        assert(base2 =~= base + crate::bytes::zeros(cs as nat));
        assert(chain_bytes(fs2, s2) =~= crate::bytes::seq_write(
            base2,
            orig.spec_offset(),
            buf.take(written),
        ));
    }
}

} // verus!
