//! Cluster chains: the allocation table read as a linked list.
//!
//! A chain starts at some cluster and follows `Next` entries until a `Last`
//! entry ends it.  `chain` computes that list of clusters from a table, when
//! it exists; the operations below allocate a chain of one cluster, extend a
//! chain by one, free a whole chain, and cut a chain after its first cluster.

use vstd::prelude::*;

use crate::ClusterValue;
use crate::Error;
use crate::FileSystem;

verus! {

/// Follows the table from `c` with bounded patience: the clusters visited,
/// ending at a `Last` entry, or `None` if the walk leaves the table, meets
/// `Free` or `Bad`, or does not end within `fuel` steps.
pub open spec fn chain_rec(fat: Seq<ClusterValue>, c: u32, fuel: nat) -> Option<Seq<u32>>
    decreases fuel,
{
    if fuel == 0 || c >= fat.len() {
        None
    } else {
        match fat[c as int] {
            ClusterValue::Last => Some(seq![c]),
            ClusterValue::Next(n) => match chain_rec(fat, n, (fuel - 1) as nat) {
                Some(s) => Some(seq![c] + s),
                None => None,
            },
            _ => None,
        }
    }
}

/// The chain that starts at `c`.  Any chain that ends at all ends within
/// one step per table entry.
pub open spec fn chain(fat: Seq<ClusterValue>, c: u32) -> Option<Seq<u32>> {
    chain_rec(fat, c, (fat.len() + 1) as nat)
}

/// Whether following the table from `c` meets a `Free` or `Bad` entry —
/// staying inside the table — before any `Last`, within `fuel` steps.
pub open spec fn walk_breaks(fat: Seq<ClusterValue>, c: u32, fuel: nat) -> bool
    decreases fuel,
{
    if fuel == 0 || c >= fat.len() {
        false
    } else {
        match fat[c as int] {
            ClusterValue::Free => true,
            ClusterValue::Bad => true,
            ClusterValue::Next(n) => walk_breaks(fat, n, (fuel - 1) as nat),
            ClusterValue::Last => false,
        }
    }
}

/// Whether `s` spells out a well-formed chain in `fat`: every step follows a
/// `Next` entry and the last cluster holds `Last`.
pub open spec fn is_chain(fat: Seq<ClusterValue>, s: Seq<u32>) -> bool {
    &&& s.len() >= 1
    &&& forall|i: int| 0 <= i < s.len() ==> (#[trigger] s[i]) < fat.len()
    &&& forall|i: int|
        0 <= i < s.len() - 1 ==> fat[#[trigger] s[i] as int] == ClusterValue::Next(s[i + 1])
    &&& fat[s.last() as int] == ClusterValue::Last
}

/// The table with every cluster of `s` marked free.
pub open spec fn free_all(fat: Seq<ClusterValue>, s: Seq<u32>) -> Seq<ClusterValue> {
    Seq::new(
        fat.len(),
        |i: int|
            if exists|k: int| 0 <= k < s.len() && s[k] == i {
                ClusterValue::Free
            } else {
                fat[i]
            },
    )
}

/// How many entries of the table are allocated (not `Free`).
pub open spec fn num_allocated(fat: Seq<ClusterValue>) -> nat
    decreases fat.len(),
{
    if fat.len() == 0 {
        0
    } else {
        num_allocated(fat.drop_last()) + (if fat.last() == ClusterValue::Free {
            0nat
        } else {
            1nat
        })
    }
}

/// No table holds more allocated entries than entries.
pub proof fn lemma_num_allocated_le(fat: Seq<ClusterValue>)
    ensures
        num_allocated(fat) <= fat.len(),
    decreases fat.len(),
{
    if fat.len() > 0 {
        lemma_num_allocated_le(fat.drop_last());
    }
}

/// Overwriting one entry moves the allocated count by the difference of the
/// two entries' contributions.
pub proof fn lemma_num_allocated_update(fat: Seq<ClusterValue>, c: int, v: ClusterValue)
    requires
        0 <= c < fat.len(),
    ensures
        num_allocated(fat.update(c, v)) == num_allocated(fat) + (if v == ClusterValue::Free {
            0int
        } else {
            1int
        }) - (if fat[c] == ClusterValue::Free {
            0int
        } else {
            1int
        }),
    decreases fat.len(),
{
    let upd = fat.update(c, v);
    if c == fat.len() - 1 {
        assert(upd.drop_last() =~= fat.drop_last());
    } else {
        assert(upd.drop_last() =~= fat.drop_last().update(c, v));
        lemma_num_allocated_update(fat.drop_last(), c, v);
    }
}

/// A chain the walk found really is the chain of the table: whatever
/// `chain_rec` returns starts at its argument, is a chain, and is no longer
/// than the fuel spent.
pub proof fn lemma_chain_rec_props(fat: Seq<ClusterValue>, c: u32, fuel: nat, s: Seq<u32>)
    requires
        chain_rec(fat, c, fuel) == Some(s),
    ensures
        is_chain(fat, s),
        s[0] == c,
        s.len() <= fuel,
    decreases fuel,
{
    match fat[c as int] {
        ClusterValue::Next(n) => {
            let tail = chain_rec(fat, n, (fuel - 1) as nat).unwrap();
            lemma_chain_rec_props(fat, n, (fuel - 1) as nat, tail);
            assert(s == seq![c] + tail);
            assert(s.last() == tail.last());
        },
        _ => {},
    }
}

/// Conversely, a sequence that spells out a chain is what the walk returns,
/// given fuel for its length.
pub proof fn lemma_chain_rec_from_links(fat: Seq<ClusterValue>, s: Seq<u32>, fuel: nat)
    requires
        is_chain(fat, s),
        s.len() <= fuel,
    ensures
        chain_rec(fat, s[0], fuel) == Some(s),
    decreases s.len(),
{
    if s.len() == 1 {
        assert(s =~= seq![s[0]]);
    } else {
        let tail = s.skip(1);
        assert(is_chain(fat, tail)) by {
            assert(forall|i: int| 0 <= i < tail.len() ==> tail[i] == s[i + 1]);
            assert(tail.last() == s.last());
        }
        lemma_chain_rec_from_links(fat, tail, (fuel - 1) as nat);
        assert(fat[s[0] as int] == ClusterValue::Next(s[1]));
        assert(tail[0] == s[1]);
        assert(s =~= seq![s[0]] + tail);
    }
}

/// Two positions of a chain never hold the same cluster: the table maps each
/// cluster to one successor, so a repeat would run the walk in a circle and
/// the chain could not end.
proof fn lemma_chain_distinct_at(fat: Seq<ClusterValue>, s: Seq<u32>, i: int, j: int)
    requires
        is_chain(fat, s),
        0 <= i < j < s.len(),
    ensures
        s[i] != s[j],
    decreases s.len() - j,
{
    if j == s.len() - 1 {
        // the earlier cluster continues the chain, the later one ends it
        assert(fat[s[i] as int] == ClusterValue::Next(s[i + 1]));
    } else {
        // equal clusters would have equal successors, against the recursion
        assert(fat[s[i] as int] == ClusterValue::Next(s[i + 1]));
        assert(fat[s[j] as int] == ClusterValue::Next(s[j + 1]));
        lemma_chain_distinct_at(fat, s, i + 1, j + 1);
    }
}

/// A chain holds no cluster twice, so it is never longer than the table.
pub proof fn lemma_chain_bound(fat: Seq<ClusterValue>, s: Seq<u32>)
    requires
        is_chain(fat, s),
    ensures
        s.no_duplicates(),
        s.len() <= fat.len(),
{
    assert forall|i: int, j: int| 0 <= i < j < s.len() implies s[i] != s[j] by {
        lemma_chain_distinct_at(fat, s, i, j);
    }
    let f = |x: u32| x as int;
    let si = s.map_values(f);
    assert(vstd::relations::injective(f)) by {
        assert(forall|x: u32, y: u32| #[trigger] f(x) == #[trigger] f(y) ==> x == y);
    }
    s.lemma_no_duplicates_injective(f);
    si.unique_seq_to_set();
    assert(si.to_set().subset_of(vstd::set_lib::set_int_range(0, fat.len() as int))) by {
        assert forall|x: int| si.to_set().contains(x) implies 0 <= x < fat.len() by {
            let k = choose|k: int| 0 <= k < si.len() && si[k] == x;
            assert(s[k] < fat.len());
        }
    }
    vstd::set_lib::lemma_int_range(0, fat.len() as int);
    vstd::set_lib::lemma_len_subset(
        si.to_set(),
        vstd::set_lib::set_int_range(0, fat.len() as int),
    );
}

/// Growing a chain: hooking a free cluster behind the last cluster of a
/// chain yields the chain one longer, ending at the new cluster, which is
/// marked `Last`.
#[verifier::rlimit(50)]
pub proof fn lemma_extend_grows_chain(fat: Seq<ClusterValue>, c: u32, s: Seq<u32>, n: u32)
    requires
        chain(fat, c) == Some(s),
        n < fat.len(),
        fat[n as int] == ClusterValue::Free,
    ensures
        chain(fat.update(n as int, ClusterValue::Last).update(s.last() as int, ClusterValue::Next(n)), c)
            == Some(s.push(n)),
        s.push(n).len() == s.len() + 1,
        fat.update(n as int, ClusterValue::Last).update(s.last() as int, ClusterValue::Next(n))[n as int]
            == ClusterValue::Last,
{
    lemma_chain_rec_props(fat, c, (fat.len() + 1) as nat, s);
    lemma_chain_bound(fat, s);
    let fat2 = fat.update(n as int, ClusterValue::Last).update(
        s.last() as int,
        ClusterValue::Next(n),
    );
    // no cluster of the chain is the free cluster `n`, and the old links
    // survive in the new table
    assert(s.last() != n);
    assert forall|i: int| 0 <= i < s.len() implies s[i] != n by {
        if i < s.len() - 1 {
            assert(fat[s[i] as int] == ClusterValue::Next(s[i + 1]));
        }
    }
    let s2 = s.push(n);
    assert(is_chain(fat2, s2)) by {
        assert(s2.last() == n);
        assert(fat2[n as int] == ClusterValue::Last);
        assert forall|i: int| 0 <= i < s2.len() - 1 implies fat2[#[trigger] s2[i] as int]
            == ClusterValue::Next(s2[i + 1]) by {
            if i < s.len() - 1 {
                assert(s2[i] == s[i] && s2[i + 1] == s[i + 1]);
                assert(s[i] != n);
                if s[i] == s.last() {
                    assert(fat[s[i] as int] == ClusterValue::Next(s[i + 1]));
                    assert(fat[s.last() as int] == ClusterValue::Last);
                    assert(false);
                }
            } else {
                assert(s2[i] == s.last() && s2[i + 1] == n);
            }
        }
    }
    assert(s2[0] == s[0]);
    lemma_chain_rec_from_links(fat2, s2, (fat2.len() + 1) as nat);
}

/// Allocates the first free cluster: scans the table from cluster 2, marks
/// the first `Free` entry `Last`, and zeroes the cluster's bytes.  When no
/// entry is free the volume is left byte-identical and `NoFreeCluster` comes
/// back.
pub fn create<F: FileSystem>(fs: &mut F) -> (r: Result<u32, Error>)
    requires
        old(fs).inv(),
    ensures
        final(fs).inv(),
        final(fs).spec_root_cluster() == old(fs).spec_root_cluster(),
        final(fs).spec_cluster_count() == old(fs).spec_cluster_count(),
        final(fs).spec_cluster_size() == old(fs).spec_cluster_size(),
        forall|d: u32| final(fs).spec_valid_cluster(d) == old(fs).spec_valid_cluster(d),
        (match r {
            Ok(c) => {
                &&& 2 <= c < old(fs).spec_cluster_count()
                &&& old(fs).fat()[c as int] == ClusterValue::Free
                &&& forall|d: u32|
                    2 <= d < c ==> (#[trigger] old(fs).fat()[d as int]) != ClusterValue::Free
                &&& old(fs).spec_valid_cluster(c)
                &&& final(fs).fat() == old(fs).fat().update(c as int, ClusterValue::Last)
                &&& final(fs).data(c as int) == crate::bytes::zeros(old(fs).spec_cluster_size())
                &&& forall|d: u32|
                    old(fs).spec_valid_cluster(d) && d != c ==> (#[trigger] final(fs).data(
                        d as int,
                    )) == old(fs).data(d as int)
            },
            Err(e) => {
                &&& (e == Error::NoFreeCluster || e == Error::DeviceIO
                    || e == Error::InvalidClusterNumber)
                &&& (e == Error::NoFreeCluster ==> final(fs).raw() == old(fs).raw() && final(fs).fat() == old(fs).fat() && forall|d: u32|
                    2 <= d < old(fs).spec_cluster_count() ==> (#[trigger] old(fs).fat()[d as int]) != ClusterValue::Free)
                &&& (e == Error::InvalidClusterNumber ==> exists|d: u32|
                    2 <= d < old(fs).spec_cluster_count() && (#[trigger] old(fs).fat()[d as int])
                        == ClusterValue::Free && !old(fs).spec_valid_cluster(d))
            },
        }),
{
    let cc = fs.cluster_count();
    let mut cluster: u32 = 2;
    while cluster < cc
        invariant
            *fs == *old(fs),
            fs.inv(),
            cc == fs.spec_cluster_count(),
            2 <= cluster,
            forall|d: u32|
                2 <= d < cluster ==> (#[trigger] fs.fat()[d as int]) != ClusterValue::Free,
        decreases cc - cluster,
    {
        let v = match fs.fat_table_get(cluster) {
            Ok(v) => v,
            Err(e) => {
                proof {
                    assert(e != Error::InvalidClusterNumber);
                }
                return Err(e);
            },
        };
        match v {
            ClusterValue::Free => {
                match fs.fat_table_set(cluster, ClusterValue::Last) {
                    Ok(()) => {},
                    Err(e) => {
                        proof {
                            assert(e != Error::InvalidClusterNumber);
                        }
                        return Err(e);
                    },
                }
                let cs = fs.cluster_size();
                let zero = crate::bytes::zero_vec(32);
                let mut offset: usize = 0;
                while offset < cs
                    invariant
                        fs.inv(),
                        fs.spec_root_cluster() == old(fs).spec_root_cluster(),
                        fs.spec_cluster_count() == old(fs).spec_cluster_count(),
                        fs.spec_cluster_size() == old(fs).spec_cluster_size(),
                        forall|d: u32|
                            fs.spec_valid_cluster(d) == old(fs).spec_valid_cluster(d),
                        cs == fs.spec_cluster_size(),
                        offset <= cs,
                        zero@ == crate::bytes::zeros(32),
                        zero@.len() == 32,
                        fs.fat() == old(fs).fat().update(cluster as int, ClusterValue::Last),
                        2 <= cluster < old(fs).spec_cluster_count(),
                        old(fs).fat()[cluster as int] == ClusterValue::Free,
                        forall|d: u32|
                            2 <= d < cluster ==> (#[trigger] old(fs).fat()[d as int])
                                != ClusterValue::Free,
                        forall|d: u32|
                            old(fs).spec_valid_cluster(d) && d != cluster ==> (
                            #[trigger] fs.data(d as int)) == old(fs).data(d as int),
                        forall|j: int| 0 <= j < offset ==> fs.data(cluster as int)[j] == 0,
                        offset > 0 ==> old(fs).spec_valid_cluster(cluster),
                    decreases cs - offset,
                {
                    let ghost before = *fs;
                    match fs.write(cluster, offset, zero.as_slice()) {
                        Err(e) => {
                            proof {
                                if e == Error::InvalidClusterNumber {
                                    // the free cluster found lies outside the
                                    // addressable range
                                    assert(2 <= cluster < old(fs).spec_cluster_count() && old(
                                        fs,
                                    ).fat()[cluster as int] == ClusterValue::Free && !old(
                                        fs,
                                    ).spec_valid_cluster(cluster));
                                }
                            }
                            return Err(e);
                        },
                        Ok(n) => {
                            proof {
                                before.lemma_inv();
                                assert(before.spec_valid_cluster(cluster));
                                assert(before.data(cluster as int).len() == cs);
                                assert(zero@.take(n as int) =~= crate::bytes::zeros(n as nat));
                                assert forall|j: int| 0 <= j < offset + n implies fs.data(
                                    cluster as int,
                                )[j] == 0 by {
                                    assert(fs.data(cluster as int) == crate::bytes::seq_write(
                                        before.data(cluster as int),
                                        offset as int,
                                        zero@.take(n as int),
                                    ));
                                    if j < offset {
                                        assert(before.data(cluster as int)[j] == 0);
                                    } else {
                                        assert(zero@.take(n as int)[j - offset] == 0);
                                    }
                                }
                            }
                            offset = offset + n;
                        },
                    }
                }
                proof {
                    fs.lemma_inv();
                    assert(fs.data(cluster as int) =~= crate::bytes::zeros(
                        old(fs).spec_cluster_size(),
                    ));
                }
                return Ok(cluster);
            },
            _ => {},
        }
        cluster = cluster + 1;
    }
    Err(Error::NoFreeCluster)
}

/// Extends a chain: allocates a fresh cluster and hooks it behind `cluster`,
/// whose entry is overwritten with `Next` of the new cluster.
pub fn extend<F: FileSystem>(fs: &mut F, cluster: u32) -> (r: Result<u32, Error>)
    requires
        old(fs).inv(),
        cluster < old(fs).spec_cluster_count(),
    ensures
        final(fs).inv(),
        final(fs).spec_root_cluster() == old(fs).spec_root_cluster(),
        final(fs).spec_cluster_count() == old(fs).spec_cluster_count(),
        final(fs).spec_cluster_size() == old(fs).spec_cluster_size(),
        forall|d: u32| final(fs).spec_valid_cluster(d) == old(fs).spec_valid_cluster(d),
        (match r {
            Ok(n) => {
                &&& 2 <= n < old(fs).spec_cluster_count()
                &&& old(fs).fat()[n as int] == ClusterValue::Free
                &&& forall|d: u32|
                    2 <= d < n ==> (#[trigger] old(fs).fat()[d as int]) != ClusterValue::Free
                &&& old(fs).spec_valid_cluster(n)
                &&& final(fs).fat() == old(fs).fat().update(n as int, ClusterValue::Last).update(
                    cluster as int,
                    ClusterValue::Next(n),
                )
                &&& final(fs).data(n as int) == crate::bytes::zeros(old(fs).spec_cluster_size())
                &&& forall|d: u32|
                    old(fs).spec_valid_cluster(d) && d != n ==> (#[trigger] final(fs).data(
                        d as int,
                    )) == old(fs).data(d as int)
            },
            Err(e) => {
                &&& (e == Error::NoFreeCluster || e == Error::DeviceIO
                    || e == Error::InvalidClusterNumber)
                &&& (e == Error::NoFreeCluster ==> final(fs).raw() == old(fs).raw() && final(fs).fat() == old(fs).fat() && forall|d: u32|
                    2 <= d < old(fs).spec_cluster_count() ==> (#[trigger] old(fs).fat()[d as int]) != ClusterValue::Free)
            },
        }),
{
    let new_cluster = match create(fs) {
        Ok(c) => c,
        Err(e) => {
            return Err(e);
        },
    };
    match fs.fat_table_set(cluster, ClusterValue::Next(new_cluster)) {
        Ok(()) => Ok(new_cluster),
        Err(e) => Err(e),
    }
}

/// Frees a whole chain: walks the table from `cluster`, marking every
/// visited entry `Free`, until a `Last` entry ends the walk.  Meeting `Free`
/// or `Bad` on the way — as a circular chain forces, once the walk comes back
/// to a cluster it freed — fails with `UnexpectedClusterValue` and leaves the
/// clusters freed so far behind.
pub fn remove<F: FileSystem>(fs: &mut F, cluster: u32) -> (r: Result<(), Error>)
    requires
        old(fs).inv(),
    ensures
        final(fs).inv(),
        final(fs).spec_root_cluster() == old(fs).spec_root_cluster(),
        final(fs).spec_cluster_count() == old(fs).spec_cluster_count(),
        final(fs).spec_cluster_size() == old(fs).spec_cluster_size(),
        forall|d: u32| final(fs).spec_valid_cluster(d) == old(fs).spec_valid_cluster(d),
        forall|d: u32|
            old(fs).spec_valid_cluster(d) ==> (#[trigger] final(fs).data(d as int)) == old(fs).data(d as int),
        (match r {
            Ok(()) => {
                &&& chain(old(fs).fat(), cluster) matches Some(s) && final(fs).fat() == free_all(
                    old(fs).fat(),
                    s,
                )
            },
            Err(e) => e == Error::UnexpectedClusterValue || e == Error::DeviceIO || e
                == Error::InvalidClusterNumber,
        }),
        (chain(old(fs).fat(), cluster) is Some ==> (r is Ok || r == Err::<(), Error>(
            Error::DeviceIO,
        ))),
        (walk_breaks(old(fs).fat(), cluster, (old(fs).fat().len() + 1) as nat) ==> (r == Err::<
            (),
            Error,
        >(Error::UnexpectedClusterValue) || r == Err::<(), Error>(Error::DeviceIO))),
{
    let ghost fat0 = old(fs).fat();
    proof {
        if chain(fat0, cluster) is Some {
            lemma_chain_rec_props(
                fat0,
                cluster,
                (fat0.len() + 1) as nat,
                chain(fat0, cluster).unwrap(),
            );
            lemma_chain_bound(fat0, chain(fat0, cluster).unwrap());
        }
    }
    let mut cur = cluster;
    let ghost mut visited: Seq<u32> = Seq::empty();
    loop
        invariant
            fs.inv(),
            fs.spec_root_cluster() == old(fs).spec_root_cluster(),
            fs.spec_cluster_count() == old(fs).spec_cluster_count(),
            fs.spec_cluster_size() == old(fs).spec_cluster_size(),
            forall|d: u32| fs.spec_valid_cluster(d) == old(fs).spec_valid_cluster(d),
            forall|d: u32|
                old(fs).spec_valid_cluster(d) ==> (#[trigger] fs.data(d as int)) == old(fs).data(
                    d as int,
                ),
            fat0 == old(fs).fat(),
            visited.len() == 0 ==> cur == cluster,
            visited.len() >= 1 ==> visited[0] == cluster,
            forall|i: int| 0 <= i < visited.len() ==> (#[trigger] visited[i]) < fat0.len(),
            forall|i: int|
                0 <= i < visited.len() - 1 ==> fat0[#[trigger] visited[i] as int]
                    == ClusterValue::Next(visited[i + 1]),
            visited.len() >= 1 ==> fat0[visited.last() as int] == ClusterValue::Next(cur),
            fs.fat() == free_all(fat0, visited),
            visited.len() + num_allocated(fs.fat()) == num_allocated(fat0),
            (chain(fat0, cluster) matches Some(s0) ==> {
                &&& is_chain(fat0, s0)
                &&& s0.no_duplicates()
                &&& s0[0] == cluster
                &&& visited.len() < s0.len()
                &&& visited == s0.take(visited.len() as int)
                &&& cur == s0[visited.len() as int]
            }),
            walk_breaks(fat0, cluster, (fat0.len() + 1) as nat) ==> visited.len() <= fat0.len()
                && walk_breaks(fat0, cur, (fat0.len() + 1 - visited.len()) as nat),
        decreases num_allocated(fs.fat()),
    {
        proof {
            fs.lemma_inv();
            lemma_num_allocated_le(fat0);
        }
        let v = match fs.fat_table_get(cur) {
            Ok(v) => v,
            Err(e) => {
                proof {
                    // a cluster of a well-formed chain, or of a walk still
                    // under way, lies inside the table
                    if chain(fat0, cluster) is Some {
                        assert(e == Error::DeviceIO);
                    }
                    if walk_breaks(fat0, cluster, (fat0.len() + 1) as nat) {
                        assert(cur < fat0.len());
                        assert(e == Error::DeviceIO);
                    }
                }
                return Err(e);
            },
        };
        proof {
            // the walk has not been here before, so the entry still holds its
            // starting value
            if v != ClusterValue::Free {
                assert(fat0[cur as int] == v);
                assert(forall|k: int| 0 <= k < visited.len() ==> visited[k] != cur);
            }
        }
        match v {
            ClusterValue::Next(next_cluster) => {
                let ghost before = fs.fat();
                match fs.fat_table_set(cur, ClusterValue::Free) {
                    Ok(()) => {},
                    Err(e) => {
                        proof {
                            assert(e == Error::DeviceIO);
                        }
                        return Err(e);
                    },
                }
                proof {
                    if chain(fat0, cluster) is Some {
                        // the walk stays on the chain: this entry continues it
                        let s0 = chain(fat0, cluster).unwrap();
                        let k = visited.len() as int;
                        if k == s0.len() - 1 {
                            assert(fat0[s0[k] as int] == ClusterValue::Last);
                            assert(false);
                        }
                        assert(fat0[s0[k] as int] == ClusterValue::Next(s0[k + 1]));
                        assert(next_cluster == s0[k + 1]);
                        assert(visited.push(cur) =~= s0.take(k + 1));
                    }
                    if walk_breaks(fat0, cluster, (fat0.len() + 1) as nat) {
                        // a breaking walk keeps breaking one step on
                        assert(fat0[cur as int] == ClusterValue::Next(next_cluster));
                        assert(walk_breaks(
                            fat0,
                            next_cluster,
                            (fat0.len() + 1 - visited.len() - 1) as nat,
                        ));
                    }
                    lemma_num_allocated_update(before, cur as int, ClusterValue::Free);
                    let vp = visited.push(cur);
                    assert(fs.fat() =~= free_all(fat0, vp)) by {
                        assert forall|i: int| 0 <= i < fat0.len() implies free_all(fat0, visited)
                            .update(cur as int, ClusterValue::Free)[i] == free_all(fat0, vp)[i] by {
                            if i != cur as int {
                                if exists|k: int| 0 <= k < visited.len() && visited[k] == i {
                                    let k = choose|k: int|
                                        0 <= k < visited.len() && visited[k] == i;
                                    assert(vp[k] == i);
                                } else if exists|k: int| 0 <= k < vp.len() && vp[k] == i {
                                    let k = choose|k: int| 0 <= k < vp.len() && vp[k] == i;
                                    assert(k < visited.len());
                                    assert(visited[k] == i);
                                }
                            } else {
                                assert(vp[vp.len() - 1] == cur);
                            }
                        }
                    }
                    visited = vp;
                }
                cur = next_cluster;
            },
            ClusterValue::Last => {
                let ghost before = fs.fat();
                match fs.fat_table_set(cur, ClusterValue::Free) {
                    Ok(()) => {},
                    Err(e) => {
                        proof {
                            assert(e == Error::DeviceIO);
                        }
                        return Err(e);
                    },
                }
                proof {
                    if walk_breaks(fat0, cluster, (fat0.len() + 1) as nat) {
                        // a breaking walk never reaches a Last entry
                        assert(fat0[cur as int] == ClusterValue::Last);
                        assert(false);
                    }
                    let s = visited.push(cur);
                    assert(is_chain(fat0, s)) by {
                        assert(s.last() == cur);
                        assert(forall|i: int| 0 <= i < visited.len() ==> s[i] == visited[i]);
                    }
                    lemma_chain_bound(fat0, s);
                    lemma_chain_rec_from_links(fat0, s, (fat0.len() + 1) as nat);
                    assert(s[0] == cluster);
                    assert(fs.fat() =~= free_all(fat0, s)) by {
                        assert forall|i: int| 0 <= i < fat0.len() implies free_all(fat0, visited)
                            .update(cur as int, ClusterValue::Free)[i] == free_all(fat0, s)[i] by {
                            if i != cur as int {
                                if exists|k: int| 0 <= k < visited.len() && visited[k] == i {
                                    let k = choose|k: int|
                                        0 <= k < visited.len() && visited[k] == i;
                                    assert(s[k] == i);
                                } else if exists|k: int| 0 <= k < s.len() && s[k] == i {
                                    let k = choose|k: int| 0 <= k < s.len() && s[k] == i;
                                    assert(k < visited.len());
                                    assert(visited[k] == i);
                                }
                            } else {
                                assert(s[s.len() - 1] == cur);
                            }
                        }
                    }
                }
                return Ok(());
            },
            _ => {
                proof {
                    // a well-formed chain holds no Free or Bad entry, and the
                    // walk never revisits a cluster it freed
                    if chain(fat0, cluster) is Some {
                        let s0 = chain(fat0, cluster).unwrap();
                        let k = visited.len() as int;
                        assert(!visited.contains(cur)) by {
                            if visited.contains(cur) {
                                let i = choose|i: int|
                                    0 <= i < visited.len() && visited[i] == cur;
                                assert(s0.take(k)[i] == s0[i]);
                                assert(s0[i] == s0[k]);
                            }
                        }
                        assert(fs.fat()[cur as int] == fat0[cur as int]) by {
                            if exists|i: int| 0 <= i < visited.len() && visited[i] == cur {
                                let i = choose|i: int|
                                    0 <= i < visited.len() && visited[i] == cur;
                                assert(visited.contains(cur));
                            }
                        }
                        if k == s0.len() - 1 {
                            assert(fat0[s0[k] as int] == ClusterValue::Last);
                        } else {
                            assert(fat0[s0[k] as int] == ClusterValue::Next(s0[k + 1]));
                        }
                        assert(false);
                    }
                }
                return Err(Error::UnexpectedClusterValue);
            },
        }
    }
}

/// Cuts a chain after its first cluster: `cluster` keeps its place and is
/// marked `Last`, and the rest of the chain is freed.  A chain that already
/// ends at `cluster` is left untouched.
#[verifier::rlimit(60)]
pub fn truncate<F: FileSystem>(fs: &mut F, cluster: u32) -> (r: Result<(), Error>)
    requires
        old(fs).inv(),
    ensures
        final(fs).inv(),
        final(fs).spec_root_cluster() == old(fs).spec_root_cluster(),
        final(fs).spec_cluster_count() == old(fs).spec_cluster_count(),
        final(fs).spec_cluster_size() == old(fs).spec_cluster_size(),
        forall|d: u32| final(fs).spec_valid_cluster(d) == old(fs).spec_valid_cluster(d),
        forall|d: u32|
            old(fs).spec_valid_cluster(d) ==> (#[trigger] final(fs).data(d as int)) == old(fs).data(d as int),
        (match r {
            Ok(()) => (chain(old(fs).fat(), cluster) matches Some(s) ==> final(fs).fat()
                == free_all(old(fs).fat(), s).update(cluster as int, ClusterValue::Last)),
            Err(e) => e == Error::UnexpectedClusterValue || e == Error::DeviceIO || e
                == Error::InvalidClusterNumber,
        }),
        (chain(old(fs).fat(), cluster) is Some ==> (r is Ok || r == Err::<(), Error>(
            Error::DeviceIO,
        ))),
{
    let ghost fat0 = old(fs).fat();
    proof {
        fs.lemma_inv();
        if chain(fat0, cluster) is Some {
            lemma_chain_rec_props(
                fat0,
                cluster,
                (fat0.len() + 1) as nat,
                chain(fat0, cluster).unwrap(),
            );
        }
    }
    let v = match fs.fat_table_get(cluster) {
        Ok(v) => v,
        Err(e) => {
            proof {
                if chain(fat0, cluster) is Some {
                    assert(e == Error::DeviceIO);
                }
            }
            return Err(e);
        },
    };
    proof {
        // an entry holding a value came back, so the head of a well-formed
        // chain shows its own entry
        if chain(fat0, cluster) is Some {
            assert(fat0[cluster as int] == v);
        }
    }
    match v {
        ClusterValue::Last => {
            proof {
                if chain(fat0, cluster) is Some {
                    let s = chain(fat0, cluster).unwrap();
                    assert(s =~= seq![cluster]);
                    assert(fs.fat() =~= free_all(fat0, s).update(
                        cluster as int,
                        ClusterValue::Last,
                    ));
                }
            }
            Ok(())
        },
        ClusterValue::Next(n0) => {
            match fs.fat_table_set(cluster, ClusterValue::Last) {
                Ok(()) => {},
                Err(e) => {
                    proof {
                        assert(e == Error::DeviceIO);
                    }
                    return Err(e);
                },
            }
            let ghost fat1 = fs.fat();
            let ghost mid = *fs;
            proof {
                // the rest of the chain is untouched by the first cluster's
                // new `Last` mark, so it is the chain of the second cluster
                if chain(fat0, cluster) is Some {
                    let s = chain(fat0, cluster).unwrap();
                    let tail = chain_rec(fat0, n0, fat0.len() as nat).unwrap();
                    lemma_chain_rec_props(fat0, n0, fat0.len() as nat, tail);
                    lemma_chain_bound(fat0, s);
                    assert(s == seq![cluster] + tail);
                    assert(forall|i: int| 0 <= i < tail.len() ==> tail[i] == s[i + 1]);
                    assert forall|i: int| 0 <= i < tail.len() implies (#[trigger] tail[i])
                        != cluster by {
                        assert(s[0] == cluster);
                        assert(s[i + 1] == tail[i]);
                    }
                    assert(is_chain(fat1, tail)) by {
                        assert(fat1 == fat0.update(cluster as int, ClusterValue::Last));
                        assert(tail.last() == s.last());
                        assert forall|i: int| 0 <= i < tail.len() - 1 implies fat1[#[trigger] tail[i] as int] == ClusterValue::Next(tail[i + 1]) by {
                            assert(fat0[tail[i] as int] == ClusterValue::Next(tail[i + 1]));
                        }
                    }
                    lemma_chain_rec_from_links(fat1, tail, (fat1.len() + 1) as nat);
                    assert(chain(fat1, n0) == Some(tail));
                }
            }
            let r = remove(fs, n0);
            proof {
                if r is Ok && chain(fat0, cluster) is Some {
                    let s = chain(fat0, cluster).unwrap();
                    let tail = chain_rec(fat0, n0, fat0.len() as nat).unwrap();
                    lemma_chain_bound(fat0, s);
                    assert(forall|i: int| 0 <= i < tail.len() ==> tail[i] == s[i + 1]);
                    assert(forall|i: int|
                        0 <= i < tail.len() ==> (#[trigger] tail[i]) != cluster);
                    let s2 = choose|s2: Seq<u32>| chain(fat1, n0) == Some(s2) && fs.fat()
                        == free_all(fat1, s2);
                    assert(s2 == tail);
                    assert(fs.fat() =~= free_all(fat0, s).update(
                        cluster as int,
                        ClusterValue::Last,
                    )) by {
                        assert forall|i: int| 0 <= i < fat0.len() implies free_all(fat1, tail)[i]
                            == free_all(fat0, s).update(cluster as int, ClusterValue::Last)[i] by {
                            if i == cluster as int {
                                assert(forall|k: int|
                                    0 <= k < tail.len() ==> (#[trigger] tail[k]) != cluster);
                            } else {
                                if exists|k: int| 0 <= k < tail.len() && tail[k] == i {
                                    let k = choose|k: int| 0 <= k < tail.len() && tail[k] == i;
                                    assert(s[k + 1] == i);
                                } else if exists|k: int| 0 <= k < s.len() && s[k] == i {
                                    let k = choose|k: int| 0 <= k < s.len() && s[k] == i;
                                    assert(k >= 1);
                                    assert(tail[k - 1] == i);
                                }
                            }
                        }
                    }
                }
            }
            r
        },
        _ => {
            proof {
                // the head of a well-formed chain is never Free or Bad
                if chain(fat0, cluster) is Some {
                    let s0 = chain(fat0, cluster).unwrap();
                    if s0.len() == 1 {
                        assert(fat0[s0[0] as int] == ClusterValue::Last);
                    } else {
                        assert(fat0[s0[0] as int] == ClusterValue::Next(s0[1]));
                    }
                    assert(false);
                }
            }
            Err(Error::UnexpectedClusterValue)
        },
    }
}

} // verus!
