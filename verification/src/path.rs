//! Path strings: a run of directory components separated by slashes or
//! backslashes, ending in the name the path means.

use vstd::prelude::*;

use crate::Error;

verus! {

/// Whether a byte separates path components.
pub open spec fn spec_is_sep(b: u8) -> bool {
    b == 0x2F || b == 0x5C
}

/// The position right after the last separator: where the final name starts.
pub open spec fn spec_name_start(p: Seq<u8>) -> int
    decreases p.len(),
{
    if p.len() == 0 {
        0
    } else if spec_is_sep(p.last()) {
        p.len() as int
    } else {
        spec_name_start(p.drop_last())
    }
}

/// The first separator at or after `from`, or the end of `p`.
pub open spec fn spec_next_sep(p: Seq<u8>, from: int) -> int
    decreases p.len() - from,
{
    if from < 0 || from >= p.len() {
        p.len() as int
    } else if spec_is_sep(p[from]) {
        from
    } else {
        spec_next_sep(p, from + 1)
    }
}

/// A parsed path: the byte string, where its final name starts, and how far
/// the walk over its directory components has come.
pub struct Path<'a> {
    path: &'a [u8],
    name_index: usize,
    path_index: usize,
}

impl<'a> Path<'a> {
    /// The whole byte string.
    pub closed spec fn spec_path(&self) -> Seq<u8> {
        self.path@
    }

    /// Where the final name starts.
    pub closed spec fn spec_name_index(&self) -> int {
        self.name_index as int
    }

    /// Where the walk stands.
    pub closed spec fn spec_path_index(&self) -> int {
        self.path_index as int
    }

    /// The walk stays between the start and the final name.
    pub closed spec fn wf(&self) -> bool {
        &&& self.name_index == spec_name_start(self.path@)
        &&& 0 <= self.path_index <= self.name_index <= self.path@.len()
    }

    /// Parses a path: finds where the final name starts.
    pub fn new(path: &'a [u8]) -> (r: Result<Path<'a>, Error>)
        ensures
            (match r {
                Ok(p) => {
                    &&& p.wf()
                    &&& p.spec_path() == path@
                    &&& p.spec_path_index() == 0
                    &&& p.spec_name_index() == spec_name_start(path@)
                },
                Err(_) => false,
            }),
    {
        let mut i: usize = path.len();
        proof {
            assert(path@.take(path@.len() as int) =~= path@);
        }
        let mut name_index: usize = 0;
        let mut found = false;
        while i > 0 && !found
            invariant
                i <= path@.len(),
                !found ==> spec_name_start(path@) == spec_name_start(path@.take(i as int)),
                !found ==> name_index == 0,
                found ==> name_index == spec_name_start(path@),
                found ==> name_index <= path@.len(),
            decreases i + (if found {
                0int
            } else {
                1int
            }),
        {
            proof {
                assert(path@.take(i as int).drop_last() =~= path@.take(i as int - 1));
                assert(path@.take(i as int).last() == path@[i - 1]);
            }
            if path[i - 1] == 0x2F || path[i - 1] == 0x5C {
                name_index = i;
                found = true;
            } else {
                i = i - 1;
            }
        }
        proof {
            if !found {
                assert(i == 0);
                assert(path@.take(0) =~= Seq::<u8>::empty());
                assert(spec_name_start(Seq::<u8>::empty()) == 0);
                assert(name_index == 0);
            }
            lemma_name_start_in_range(path@);
            assert(name_index == spec_name_start(path@));
        }
        Ok(Path { path, name_index, path_index: 0 })
    }

    /// The final name: everything after the last separator.
    pub fn name(&self) -> (r: &'a [u8])
        requires
            self.wf(),
        ensures
            r@ == self.spec_path().skip(spec_name_start(self.spec_path())),
    {
        let r = vstd::slice::slice_subrange(self.path, self.name_index, self.path.len());
        proof {
            assert(r@ =~= self.spec_path().skip(spec_name_start(self.spec_path())));
        }
        r
    }

    /// The next directory component, or nothing once the walk reaches the
    /// final name.  A component runs from the walk's position to the next
    /// separator.
    pub fn next(&mut self) -> (r: Option<&'a [u8]>)
        requires
            old(self).wf(),
        ensures
            final(self).wf(),
            final(self).spec_path() == old(self).spec_path(),
            final(self).spec_name_index() == old(self).spec_name_index(),
            (match r {
                Some(c) => {
                    let sep = spec_next_sep(old(self).spec_path(), old(self).spec_path_index());
                    &&& old(self).spec_path_index() <= sep < old(self).spec_name_index()
                    &&& c@ == old(self).spec_path().subrange(old(self).spec_path_index(), sep)
                    &&& final(self).spec_path_index() == sep + 1
                },
                None => {
                    &&& spec_next_sep(old(self).spec_path(), old(self).spec_path_index())
                        >= old(self).spec_name_index()
                    &&& *final(self) == *old(self)
                },
            }),
    {
        let mut i: usize = self.path_index;
        while i < self.name_index && !(self.path[i] == 0x2F || self.path[i] == 0x5C)
            invariant
                self.wf(),
                old(self).wf(),
                *self == *old(self),
                self.path_index <= i <= self.name_index,
                spec_next_sep(self.path@, self.spec_path_index()) == spec_next_sep(
                    self.path@,
                    i as int,
                ),
            decreases self.name_index - i,
        {
            i = i + 1;
        }
        if i < self.name_index {
            let c = vstd::slice::slice_subrange(self.path, self.path_index, i);
            proof {
                assert(spec_next_sep(self.path@, i as int) == i);
            }
            self.path_index = i + 1;
            Some(c)
        } else {
            proof {
                // between the walk and the name every byte was plain, and
                // the byte at the name's start is no separator unless the
                // name region itself begins past one
                lemma_next_sep_at_least(self.path@, i as int);
            }
            None
        }
    }
}

/// The name start lies inside the path, right after a separator.
pub proof fn lemma_name_start_in_range(p: Seq<u8>)
    ensures
        0 <= spec_name_start(p) <= p.len(),
    decreases p.len(),
{
    if p.len() > 0 && !spec_is_sep(p.last()) {
        lemma_name_start_in_range(p.drop_last());
    }
}

/// The first separator at or after a position never lies before it.
pub proof fn lemma_next_sep_at_least(p: Seq<u8>, at: int)
    requires
        0 <= at <= p.len(),
    ensures
        spec_next_sep(p, at) >= at,
    decreases p.len() - at,
{
    if at < p.len() && !spec_is_sep(p[at]) {
        lemma_next_sep_at_least(p, at + 1);
    }
}

} // verus!
