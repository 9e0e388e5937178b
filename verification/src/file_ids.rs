//! Numbers for files.
use crate::ordered::OrderedMap;
use vstd::prelude::*;

verus! {

pub const MAX_ANALYZED_FILE_ID: u32 = 0x007F_FFFF;

/// The numbers given so far: all below `next`.
#[derive(Debug)]
pub struct SharedFileIds {
    pub next: u32,
}

impl SharedFileIds {
    /// How many numbers are left.
    pub open spec fn left(self) -> int {
        MAX_ANALYZED_FILE_ID + 1 - self.next
    }

    pub fn new() -> (r: Self)
        ensures
            r.next == 0,
    {
        SharedFileIds { next: 0 }
    }

    /// A number that was not given before.
    pub fn allocate(&mut self) -> (r: u32)
        requires
            old(self).left() > 0,
        ensures
            r == old(self).next,
            final(self).next == old(self).next + 1,
    {
        let id: u32 = self.next;
        self.next = id + 1;
        id
    }
}

/// The numbers of the files on disk, by canonical path.
pub struct SharedBaseFileIds {
    pub ids: OrderedMap<String, u32>,
}

pub open spec fn distinct_below(m: Map<Seq<char>, u32>, next: u32) -> bool {
    &&& forall|k: Seq<char>| #[trigger] m.contains_key(k) ==> m[k] < next
    &&& forall|j: Seq<char>, k: Seq<char>|
        #[trigger] m.contains_key(j) && #[trigger] m.contains_key(k) && m[j] == m[k] ==> j == k
}

impl SharedBaseFileIds {
    pub fn new() -> (r: Self)
        ensures
            r.ids@ == Map::<Seq<char>, u32>::empty(),
    {
        SharedBaseFileIds { ids: OrderedMap::new() }
    }

    /// The number of a path, a new one if it has none.
    pub fn resolve(&mut self, key: &String, ids: &mut SharedFileIds) -> (r: u32)
        requires
            old(self).ids@.contains_key(key@) || old(ids).left() > 0,
        ensures
            old(self).ids@.contains_key(key@) ==> {
                &&& r == old(self).ids@[key@]
                &&& final(self).ids@ == old(self).ids@
                &&& *final(ids) == *old(ids)
            },
            !old(self).ids@.contains_key(key@) ==> r == old(ids).next && final(self).ids@ == old(self).ids@.insert(key@, r)
                && final(ids).next == old(ids).next + 1,
            distinct_below(old(self).ids@, old(ids).next) ==> distinct_below(final(self).ids@, final(ids).next),
    {
        match self.ids.get(key) {
            Some(id) => {
                return *id;
            },
            None => {},
        }
        let id = ids.allocate();
        self.ids.insert(key.clone(), id);
        proof {
            let (m, n) = (old(self).ids@, self.ids@);
            if distinct_below(m, old(ids).next) {
                assert forall|k: Seq<char>| #[trigger] n.contains_key(k) implies n[k] < ids.next by {
                    if k != key@ {
                        assert(m.contains_key(k));
                    }
                }
                assert forall|j: Seq<char>, k: Seq<char>|
                    #[trigger] n.contains_key(j) && #[trigger] n.contains_key(k) && n[j] == n[k] implies j == k by {
                    if j != key@ {
                        assert(m.contains_key(j));
                    }
                    if k != key@ {
                        assert(m.contains_key(k));
                    }
                }
            }
        }
        id
    }
}

/// Two files never share a number: the numbers of different paths differ, and a number once given
/// to a path stays its own.
pub proof fn law_file_numbers_are_unique(m: Map<Seq<char>, u32>, next: u32, a: Seq<char>, b: Seq<char>)
    requires
        distinct_below(m, next),
        next < u32::MAX,
        m.contains_key(a),
        !m.contains_key(b),
    ensures
        m.insert(b, next)[a] == m[a],
        m.insert(b, next)[a] != m.insert(b, next)[b],
        distinct_below(m.insert(b, next), (next + 1) as u32),
{
    let n = m.insert(b, next);
    assert forall|k: Seq<char>| #[trigger] n.contains_key(k) implies n[k] < next + 1 by {
        if k != b {
            assert(m.contains_key(k));
        }
    }
    assert forall|j: Seq<char>, k: Seq<char>|
        #[trigger] n.contains_key(j) && #[trigger] n.contains_key(k) && n[j] == n[k] implies j == k by {
        if j != b {
            assert(m.contains_key(j));
        }
        if k != b {
            assert(m.contains_key(k));
        }
    }
}

} // verus!
