//! Participant pools: the two disjoint name sets, each mapping a name to a
//! global participant index.
//!
//! Global indices run over both pools: Pool A holds `offset == 0` and Pool B
//! `offset == |Pool A|`, so row `g` of the adjacency table belongs to the
//! participant that some pool stores at position `g - offset`.

use vstd::prelude::*;

verus! {

/// Position of the first occurrence of `name` in `names`, if any.
pub open spec fn first_index_of(names: Seq<Seq<char>>, name: Seq<char>) -> Option<int>
    decreases names.len(),
{
    if names.len() == 0 {
        None
    } else if names[0] == name {
        Some(0int)
    } else {
        match first_index_of(names.drop_first(), name) {
            None => None,
            Some(i) => Some(i + 1),
        }
    }
}

/// The first occurrence is an occurrence, everything before it differs, and
/// a `None` lookup means no position matches.
pub proof fn lemma_first_index_of_props(names: Seq<Seq<char>>, name: Seq<char>)
    ensures
        match first_index_of(names, name) {
            None => forall|j: int| 0 <= j < names.len() ==> names[j] != name,
            Some(i) => 0 <= i < names.len() && names[i] == name && (forall|j: int|
                0 <= j < i ==> names[j] != name),
        },
    decreases names.len(),
{
    if names.len() > 0 && names[0] != name {
        let tail = names.drop_first();
        lemma_first_index_of_props(tail, name);
        match first_index_of(tail, name) {
            None => {
                assert forall|j: int| 0 <= j < names.len() implies names[j] != name by {
                    if j > 0 {
                        assert(tail[j - 1] == names[j]);
                        assert(tail[j - 1] != name);
                    }
                }
            },
            Some(i) => {
                assert(tail[i] == names[i + 1]);
                assert forall|j: int| 0 <= j < i + 1 implies names[j] != name by {
                    if j > 0 {
                        assert(tail[j - 1] == names[j]);
                        assert(tail[j - 1] != name);
                    }
                }
            },
        }
    }
}

/// A scan that saw no match up to `i` pins the first occurrence down: at `i`
/// if `i` matches, nowhere if the scan ran off the end.
pub proof fn lemma_first_index_of_scan(names: Seq<Seq<char>>, name: Seq<char>, i: int)
    requires
        0 <= i <= names.len(),
        forall|j: int| 0 <= j < i ==> names[j] != name,
    ensures
        i < names.len() && names[i] == name ==> first_index_of(names, name) == Some(i),
        i == names.len() ==> first_index_of(names, name) is None,
    decreases i,
{
    let tail = names.drop_first();
    if i > 0 {
        assert(names[0] != name);
        assert(forall|j: int| 0 <= j < tail.len() ==> #[trigger] tail[j] == names[j + 1]);
        lemma_first_index_of_scan(tail, name, i - 1);
        if i < names.len() && names[i] == name {
            assert(tail[i - 1] == name);
            assert(first_index_of(tail, name) == Some(i - 1));
        }
    }
}

/// The two pools share no name: an event member belongs to at most one side.
pub open spec fn pools_disjoint(pa: Pool, pb: Pool) -> bool {
    forall|i: int, j: int|
        0 <= i < pa.view_names().len() && 0 <= j < pb.view_names().len()
            ==> pa.view_names()[i] != pb.view_names()[j]
}

/// One pool of participants.  Position `i` of `names` carries global index
/// `offset + i`.
pub struct Pool {
    pub names: Vec<String>,
    pub offset: usize,
}

impl Pool {
    /// The names of the pool as character sequences.
    pub open spec fn view_names(self) -> Seq<Seq<char>> {
        Seq::new(self.names@.len(), |i: int| self.names@[i]@)
    }

    /// Global indices must stay within `usize`.
    pub open spec fn wf(self) -> bool {
        self.offset + self.names@.len() <= usize::MAX
    }

    /// No name occurs twice in the pool: the name-to-index map is injective.
    pub open spec fn distinct(self) -> bool {
        forall|i: int, j: int|
            0 <= i < j < self.view_names().len() ==> self.view_names()[i] != self.view_names()[j]
    }

    /// Global index this pool gives `name`: the position of its first
    /// occurrence, shifted by the pool's offset; `None` for a stranger.
    pub open spec fn spec_lookup(self, name: Seq<char>) -> Option<int> {
        match first_index_of(self.view_names(), name) {
            None => None,
            Some(i) => Some(self.offset + i),
        }
    }

    pub fn new(names: Vec<String>, offset: usize) -> (p: Pool)
        requires
            offset + names@.len() <= usize::MAX,
        ensures
            p.wf(),
            p.names == names,
            p.offset == offset,
    {
        Pool { names, offset }
    }

    pub fn len(&self) -> (n: usize)
        ensures
            n == self.names@.len(),
    {
        self.names.len()
    }

    /// Look a name up; `Some(g)` is the global index of the first pool
    /// member spelled exactly `name`, `None` says the pool does not know it.
    pub fn index_of(&self, name: &String) -> (r: Option<usize>)
        requires
            self.wf(),
        ensures
            match r {
                None => self.spec_lookup(name@) is None,
                Some(g) => self.spec_lookup(name@) == Some(g as int),
            },
    {
        let mut i: usize = 0;
        while i < self.names.len()
            invariant
                i <= self.names@.len(),
                self.wf(),
                forall|j: int| 0 <= j < i ==> self.view_names()[j] != name@,
            decreases self.names@.len() - i,
        {
            if self.names[i] == *name {
                proof {
                    assert(self.view_names()[i as int] == name@);
                    lemma_first_index_of_scan(self.view_names(), name@, i as int);
                }
                return Some(self.offset + i);
            }
            proof {
                assert(self.view_names()[i as int] != name@);
            }
            i += 1;
        }
        proof {
            lemma_first_index_of_scan(self.view_names(), name@, i as int);
        }
        None
    }

    /// The name stored under global index `g`; the compute half of emitting
    /// a chosen move.
    pub fn name_of(&self, g: usize) -> (r: &String)
        requires
            self.offset <= g < self.offset + self.names@.len(),
        ensures
            r@ == self.view_names()[g - self.offset],
    {
        &self.names[g - self.offset]
    }
}

} // verus!
