//! Weighted adjacency table between the two pools.
//!
//! Participants carry global indices: Pool A occupies `0 .. a_len`, Pool B
//! occupies `a_len .. a_len + b_len`.  Row `u` of the table lists, for each
//! opposite-pool partner that shares at least one event with `u`, the number
//! of distinct events the pair shares.

use vstd::prelude::*;

verus! {

/// One entry of an adjacency row: a partner drawn from the opposite pool and
/// the number of distinct events the pair shares.
#[derive(Clone, Copy)]
pub struct Vertex {
    pub partner: usize,
    pub weight: u64,
}

/// Weight a row records for partner `p`: the weight of the first entry naming
/// `p`, and 0 when no entry does.
pub open spec fn row_weight(row: Seq<Vertex>, p: int) -> int
    decreases row.len(),
{
    if row.len() == 0 {
        0
    } else if row[0].partner == p {
        row[0].weight as int
    } else {
        row_weight(row.drop_first(), p)
    }
}

/// Whether some entry of the row names partner `p`.
pub open spec fn row_has(row: Seq<Vertex>, p: int) -> bool {
    exists|i: int| 0 <= i < row.len() && row[i].partner == p
}

/// A well-formed row names each partner at most once, never with weight 0,
/// so `row_weight` is the weight of the unique entry for its partner.
pub open spec fn wf_row(row: Seq<Vertex>) -> bool {
    &&& forall|i: int, j: int|
        0 <= i < j < row.len() ==> (#[trigger] row[i]).partner != (#[trigger] row[j]).partner
    &&& forall|i: int| 0 <= i < row.len() ==> (#[trigger] row[i]).weight >= 1
}

pub proof fn lemma_row_has_drop_first(row: Seq<Vertex>, p: int)
    requires
        row.len() > 0,
        !row_has(row, p),
    ensures
        !row_has(row.drop_first(), p),
{
    if row_has(row.drop_first(), p) {
        let i = choose|i: int| 0 <= i < row.drop_first().len() && row.drop_first()[i].partner == p;
        assert(row[i + 1].partner == p);
    }
}

/// A row without an entry for `p` records weight 0 for `p`.
pub proof fn lemma_row_weight_absent(row: Seq<Vertex>, p: int)
    requires
        !row_has(row, p),
    ensures
        row_weight(row, p) == 0,
    decreases row.len(),
{
    if row.len() > 0 {
        assert(row[0].partner != p);
        lemma_row_has_drop_first(row, p);
        lemma_row_weight_absent(row.drop_first(), p);
    }
}

/// The weight recorded for the partner of the first entry naming it.
pub proof fn lemma_row_weight_at(row: Seq<Vertex>, i: int)
    requires
        0 <= i < row.len(),
        forall|j: int| 0 <= j < i ==> (#[trigger] row[j]).partner != row[i].partner,
    ensures
        row_weight(row, row[i].partner as int) == row[i].weight as int,
    decreases i,
{
    if i > 0 {
        assert(row[0].partner != row[i].partner);
        let tail = row.drop_first();
        assert(tail[i - 1] == row[i]);
        assert(forall|j: int| 0 <= j < i - 1 ==> (#[trigger] tail[j]).partner != tail[i - 1].partner);
        lemma_row_weight_at(tail, i - 1);
    }
}

/// Appending an entry for a fresh partner leaves every other weight alone and
/// records the new entry's weight for its partner.
pub proof fn lemma_row_weight_push(row: Seq<Vertex>, v: Vertex, q: int)
    ensures
        q != v.partner ==> row_weight(row.push(v), q) == row_weight(row, q),
        !row_has(row, v.partner as int) && q == v.partner ==> row_weight(row.push(v), q)
            == v.weight as int,
    decreases row.len(),
{
    if row.len() == 0 {
        assert(row.push(v)[0] == v);
        assert(row.push(v).drop_first() =~= row);
        assert(row_weight(row, q) == 0);
        if q != v.partner {
            assert(row_weight(row.push(v), q) == row_weight(row.push(v).drop_first(), q));
        }
    } else {
        assert(row.push(v)[0] == row[0]);
        assert(row.push(v).drop_first() =~= row.drop_first().push(v));
        if !row_has(row, v.partner as int) {
            assert(row[0].partner != v.partner);
            lemma_row_has_drop_first(row, v.partner as int);
        }
        lemma_row_weight_push(row.drop_first(), v, q);
    }
}

/// Rewriting the weight of the first entry for a partner moves `row_weight`
/// for that partner to the new value and leaves every other partner alone.
pub proof fn lemma_row_weight_update(row: Seq<Vertex>, i: int, w2: u64, q: int)
    requires
        0 <= i < row.len(),
        forall|j: int| 0 <= j < i ==> (#[trigger] row[j]).partner != row[i].partner,
    ensures
        row_weight(row.update(i, Vertex { partner: row[i].partner, weight: w2 }), row[i].partner as int)
            == w2 as int,
        q != row[i].partner ==> row_weight(
            row.update(i, Vertex { partner: row[i].partner, weight: w2 }),
            q,
        ) == row_weight(row, q),
    decreases i,
{
    let p = row[i].partner;
    let row2 = row.update(i, Vertex { partner: p, weight: w2 });
    if i == 0 {
        assert(row2[0].partner == p);
        assert(row2.drop_first() =~= row.drop_first());
    } else {
        assert(row[0].partner != p);
        assert(row2[0] == row[0]);
        let tail = row.drop_first();
        assert(tail[i - 1] == row[i]);
        assert(row2.drop_first() =~= tail.update(i - 1, Vertex { partner: p, weight: w2 }));
        assert(forall|j: int| 0 <= j < i - 1 ==> (#[trigger] tail[j]).partner != tail[i - 1].partner);
        lemma_row_weight_update(tail, i - 1, w2, q);
    }
}

/// The weighted adjacency table: row `u` lists the opposite-pool partners of
/// participant `u` with the count of events they share.
pub struct LookupTable {
    pub table: Vec<Vec<Vertex>>,
}

impl LookupTable {
    /// The rows of the table as a sequence of sequences of entries.
    pub open spec fn rows(self) -> Seq<Seq<Vertex>> {
        Seq::new(self.table@.len(), |u: int| self.table@[u]@)
    }

    /// Co-occurrence weight the table records for the ordered pair `(u, p)`;
    /// 0 outside the table or when `p` is not a partner of `u`.
    pub open spec fn weight(self, u: int, p: int) -> int {
        if 0 <= u < self.rows().len() {
            row_weight(self.rows()[u], p)
        } else {
            0
        }
    }

    /// Whether the table records an edge between `u` and `p`.
    pub open spec fn has_edge(self, u: int, p: int) -> bool {
        0 <= u < self.rows().len() && row_has(self.rows()[u], p)
    }

    pub open spec fn wf(self) -> bool {
        forall|u: int| 0 <= u < self.rows().len() ==> wf_row(#[trigger] self.rows()[u])
    }

    pub fn new() -> (t: LookupTable)
        ensures
            t.wf(),
            t.rows().len() == 0,
            forall|x: int, y: int| t.weight(x, y) == 0,
    {
        LookupTable { table: Vec::new() }
    }

    /// Record one co-occurrence of `u` with partner `p`: one more on the
    /// entry already naming `p`, or a fresh entry of weight 1.  Rows up to
    /// `u` come into being empty if the table was shorter.
    #[verifier::loop_isolation(false)]
    pub fn add_edge(&mut self, u: usize, p: usize)
        requires
            old(self).wf(),
            u < usize::MAX,
            old(self).weight(u as int, p as int) < u64::MAX,
        ensures
            final(self).wf(),
            final(self).rows().len() == if u + 1 > old(self).rows().len() {
                u + 1
            } else {
                old(self).rows().len() as int
            },
            final(self).weight(u as int, p as int) == old(self).weight(u as int, p as int) + 1,
            forall|x: int, y: int|
                !(x == u as int && y == p as int) ==> final(self).weight(x, y) == old(
                    self,
                ).weight(x, y),
            final(self).has_edge(u as int, p as int),
    {
        let ghost t0 = *self;
        while self.table.len() <= u
            invariant
                u < usize::MAX,
                t0.rows().len() > u ==> self.table@ == t0.table@,
                t0.rows().len() <= u ==> self.table@.len() <= u + 1,
                self.table@.len() >= t0.table@.len(),
                forall|x: int| 0 <= x < t0.table@.len() ==> self.table@[x] == t0.table@[x],
                forall|x: int|
                    t0.table@.len() <= x < self.table@.len() ==> (#[trigger] self.table@[x])@.len()
                        == 0,
            decreases u + 1 - self.table@.len(),
        {
            self.table.push(Vec::new());
        }
        let ghost t1 = *self;
        proof {
            assert(t1.rows().len() == if u + 1 > t0.rows().len() {
                u + 1 as int
            } else {
                t0.rows().len() as int
            });
            assert forall|x: int, y: int| #[trigger] t1.weight(x, y) == t0.weight(x, y) by {
                if 0 <= x < t0.rows().len() {
                    assert(t1.rows()[x] == t0.rows()[x]);
                } else if 0 <= x < t1.rows().len() {
                    assert(t1.rows()[x].len() == 0);
                    assert(row_weight(t1.rows()[x], y) == 0);
                }
            }
            assert forall|x: int| 0 <= x < t1.rows().len() implies wf_row(#[trigger] t1.rows()[x]) by {
                if x < t0.rows().len() {
                    assert(t1.rows()[x] == t0.rows()[x]);
                    assert(wf_row(t0.rows()[x]));
                } else {
                    assert(t1.rows()[x].len() == 0);
                }
            }
            assert(t1.wf());
        }
        let row_len = self.table[u].len();
        let mut i: usize = 0;
        while i < row_len
            invariant
                *self == t1,
                u < self.table@.len(),
                row_len == self.rows()[u as int].len(),
                i <= row_len,
                forall|j: int| 0 <= j < i ==> (#[trigger] self.rows()[u as int][j]).partner != p,
            decreases row_len - i,
        {
            if self.table[u][i].partner == p {
                let w = self.table[u][i].weight;
                proof {
                    lemma_row_weight_at(t1.rows()[u as int], i as int);
                    assert(t1.weight(u as int, p as int) == w as int);
                    assert(w < u64::MAX);
                }
                self.table[u][i] = Vertex { partner: p, weight: w + 1 };
                proof {
                    let old_row = t1.rows()[u as int];
                    let new_row = self.rows()[u as int];
                    assert(new_row =~= old_row.update(
                        i as int,
                        Vertex { partner: p, weight: (w + 1) as u64 },
                    ));
                    assert(forall|x: int|
                        0 <= x < self.rows().len() && x != u as int ==> self.rows()[x]
                            =~= t1.rows()[x]);
                    assert forall|q: int| q != p as int implies row_weight(new_row, q)
                        == row_weight(old_row, q) by {
                        lemma_row_weight_update(old_row, i as int, (w + 1) as u64, q);
                    }
                    lemma_row_weight_update(old_row, i as int, (w + 1) as u64, p as int);
                    assert(wf_row(new_row)) by {
                        assert(forall|k: int|
                            0 <= k < new_row.len() ==> (#[trigger] new_row[k]).partner
                                == old_row[k].partner);
                        assert(forall|k: int|
                            0 <= k < new_row.len() ==> (#[trigger] new_row[k]).weight >= 1);
                    }
                    assert(final_weight_claims(t1, *self, u as int, p as int));
                    assert forall|x: int| 0 <= x < self.rows().len() implies wf_row(
                        #[trigger] self.rows()[x],
                    ) by {
                        if x != u as int {
                            assert(self.rows()[x] == t1.rows()[x]);
                            assert(wf_row(t1.rows()[x]));
                        }
                    }
                }
                return ;
            }
            i += 1;
        }
        proof {
            assert(!row_has(t1.rows()[u as int], p as int));
            lemma_row_weight_absent(t1.rows()[u as int], p as int);
        }
        self.table[u].push(Vertex { partner: p, weight: 1 });
        proof {
            let old_row = t1.rows()[u as int];
            let new_row = self.rows()[u as int];
            assert(new_row =~= old_row.push(Vertex { partner: p, weight: 1 }));
            assert(forall|x: int|
                0 <= x < self.rows().len() && x != u as int ==> self.rows()[x] =~= t1.rows()[x]);
            assert forall|q: int| q != p as int implies row_weight(new_row, q) == row_weight(
                old_row,
                q,
            ) by {
                lemma_row_weight_push(old_row, Vertex { partner: p, weight: 1 }, q);
            }
            lemma_row_weight_push(old_row, Vertex { partner: p, weight: 1 }, p as int);
            assert(wf_row(new_row)) by {
                assert(forall|k: int| 0 <= k < old_row.len() ==> new_row[k] == old_row[k]);
                assert(new_row[old_row.len() as int].partner == p);
                assert(forall|k: int|
                    0 <= k < old_row.len() ==> (#[trigger] old_row[k]).partner != p);
            }
            assert(new_row[old_row.len() as int].partner == p);
            assert(final_weight_claims(t1, *self, u as int, p as int));
            assert forall|x: int| 0 <= x < self.rows().len() implies wf_row(
                #[trigger] self.rows()[x],
            ) by {
                if x != u as int {
                    assert(self.rows()[x] == t1.rows()[x]);
                    assert(wf_row(t1.rows()[x]));
                }
            }
        }
    }
}

/// The frame of one `add_edge` call: the pair's weight went up by one and
/// every other pair kept its weight.
pub open spec fn final_weight_claims(t0: LookupTable, t1: LookupTable, u: int, p: int) -> bool {
    &&& t1.weight(u, p) == t0.weight(u, p) + 1
    &&& forall|x: int, y: int| !(x == u && y == p) ==> t1.weight(x, y) == t0.weight(x, y)
}

} // verus!
