//! Move recommendation: the one-ply greedy policy over the weighted
//! adjacency table.
//!
//! Among the opposite-pool partners of the opponent's last move that have not
//! been named yet, the engine picks the one with the strictly greatest
//! weight; equal weights keep the partner met first in the row.

use vstd::prelude::*;

use crate::adjacency::LookupTable;
use crate::adjacency::Vertex;
use crate::adjacency::lemma_row_weight_at;
use crate::pools::Pool;

verus! {

/// Weight a running best stands for: 0 while no candidate was found, so a
/// candidate must beat every earlier one strictly.
pub open spec fn cur_weight(cur: Option<(usize, u64)>) -> int {
    match cur {
        Some(c) => c.1 as int,
        None => 0,
    }
}

/// The greedy scan from position `i` with running best `cur`: take an entry
/// whenever it is not yet used and strictly heavier than the best so far.
pub open spec fn scan_best(row: Seq<Vertex>, used: Seq<usize>, i: int, cur: Option<(usize, u64)>)
    -> Option<(usize, u64)>
    decreases row.len() - i,
{
    if i < 0 || i >= row.len() {
        cur
    } else {
        let e = row[i];
        let next = if !used.contains(e.partner) && e.weight > cur_weight(cur) {
            Some((e.partner, e.weight))
        } else {
            cur
        };
        scan_best(row, used, i + 1, next)
    }
}

/// What the recommendation engine returns: the greedy scan over the row of
/// the opponent's move `j`, and nothing for a row outside the table.
pub open spec fn recommend_spec(t: LookupTable, used: Seq<usize>, j: int) -> Option<(usize, u64)> {
    if 0 <= j < t.rows().len() {
        scan_best(t.rows()[j], used, 0, None)
    } else {
        None
    }
}

/// The scan's result is sound (a not-yet-used entry of the row with its own
/// weight), never lighter than the running best, absent only if the running
/// best was, and at least as heavy as every not-yet-used entry it passed.
pub proof fn lemma_scan_best(row: Seq<Vertex>, used: Seq<usize>, i: int, cur: Option<(usize, u64)>)
    requires
        0 <= i <= row.len(),
        match cur {
            None => true,
            Some(c) => exists|k: int|
                0 <= k < row.len() && (#[trigger] row[k]).partner == c.0 && row[k].weight == c.1
                    && !used.contains(c.0),
        },
    ensures
        ({
            let r = scan_best(row, used, i, cur);
            &&& cur_weight(r) >= cur_weight(cur)
            &&& (r is None ==> cur is None)
            &&& match r {
                None => true,
                Some(c) => exists|k: int|
                    0 <= k < row.len() && (#[trigger] row[k]).partner == c.0 && row[k].weight
                        == c.1 && !used.contains(c.0),
            }
            &&& forall|k: int|
                i <= k < row.len() && !used.contains((#[trigger] row[k]).partner) ==> row[k].weight
                    <= cur_weight(r)
        }),
    decreases row.len() - i,
{
    if i < row.len() {
        let e = row[i];
        let next = if !used.contains(e.partner) && e.weight > cur_weight(cur) {
            Some((e.partner, e.weight))
        } else {
            cur
        };
        lemma_scan_best(row, used, i + 1, next);
    }
}

/// Whether a partner index may still be named: it does not occur in the list
/// of already-said participants.
pub fn is_available(vertex: &Vertex, list: &Vec<usize>) -> (r: bool)
    ensures
        r == !list@.contains(vertex.partner),
{
    let mut i: usize = 0;
    while i < list.len()
        invariant
            i <= list@.len(),
            forall|j: int| 0 <= j < i ==> list@[j] != vertex.partner,
        decreases list@.len() - i,
    {
        if list[i] == vertex.partner {
            return false;
        }
        i += 1;
    }
    proof {
        assert(!list@.contains(vertex.partner));
    }
    true
}

/// Our reply to the opponent's last move: look the name up in the opponent's
/// pool and run the greedy scan over that participant's row.  `None` — for a
/// name outside the pool or a row with no available partner — signals forced
/// concession.
pub fn our_next_move(
    lookup: &LookupTable,
    already_said: &Vec<usize>,
    list: &Pool,
    opponents_next_move: &String,
) -> (r: Option<(usize, u64)>)
    requires
        lookup.wf(),
        list.wf(),
    ensures
        r == (match list.spec_lookup(opponents_next_move@) {
            None => None::<(usize, u64)>,
            Some(j) => recommend_spec(*lookup, already_said@, j),
        }),
        match (r, list.spec_lookup(opponents_next_move@)) {
            (Some(c), Some(j)) => {
                &&& lookup.has_edge(j, c.0 as int)
                &&& lookup.weight(j, c.0 as int) == c.1 as int
                &&& !already_said@.contains(c.0)
                &&& c.1 >= 1
            },
            (Some(c), None) => false,
            (None, Some(j)) => forall|p: int|
                #[trigger] lookup.has_edge(j, p) ==> already_said@.contains(p as usize),
            (None, None) => true,
        },
{
    let j_opt = list.index_of(opponents_next_move);
    let j: usize = match j_opt {
        Some(j) => j,
        None => {
            return None;
        },
    };
    if j >= lookup.table.len() {
        proof {
            assert(recommend_spec(*lookup, already_said@, j as int) is None);
        }
        return None;
    }
    let ghost row = lookup.rows()[j as int];
    let row_len = lookup.table[j].len();
    let mut best: Option<(usize, u64)> = None;
    let mut i: usize = 0;
    while i < row_len
        invariant
            lookup.wf(),
            j < lookup.rows().len(),
            row == lookup.rows()[j as int],
            row_len == row.len(),
            i <= row_len,
            scan_best(row, already_said@, i as int, best) == scan_best(
                row,
                already_said@,
                0,
                None,
            ),
            match best {
                None => true,
                Some(c) => exists|k: int|
                    0 <= k < row.len() && (#[trigger] row[k]).partner == c.0 && row[k].weight
                        == c.1 && !already_said@.contains(c.0),
            },
        decreases row_len - i,
    {
        let e = lookup.table[j][i];
        let heavier = match best {
            Some(c) => e.weight > c.1,
            None => e.weight > 0,
        };
        if heavier && is_available(&e, already_said) {
            proof {
                assert(row[i as int] == e);
                assert(e.weight > cur_weight(best));
            }
            best = Some((e.partner, e.weight));
        } else {
            proof {
                assert(row[i as int] == e);
                assert(!(!already_said@.contains(e.partner) && e.weight > cur_weight(best)));
            }
        }
        i += 1;
    }
    proof {
        assert(scan_best(row, already_said@, row_len as int, best) == best);
        lemma_scan_best(row, already_said@, 0, None);
        match best {
            None => {
                assert forall|p: int| #[trigger] lookup.has_edge(j as int, p) implies already_said@
                    .contains(p as usize) by {
                    let k = choose|k: int| 0 <= k < row.len() && row[k].partner == p;
                    assert(row[k].weight >= 1);
                    assert(!already_said@.contains(row[k].partner) ==> row[k].weight
                        <= cur_weight(best));
                }
            },
            Some(c) => {
                let k = choose|k: int|
                    0 <= k < row.len() && (#[trigger] row[k]).partner == c.0 && row[k].weight
                        == c.1 && !already_said@.contains(c.0);
                assert(forall|j: int| 0 <= j < k ==> (#[trigger] row[j]).partner != row[k].partner);
                lemma_row_weight_at(row, k);
                assert(lookup.weight(j as int, c.0 as int) == c.1 as int);
            },
        }
    }
    best
}

/// Greatest single-edge weight recorded anywhere in the table, 0 when the
/// table records no edge; reported as the final score of a session that
/// ended before any turn was played.
#[verifier::loop_isolation(false)]
pub fn maximum_score(lookup_table: &LookupTable) -> (r: u64)
    ensures
        forall|u: int, i: int|
            0 <= u < lookup_table.rows().len() && 0 <= i < (#[trigger] lookup_table.rows()[u]).len() ==> (#[trigger] lookup_table.rows()[u][i]).weight <= r,
        r == 0 || exists|u: int, i: int|
            0 <= u < lookup_table.rows().len() && 0 <= i < (#[trigger] lookup_table.rows()[u]).len() && (#[trigger] lookup_table.rows()[u][i]).weight == r,
{
    let mut max_score: u64 = 0;
    let mut g: usize = 0;
    while g < lookup_table.table.len()
        invariant
            g <= lookup_table.rows().len(),
            forall|u: int, i: int|
                0 <= u < g && 0 <= i < (#[trigger] lookup_table.rows()[u]).len() ==> (
                #[trigger] lookup_table.rows()[u][i]).weight <= max_score,
            max_score == 0 || exists|u: int, i: int|
                0 <= u < lookup_table.rows().len() && 0 <= i < (#[trigger] lookup_table.rows()[u]).len() && (#[trigger] lookup_table.rows()[u][i]).weight == max_score,
        decreases lookup_table.rows().len() - g,
    {
        let row_len = lookup_table.table[g].len();
        let mut h: usize = 0;
        while h < row_len
            invariant
                h <= row_len,
                row_len == lookup_table.rows()[g as int].len(),
                g < lookup_table.rows().len(),
                forall|u: int, i: int|
                    0 <= u < g && 0 <= i < (#[trigger] lookup_table.rows()[u]).len() ==> (
                    #[trigger] lookup_table.rows()[u][i]).weight <= max_score,
                forall|i: int|
                    0 <= i < h ==> (#[trigger] lookup_table.rows()[g as int][i]).weight
                        <= max_score,
                max_score == 0 || exists|u: int, i: int|
                    0 <= u < lookup_table.rows().len() && 0 <= i < (#[trigger] lookup_table.rows()[u]).len() && (#[trigger] lookup_table.rows()[u][i]).weight == max_score,
            decreases row_len - h,
        {
            let w = lookup_table.table[g][h].weight;
            if w > max_score {
                max_score = w;
                proof {
                    assert(lookup_table.rows()[g as int][h as int].weight == max_score);
                }
            }
            h += 1;
        }
        g += 1;
    }
    max_score
}

/// Opening move when the engine must name first: the owner of the globally
/// lowest-weight edge among the controlled side's rows `lo .. hi`, together
/// with that weight; ties keep the first row and entry met, and `None` says
/// those rows record no edge at all.
#[verifier::loop_isolation(false)]
pub fn opening_move(lookup: &LookupTable, lo: usize, hi: usize) -> (r: Option<(usize, u64)>)
    requires
        lo <= hi,
    ensures
        match r {
            None => forall|u: int|
                lo <= u < hi && u < lookup.rows().len() ==> (#[trigger] lookup.rows()[u]).len()
                    == 0,
            Some(c) => {
                &&& lo <= c.0 < hi && (c.0 as int) < lookup.rows().len()
                &&& exists|i: int|
                    0 <= i < lookup.rows()[c.0 as int].len() && (#[trigger] lookup.rows()[c.0 as int][i]).weight == c.1 && (forall|i2: int|
                        0 <= i2 < i ==> (#[trigger] lookup.rows()[c.0 as int][i2]).weight > c.1)
                &&& forall|u: int, i: int|
                    lo <= u < c.0 && u < lookup.rows().len() && 0 <= i < (#[trigger] lookup.rows()[u]).len() ==> (#[trigger] lookup.rows()[u][i]).weight > c.1
                &&& forall|u: int, i: int|
                    lo <= u < hi && u < lookup.rows().len() && 0 <= i < (#[trigger] lookup.rows()[u]).len() ==> (#[trigger] lookup.rows()[u][i]).weight >= c.1
            },
        },
{
    let mut best: Option<(usize, u64)> = None;
    let mut g: usize = lo;
    while g < hi && g < lookup.table.len()
        invariant
            lo <= g <= hi,
            match best {
                None => forall|u: int|
                    lo <= u < g && u < lookup.rows().len() ==> (#[trigger] lookup.rows()[u]).len()
                        == 0,
                Some(c) => {
                    &&& lo <= c.0 < g && (c.0 as int) < lookup.rows().len()
                    &&& exists|i: int|
                        0 <= i < lookup.rows()[c.0 as int].len() && (#[trigger] lookup.rows()[c.0 as int][i]).weight == c.1 && (forall|i2: int|
                            0 <= i2 < i ==> (#[trigger] lookup.rows()[c.0 as int][i2]).weight
                                > c.1)
                    &&& forall|u: int, i: int|
                        lo <= u < c.0 && u < lookup.rows().len() && 0 <= i < (
                        #[trigger] lookup.rows()[u]).len() ==> (#[trigger] lookup.rows()[u][i]).weight > c.1
                    &&& forall|u: int, i: int|
                        lo <= u < g && u < lookup.rows().len() && 0 <= i < (
                        #[trigger] lookup.rows()[u]).len() ==> (#[trigger] lookup.rows()[u][i]).weight >= c.1
                },
            },
        decreases hi - g,
    {
        let row_len = lookup.table[g].len();
        let mut h: usize = 0;
        while h < row_len
            invariant
                h <= row_len,
                row_len == lookup.rows()[g as int].len(),
                lo <= g < hi,
                g < lookup.rows().len(),
                match best {
                    None => (forall|u: int|
                        lo <= u < g && u < lookup.rows().len() ==> (#[trigger] lookup.rows()[u]).len() == 0) && h == 0,
                    Some(c) => {
                        &&& lo <= c.0 <= g && (c.0 as int) < lookup.rows().len()
                        &&& exists|i: int|
                            0 <= i < lookup.rows()[c.0 as int].len() && (#[trigger] lookup.rows()[c.0 as int][i]).weight == c.1 && (forall|i2: int|
                                0 <= i2 < i ==> (#[trigger] lookup.rows()[c.0 as int][i2]).weight
                                    > c.1)
                        &&& forall|u: int, i: int|
                            lo <= u < c.0 && u < lookup.rows().len() && 0 <= i < (
                            #[trigger] lookup.rows()[u]).len() ==> (#[trigger] lookup.rows()[u][i]).weight > c.1
                        &&& forall|u: int, i: int|
                            lo <= u < g && u < lookup.rows().len() && 0 <= i < (
                            #[trigger] lookup.rows()[u]).len() ==> (#[trigger] lookup.rows()[u][i]).weight >= c.1
                        &&& forall|i: int|
                            0 <= i < h ==> (#[trigger] lookup.rows()[g as int][i]).weight >= c.1
                    },
                },
            decreases row_len - h,
        {
            let w = lookup.table[g][h].weight;
            let smaller = match best {
                None => true,
                Some(c) => w < c.1,
            };
            if smaller {
                proof {
                    assert(lookup.rows()[g as int][h as int].weight == w);
                    assert(forall|i2: int|
                        0 <= i2 < h ==> (#[trigger] lookup.rows()[g as int][i2]).weight > w);
                    assert(forall|u: int, i: int|
                        lo <= u < g && u < lookup.rows().len() && 0 <= i < (
                        #[trigger] lookup.rows()[u]).len() ==> (#[trigger] lookup.rows()[u][i]).weight > w);
                }
                best = Some((g, w));
            } else {
                proof {
                    assert(lookup.rows()[g as int][h as int].weight == w);
                }
            }
            h += 1;
            proof {
                let c = best.unwrap();
                assert(lo <= c.0 <= g && (c.0 as int) < lookup.rows().len());
                assert(exists|i: int|
                    0 <= i < lookup.rows()[c.0 as int].len() && (#[trigger] lookup.rows()[c.0 as int][i]).weight == c.1 && (forall|i2: int|
                        0 <= i2 < i ==> (#[trigger] lookup.rows()[c.0 as int][i2]).weight > c.1));
                assert(forall|u: int, i: int|
                    lo <= u < c.0 && u < lookup.rows().len() && 0 <= i < (
                    #[trigger] lookup.rows()[u]).len() ==> (#[trigger] lookup.rows()[u][i]).weight > c.1);
                assert(forall|u: int, i: int|
                    lo <= u < g && u < lookup.rows().len() && 0 <= i < (
                    #[trigger] lookup.rows()[u]).len() ==> (#[trigger] lookup.rows()[u][i]).weight >= c.1);
                assert(forall|i: int|
                    0 <= i < h ==> (#[trigger] lookup.rows()[g as int][i]).weight >= c.1);
            }
        }
        g += 1;
    }
    best
}

/// Recommendation determinism: the recommendation is a function of the
/// table, the used-set and the opponent's move alone, so two calls of
/// `our_next_move` on equal inputs return the same result.
pub proof fn lemma_recommend_deterministic(
    t: LookupTable,
    used: Seq<usize>,
    j: int,
    r1: Option<(usize, u64)>,
    r2: Option<(usize, u64)>,
)
    requires
        r1 == recommend_spec(t, used, j),
        r2 == recommend_spec(t, used, j),
    ensures
        r1 == r2,
{
}

} // verus!
