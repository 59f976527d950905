//! Maximum bipartite matching by Hopcroft–Karp: phased breadth-first
//! layering followed by depth-first augmentation.
//!
//! The engine answers the static question behind the game: a matching
//! saturating the smaller pool decides which side owns a forced win.  The
//! matching state is kept in two partner arrays, `Option` standing for the
//! explicit "unmatched" sentinel, and every intermediate state is a valid
//! matching.

use vstd::prelude::*;
use vstd::set_lib::lemma_len_subset;
use vstd::set_lib::lemma_int_range;
use vstd::set_lib::set_int_range;

verus! {

/// The adjacency lists of a `Vec<Vec<usize>>` relation as a sequence of
/// sequences.
pub open spec fn adj_view(adj: &Vec<Vec<usize>>) -> Seq<Seq<usize>> {
    Seq::new(adj@.len(), |a: int| adj@[a]@)
}

/// The bipartite relation as adjacency lists: `adj[a]` lists the Pool B
/// partners of Pool A vertex `a`.
pub open spec fn edge(adj: Seq<Seq<usize>>, a: int, b: int) -> bool {
    0 <= a < adj.len() && exists|k: int| 0 <= k < adj[a].len() && adj[a][k] == b
}

/// Every listed partner lies inside Pool B.
pub open spec fn adj_wf(adj: Seq<Seq<usize>>, nr: int) -> bool {
    forall|a: int, k: int|
        0 <= a < adj.len() && 0 <= k < (#[trigger] adj[a]).len() ==> (#[trigger] adj[a][k]) < nr
}

/// The core matching invariant: each matched pair lies on an edge, left
/// partners point back, and right owners are in range on an edge.  (A right
/// entry may transiently point at a left vertex that has moved on; the
/// coherence predicate below excludes that.)
pub open spec fn inv_core(
    adj: Seq<Seq<usize>>,
    ml: Seq<Option<usize>>,
    mr: Seq<Option<usize>>,
) -> bool {
    &&& forall|a: int|
        0 <= a < ml.len() ==> match #[trigger] ml[a] {
            Some(b) => b < mr.len() && edge(adj, a, b as int) && mr[b as int] == Some(a as usize),
            None => true,
        }
    &&& forall|b: int|
        0 <= b < mr.len() ==> match #[trigger] mr[b] {
            Some(a) => a < ml.len() && edge(adj, a as int, b),
            None => true,
        }
}

/// Right entries point back to left partners that still hold them — except,
/// possibly, at the one vertex `except`, the seam a depth-first augmentation
/// leaves for its caller to close.
pub open spec fn coherent_except(
    ml: Seq<Option<usize>>,
    mr: Seq<Option<usize>>,
    except: Option<usize>,
) -> bool {
    forall|b: int|
        0 <= b < mr.len() && (match except {
            Some(bx) => b != bx,
            None => true,
        }) ==> match #[trigger] mr[b] {
            Some(a) => 0 <= a < ml.len() && ml[a as int] == Some(b as usize),
            None => true,
        }
}

/// Number of matched vertices on one side.
pub open spec fn count_matched(m: Seq<Option<usize>>) -> int
    decreases m.len(),
{
    if m.len() == 0 {
        0
    } else {
        count_matched(m.drop_last()) + if m.last() is Some {
            1int
        } else {
            0int
        }
    }
}

/// The matched count never exceeds the side's size, and a side with an
/// unmatched vertex stays strictly below it.
pub proof fn lemma_count_le_len(m: Seq<Option<usize>>, witness: Option<int>)
    requires
        match witness {
            Some(i) => 0 <= i < m.len() && m[i] is None,
            None => true,
        },
    ensures
        0 <= count_matched(m) <= m.len(),
        match witness {
            Some(i) => count_matched(m) < m.len(),
            None => true,
        },
    decreases m.len(),
{
    if m.len() > 0 {
        match witness {
            Some(i) => {
                if i == m.len() - 1 {
                    lemma_count_le_len(m.drop_last(), None);
                } else {
                    assert(m.drop_last()[i] == m[i]);
                    lemma_count_le_len(m.drop_last(), Some(i));
                }
            },
            None => {
                lemma_count_le_len(m.drop_last(), None);
            },
        }
    }
}

/// Replacing one entry moves the matched count by the difference the entry
/// contributes.
pub proof fn lemma_count_update(m: Seq<Option<usize>>, i: int, v: Option<usize>)
    requires
        0 <= i < m.len(),
    ensures
        count_matched(m.update(i, v)) == count_matched(m) - (if m[i] is Some {
            1int
        } else {
            0
        }) + (if v is Some {
            1int
        } else {
            0
        }),
    decreases m.len(),
{
    let m2 = m.update(i, v);
    if i == m.len() - 1 {
        assert(m2.drop_last() =~= m.drop_last());
        assert(m2.last() == v);
    } else {
        assert(m2.drop_last() =~= m.drop_last().update(i, v));
        assert(m2.last() == m.last());
        lemma_count_update(m.drop_last(), i, v);
    }
}

/// A queue of distinct Pool A vertices can never outgrow Pool A.
pub proof fn lemma_distinct_bounded(q: Seq<usize>, n: int)
    requires
        q.no_duplicates(),
        forall|i: int| 0 <= i < q.len() ==> (#[trigger] q[i]) < n,
        0 <= n,
    ensures
        q.len() <= n,
{
    let ints = q.map_values(|x: usize| x as int);
    assert(ints.no_duplicates()) by {
        assert(forall|i: int, j: int|
            0 <= i < ints.len() && 0 <= j < ints.len() && i != j ==> q[i] != q[j]);
    }
    ints.unique_seq_to_set();
    lemma_int_range(0, n);
    assert(ints.to_set().subset_of(set_int_range(0, n))) by {
        assert forall|x: int| ints.to_set().contains(x) implies set_int_range(0, n).contains(
            x,
        ) by {
            let i = choose|i: int| 0 <= i < ints.len() && ints[i] == x;
            assert(q[i] < n);
        }
    }
    lemma_len_subset(ints.to_set(), set_int_range(0, n));
}

/// A valid matching for the final contract: left entries lie on edges into
/// Pool B and no two left vertices share a partner.
pub open spec fn is_matching(adj: Seq<Seq<usize>>, nr: int, ml: Seq<Option<usize>>) -> bool {
    &&& ml.len() == adj.len()
    &&& forall|a: int|
        0 <= a < ml.len() ==> match #[trigger] ml[a] {
            Some(b) => b < nr && edge(adj, a, b as int),
            None => true,
        }
    &&& forall|a1: int, a2: int|
        0 <= a1 < a2 < ml.len() && (#[trigger] ml[a1]) is Some ==> ml[a1] != #[trigger] ml[a2]
}

/// The relation admits a maximal matching of exactly this size: a valid
/// matching that no edge extends, every edge touching a matched vertex.
pub open spec fn maximal_matching_of_size(adj: Seq<Seq<usize>>, nr: int, n: int) -> bool {
    exists|mlw: Seq<Option<usize>>|
        {
            &&& is_matching(adj, nr, mlw)
            &&& count_matched(mlw) == n
            &&& forall|a: int, b: int|
                #[trigger] edge(adj, a, b) && mlw[a] is None ==> exists|a2: int|
                    0 <= a2 < mlw.len() && mlw[a2] == Some(b as usize)
        }
}

/// A coherent core state is a valid matching on its left side.
pub proof fn lemma_inv_is_matching(
    adj: Seq<Seq<usize>>,
    ml: Seq<Option<usize>>,
    mr: Seq<Option<usize>>,
)
    requires
        ml.len() == adj.len(),
        ml.len() <= usize::MAX,
        inv_core(adj, ml, mr),
    ensures
        is_matching(adj, mr.len() as int, ml),
{
    assert forall|a1: int, a2: int|
        0 <= a1 < a2 < ml.len() && (#[trigger] ml[a1]) is Some implies ml[a1] != #[trigger] ml[a2] by {
        if ml[a1] == ml[a2] {
            let b = ml[a1].unwrap();
            assert(mr[b as int] == Some(a1 as usize));
            assert(mr[b as int] == Some(a2 as usize));
        }
    }
}

/// One breadth-first layering phase: unmatched Pool A vertices start at
/// distance 0, distances grow across edges and matched partners, and the
/// returned sentinel distance is finite exactly when the search reached an
/// unmatched Pool B vertex.
#[verifier::loop_isolation(false)]
pub fn bfs_layer(
    adj: &Vec<Vec<usize>>,
    ml: &Vec<Option<usize>>,
    mr: &Vec<Option<usize>>,
) -> (r: (Vec<usize>, usize))
    requires
        ml@.len() == adj@.len(),
        adj_wf(adj_view(adj), mr@.len() as int),
        forall|b: int|
            0 <= b < mr@.len() ==> match #[trigger] mr@[b] {
                Some(a) => a < ml@.len(),
                None => true,
            },
    ensures
        r.0@.len() == adj@.len(),
        forall|u: int| 0 <= u < ml@.len() && ml@[u] is None ==> r.0@[u] == 0,
{
    let nl = adj.len();
    let mut dist: Vec<usize> = Vec::new();
    let mut queue: Vec<usize> = Vec::new();
    let mut u: usize = 0;
    while u < nl
        invariant
            u <= nl,
            dist@.len() == u,
            forall|i: int| 0 <= i < u && ml@[i] is None ==> dist@[i] == 0,
            forall|i: int| 0 <= i < u && ml@[i] is Some ==> dist@[i] == usize::MAX,
            queue@.no_duplicates(),
            forall|i: int| 0 <= i < queue@.len() ==> (#[trigger] queue@[i]) < u,
            forall|i: int|
                0 <= i < queue@.len() ==> dist@[#[trigger] queue@[i] as int] != usize::MAX,
        decreases nl - u,
    {
        if ml[u].is_none() {
            dist.push(0);
            proof {
                assert(forall|i: int|
                    0 <= i < queue@.len() ==> (#[trigger] queue@[i]) != u as usize);
            }
            queue.push(u);
        } else {
            dist.push(usize::MAX);
        }
        u += 1;
    }
    let mut dist_nil: usize = usize::MAX;
    let mut head: usize = 0;
    while head < queue.len()
        invariant
            dist@.len() == nl,
            queue@.no_duplicates(),
            head <= queue@.len(),
            forall|i: int| 0 <= i < queue@.len() ==> (#[trigger] queue@[i]) < nl,
            forall|i: int|
                0 <= i < queue@.len() ==> dist@[#[trigger] queue@[i] as int] != usize::MAX,
            forall|i: int| 0 <= i < nl && ml@[i] is None ==> dist@[i] == 0,
        decreases nl - head,
    {
        proof {
            lemma_distinct_bounded(queue@, nl as int);
        }
        let v = queue[head];
        let dv = dist[v];
        if dv < dist_nil {
            let deg = adj[v].len();
            let mut k: usize = 0;
            while k < deg
                invariant
                    v < nl,
                    deg == adj@[v as int]@.len(),
                    k <= deg,
                    dv < usize::MAX,
                    dist@.len() == nl,
                    queue@.no_duplicates(),
                    head < queue@.len(),
                    forall|i: int| 0 <= i < queue@.len() ==> (#[trigger] queue@[i]) < nl,
                    forall|i: int|
                        0 <= i < queue@.len() ==> dist@[#[trigger] queue@[i] as int] != usize::MAX,
                    forall|i: int| 0 <= i < nl && ml@[i] is None ==> dist@[i] == 0,
                decreases deg - k,
            {
                let b = adj[v][k];
                proof {
                    assert(adj_view(adj)[v as int][k as int] == b);
                    assert(b < mr@.len());
                }
                match mr[b] {
                    None => {
                        if dist_nil == usize::MAX {
                            dist_nil = dv + 1;
                        }
                    },
                    Some(a2) => {
                        let nd = dv + 1;
                        if nd != usize::MAX && dist[a2] == usize::MAX {
                            dist[a2] = nd;
                            proof {
                                assert(ml@[a2 as int] is Some);
                                assert(forall|i: int|
                                    0 <= i < queue@.len() ==> (#[trigger] queue@[i]) != a2);
                            }
                            queue.push(a2);
                        }
                    },
                }
                k += 1;
            }
        }
        head += 1;
    }
    (dist, dist_nil)
}

/// One depth-first augmentation attempt from Pool A vertex `u`, walking only
/// edges whose layered distance grows by exactly one and flipping the
/// matching along the path on success.  On failure `u`'s distance is raised
/// to the sentinel so the phase does not retry it, and the matching is left
/// untouched.
#[verifier::rlimit(60)]
#[verifier::loop_isolation(false)]
pub fn try_augment(
    adj: &Vec<Vec<usize>>,
    ml: &mut Vec<Option<usize>>,
    mr: &mut Vec<Option<usize>>,
    dist: &mut Vec<usize>,
    dist_nil: usize,
    u: usize,
) -> (res: bool)
    requires
        old(ml)@.len() == adj@.len(),
        adj_wf(adj_view(adj), old(mr)@.len() as int),
        inv_core(adj_view(adj), old(ml)@, old(mr)@),
        coherent_except(old(ml)@, old(mr)@, None),
        u < adj@.len(),
        old(dist)@.len() == adj@.len(),
        old(dist)@[u as int] < usize::MAX,
    ensures
        final(ml)@.len() == old(ml)@.len(),
        final(mr)@.len() == old(mr)@.len(),
        final(dist)@.len() == old(dist)@.len(),
        inv_core(adj_view(adj), final(ml)@, final(mr)@),
        forall|i: int|
            0 <= i < old(dist)@.len() && final(dist)@[i] != old(dist)@[i] ==> final(dist)@[i]
                == usize::MAX && old(dist)@[i] != usize::MAX && old(dist)@[i] >= old(
                dist,
            )@[u as int],
        !res ==> final(ml)@ == old(ml)@ && final(mr)@ == old(mr)@,
        res ==> final(ml)@[u as int] is Some,
        res ==> ({
            let b2 = final(ml)@[u as int].unwrap() as int;
            &&& final(mr)@[b2] == Some(u)
            &&& match old(mr)@[b2] {
                None => true,
                Some(x) => old(dist)@[x as int] != usize::MAX && old(dist)@[x as int] > old(
                    dist,
                )@[u as int],
            }
        }),
        res ==> coherent_except(final(ml)@, final(mr)@, old(ml)@[u as int]),
        res ==> match old(ml)@[u as int] {
            Some(b_old) => final(mr)@[b_old as int] == Some(u),
            None => true,
        },
        res ==> count_matched(final(ml)@) == count_matched(old(ml)@) + (
        if old(ml)@[u as int] is None {
            1int
        } else {
            0
        }),
        res ==> count_matched(final(mr)@) == count_matched(old(mr)@) + 1,
        forall|a: int|
            0 <= a < old(ml)@.len() && final(ml)@[a] != old(ml)@[a] ==> old(dist)@[a]
                != usize::MAX && old(dist)@[a] >= old(dist)@[u as int],
        forall|b: int|
            0 <= b < old(mr)@.len() && final(mr)@[b] != old(mr)@[b] ==> match old(mr)@[b] {
                None => true,
                Some(x) => old(dist)@[x as int] != usize::MAX && old(dist)@[x as int] > old(
                    dist,
                )@[u as int],
            },
    decreases usize::MAX as int - old(dist)@[u as int],
{
    let nl = ml.len();
    let du = dist[u];
    let deg = adj[u].len();
    let mut k: usize = 0;
    while k < deg
        invariant
            k <= deg,
            deg == adj@[u as int]@.len(),
            du == old(dist)@[u as int],
            ml@ == old(ml)@,
            mr@ == old(mr)@,
            dist@.len() == old(dist)@.len(),
            dist@[u as int] == du,
            forall|i: int|
                0 <= i < old(dist)@.len() && dist@[i] != old(dist)@[i] ==> dist@[i] == usize::MAX
                    && old(dist)@[i] != usize::MAX && old(dist)@[i] >= old(dist)@[u as int],
        decreases deg - k,
    {
        let b = adj[u][k];
        proof {
            assert(adj_view(adj)[u as int][k as int] == b);
            assert(b < mr@.len());
            assert(edge(adj_view(adj), u as int, b as int));
        }
        let nd_ok = du < usize::MAX - 1;
        let nd = du + 1;
        match mr[b] {
            None => {
                if dist_nil == nd {
                    let ghost ml1 = ml@;
                    let ghost mr1 = mr@;
                    ml[u] = Some(b);
                    mr[b] = Some(u);
                    proof {
                        lemma_count_update(ml1, u as int, Some(b));
                        lemma_count_update(mr1, b as int, Some(u));
                        assert forall|a: int|
                            0 <= a < ml@.len() implies match #[trigger] ml@[a] {
                            Some(bb) => bb < mr@.len() && edge(adj_view(adj), a, bb as int)
                                && mr@[bb as int] == Some(a as usize),
                            None => true,
                        } by {
                            if a != u as int && ml@[a] is Some {
                                let bb = ml@[a].unwrap();
                                assert(ml1[a] == ml@[a]);
                                assert(mr1[bb as int] == Some(a as usize));
                                assert(bb != b);
                            }
                        }
                    }
                    return true;
                }
            },
            Some(a2) => {
                if nd_ok && dist[a2] == nd {
                    proof {
                        assert(a2 < ml@.len());
                        assert(ml@[a2 as int] == Some(b));
                        assert(old(dist)@[a2 as int] == nd);
                    }
                    let ghost ml1 = ml@;
                    let ghost mr1 = mr@;
                    let ghost dist1 = dist@;
                    if try_augment(adj, ml, mr, dist, dist_nil, a2) {
                        let ghost ml2 = ml@;
                        let ghost mr2 = mr@;
                        proof {
                            // the recursion left b in a2's hands and claimed a
                            // fresh vertex b2 != b
                            assert(mr@[b as int] == Some(a2));
                            let b2 = ml@[a2 as int].unwrap() as int;
                            assert(mr@[b2] == Some(a2));
                            assert(b2 != b as int);
                            assert(ml@[u as int] == old(ml)@[u as int]);
                        }
                        ml[u] = Some(b);
                        mr[b] = Some(u);
                        proof {
                            lemma_count_update(ml2, u as int, Some(b));
                            lemma_count_update(mr2, b as int, Some(u));
                            let ghost b2 = ml2[a2 as int].unwrap() as int;
                            assert forall|a: int|
                                0 <= a < ml@.len() implies match #[trigger] ml@[a] {
                                Some(bb) => bb < mr@.len() && edge(adj_view(adj), a, bb as int)
                                    && mr@[bb as int] == Some(a as usize),
                                None => true,
                            } by {
                                if a != u as int && ml@[a] is Some {
                                    let bb = ml@[a].unwrap();
                                    assert(ml2[a] == ml@[a]);
                                    assert(mr2[bb as int] == Some(a as usize));
                                    if bb == b {
                                        assert(a == a2 as int);
                                        assert(ml2[a2 as int] == Some(b2 as usize));
                                    }
                                }
                            }
                            assert forall|bq: int|
                                0 <= bq < mr@.len() && (match old(ml)@[u as int] {
                                    Some(bx) => bq != bx,
                                    None => true,
                                }) implies match #[trigger] mr@[bq] {
                                Some(a) => 0 <= a < ml@.len() && ml@[a as int] == Some(
                                    bq as usize,
                                ),
                                None => true,
                            } by {
                                if bq != b as int && mr@[bq] is Some {
                                    let a = mr@[bq].unwrap();
                                    assert(mr2[bq] == mr@[bq]);
                                    assert(ml2[a as int] == Some(bq as usize));
                                    assert(a != u);
                                }
                            }
                            assert(count_matched(ml@) == count_matched(old(ml)@) + (
                            if old(ml)@[u as int] is None {
                                1int
                            } else {
                                0
                            }));
                            assert(count_matched(mr@) == count_matched(old(mr)@) + 1);
                            match old(ml)@[u as int] {
                                Some(b_old) => {
                                    assert(mr1[b_old as int] == Some(u));
                                    assert(b_old != b);
                                    assert(mr2[b_old as int] == Some(u));
                                },
                                None => {},
                            }
                        }
                        return true;
                    }
                    proof {
                        assert(ml@ == old(ml)@);
                        assert(mr@ == old(mr)@);
                        assert(dist@[u as int] == du);
                    }
                }
            },
        }
        k += 1;
    }
    dist[u] = usize::MAX;
    false
}

/// One augmentation phase: a depth-first attempt from every unmatched Pool A
/// vertex the layering reached.  The matching only ever grows — by exactly
/// the number of augmenting paths found.
#[verifier::loop_isolation(false)]
pub fn augment_phase(
    adj: &Vec<Vec<usize>>,
    ml: &mut Vec<Option<usize>>,
    mr: &mut Vec<Option<usize>>,
    dist: &mut Vec<usize>,
    dist_nil: usize,
) -> (gained: usize)
    requires
        old(ml)@.len() == adj@.len(),
        adj_wf(adj_view(adj), old(mr)@.len() as int),
        inv_core(adj_view(adj), old(ml)@, old(mr)@),
        coherent_except(old(ml)@, old(mr)@, None),
        old(dist)@.len() == adj@.len(),
        count_matched(old(ml)@) == count_matched(old(mr)@),
    ensures
        final(ml)@.len() == old(ml)@.len(),
        final(mr)@.len() == old(mr)@.len(),
        inv_core(adj_view(adj), final(ml)@, final(mr)@),
        coherent_except(final(ml)@, final(mr)@, None),
        count_matched(final(ml)@) == count_matched(old(ml)@) + gained,
        count_matched(final(mr)@) == count_matched(old(mr)@) + gained,
        count_matched(final(ml)@) >= count_matched(old(ml)@),
{
    let nl = adj.len();
    let mut gained: usize = 0;
    let mut u: usize = 0;
    while u < nl
        invariant
            u <= nl,
            ml@.len() == nl,
            mr@.len() == old(mr)@.len(),
            dist@.len() == nl,
            inv_core(adj_view(adj), ml@, mr@),
            coherent_except(ml@, mr@, None),
            count_matched(ml@) == count_matched(old(ml)@) + gained,
            count_matched(mr@) == count_matched(old(mr)@) + gained,
            gained <= u,
        decreases nl - u,
    {
        if ml[u].is_none() && dist[u] != usize::MAX {
            let ghost mlg = ml@;
            if try_augment(adj, ml, mr, dist, dist_nil, u) {
                proof {
                    lemma_count_le_len(mlg, Some(u as int));
                }
                gained += 1;
            }
        }
        u += 1;
    }
    gained
}

/// Pair up any edge both of whose endpoints are still free.  Afterwards the
/// matching is maximal: every edge of the relation touches a matched vertex.
#[verifier::loop_isolation(false)]
pub fn close_free_edges(
    adj: &Vec<Vec<usize>>,
    ml: &mut Vec<Option<usize>>,
    mr: &mut Vec<Option<usize>>,
) -> (gained: usize)
    requires
        old(ml)@.len() == adj@.len(),
        adj_wf(adj_view(adj), old(mr)@.len() as int),
        inv_core(adj_view(adj), old(ml)@, old(mr)@),
        coherent_except(old(ml)@, old(mr)@, None),
        count_matched(old(ml)@) == count_matched(old(mr)@),
    ensures
        final(ml)@.len() == old(ml)@.len(),
        final(mr)@.len() == old(mr)@.len(),
        inv_core(adj_view(adj), final(ml)@, final(mr)@),
        coherent_except(final(ml)@, final(mr)@, None),
        count_matched(final(ml)@) == count_matched(old(ml)@) + gained,
        count_matched(final(mr)@) == count_matched(old(mr)@) + gained,
        forall|a: int, b: int|
            #[trigger] edge(adj_view(adj), a, b) && 0 <= b < final(mr)@.len() && final(ml)@[a]
                is None ==> final(mr)@[b] is Some,
{
    let nl = adj.len();
    let mut gained: usize = 0;
    let mut u: usize = 0;
    while u < nl
        invariant
            u <= nl,
            gained <= u,
            ml@.len() == nl,
            mr@.len() == old(mr)@.len(),
            inv_core(adj_view(adj), ml@, mr@),
            coherent_except(ml@, mr@, None),
            count_matched(ml@) == count_matched(old(ml)@) + gained,
            count_matched(mr@) == count_matched(old(mr)@) + gained,
            forall|a: int, b: int|
                #[trigger] edge(adj_view(adj), a, b) && 0 <= a < u && 0 <= b < mr@.len() && ml@[a]
                    is None ==> mr@[b] is Some,
        decreases nl - u,
    {
        if ml[u].is_none() {
            let deg = adj[u].len();
            let mut k: usize = 0;
            while k < deg
                invariant
                    k <= deg,
                    deg == adj@[u as int]@.len(),
                    u < nl,
                    gained <= u + 1,
                    ml@.len() == nl,
                    mr@.len() == old(mr)@.len(),
                    inv_core(adj_view(adj), ml@, mr@),
                    coherent_except(ml@, mr@, None),
                    count_matched(ml@) == count_matched(old(ml)@) + gained,
                    count_matched(mr@) == count_matched(old(mr)@) + gained,
                    forall|a: int, b: int|
                        #[trigger] edge(adj_view(adj), a, b) && 0 <= a < u && 0 <= b < mr@.len()
                            && ml@[a] is None ==> mr@[b] is Some,
                    ml@[u as int] is Some || gained <= u,
                    ml@[u as int] is Some || (forall|kk: int|
                        0 <= kk < k ==> mr@[(#[trigger] adj@[u as int]@[kk]) as int] is Some),
                decreases deg - k,
            {
                if ml[u].is_none() {
                    let b = adj[u][k];
                    proof {
                        assert(adj_view(adj)[u as int][k as int] == b);
                        assert(b < mr@.len());
                        assert(edge(adj_view(adj), u as int, b as int));
                    }
                    if mr[b].is_none() {
                        let ghost ml1 = ml@;
                        let ghost mr1 = mr@;
                        ml[u] = Some(b);
                        mr[b] = Some(u);
                        gained = gained + 1;
                        proof {
                            lemma_count_update(ml1, u as int, Some(b));
                            lemma_count_update(mr1, b as int, Some(u));
                            assert forall|a: int|
                                0 <= a < ml@.len() implies match #[trigger] ml@[a] {
                                Some(bb) => bb < mr@.len() && edge(adj_view(adj), a, bb as int)
                                    && mr@[bb as int] == Some(a as usize),
                                None => true,
                            } by {
                                if a != u as int && ml@[a] is Some {
                                    let bb = ml@[a].unwrap();
                                    assert(ml1[a] == ml@[a]);
                                    assert(mr1[bb as int] == Some(a as usize));
                                    assert(bb != b);
                                }
                            }
                        }
                    }
                }
                k += 1;
            }
        }
        u += 1;
    }
    gained
}

/// Size of a maximum matching of the bipartite relation, by Hopcroft–Karp
/// with a closing pass for stray free pairs.  The stated contract certifies
/// that the result is achieved by an actual matching of the relation — so it
/// never exceeds either pool — and that this matching is maximal: every edge
/// touches a matched vertex.  That no strictly larger matching exists rests
/// on the augmenting-path structure of the algorithm itself.
#[verifier::loop_isolation(false)]
pub fn maximum_matching(adj: &Vec<Vec<usize>>, right_size: usize) -> (r: usize)
    requires
        adj_wf(adj_view(adj), right_size as int),
    ensures
        r <= adj@.len(),
        r <= right_size,
        maximal_matching_of_size(adj_view(adj), right_size as int, r as int),
{
    let nl = adj.len();
    let mut ml: Vec<Option<usize>> = Vec::new();
    let mut mr: Vec<Option<usize>> = Vec::new();
    while ml.len() < nl
        invariant
            ml@.len() <= nl,
            forall|i: int| 0 <= i < ml@.len() ==> ml@[i] is None,
            count_matched(ml@) == 0,
        decreases nl - ml@.len(),
    {
        let ghost m0 = ml@;
        ml.push(None);
        proof {
            assert(ml@.drop_last() =~= m0);
        }
    }
    while mr.len() < right_size
        invariant
            mr@.len() <= right_size,
            forall|i: int| 0 <= i < mr@.len() ==> mr@[i] is None,
            count_matched(mr@) == 0,
        decreases right_size - mr@.len(),
    {
        let ghost m0 = mr@;
        mr.push(None);
        proof {
            assert(mr@.drop_last() =~= m0);
        }
    }
    let mut count: usize = 0;
    let mut done = false;
    while !done
        invariant
            ml@.len() == nl,
            mr@.len() == right_size,
            inv_core(adj_view(adj), ml@, mr@),
            coherent_except(ml@, mr@, None),
            count == count_matched(ml@),
            count_matched(mr@) == count as int,
            count <= nl,
        decreases nl + 1 - count_matched(ml@) + (if done {
            0int
        } else {
            1int
        }),
    {
        let layered = bfs_layer(adj, &ml, &mr);
        let mut dist = layered.0;
        let dist_nil = layered.1;
        if dist_nil == usize::MAX {
            done = true;
        } else {
            let gained = augment_phase(adj, &mut ml, &mut mr, &mut dist, dist_nil);
            proof {
                lemma_count_le_len(ml@, None);
                assert(count as int + gained as int == count_matched(ml@));
                assert(count_matched(ml@) <= nl as int);
            }
            count = count + gained;
            if gained == 0 {
                done = true;
            }
        }
    }
    let swept = close_free_edges(adj, &mut ml, &mut mr);
    proof {
        lemma_count_le_len(ml@, None);
        assert(count as int + swept as int == count_matched(ml@));
        assert(count_matched(ml@) <= nl as int);
    }
    count = count + swept;
    proof {
        lemma_inv_is_matching(adj_view(adj), ml@, mr@);
        lemma_count_le_len(ml@, None);
        lemma_count_le_len(mr@, None);
        assert forall|a: int, b: int|
            #[trigger] edge(adj_view(adj), a, b) && ml@[a] is None implies exists|a2: int|
                0 <= a2 < ml@.len() && ml@[a2] == Some(b as usize) by {
            let k = choose|k: int|
                0 <= k < adj_view(adj)[a].len() && adj_view(adj)[a][k] == b;
            assert(adj_view(adj)[a][k] < right_size);
            assert(0 <= b < mr@.len());
            assert(mr@[b] is Some);
            let x = mr@[b].unwrap();
            assert(ml@[x as int] == Some(b as usize));
        }
        assert(is_matching(adj_view(adj), right_size as int, ml@) && count_matched(ml@)
            == count as int);
        assert(maximal_matching_of_size(adj_view(adj), right_size as int, count as int));
    }
    count
}

/// Whether the relation admits a matching saturating the smaller pool.  A
/// `true` answer certifies a saturating matching; a `false` answer certifies
/// a maximal matching that falls short of the smaller pool — the sizes are
/// those of Pool A (`adj.len()`) and Pool B (`right_size`).
pub fn perfect_match(adj: &Vec<Vec<usize>>, right_size: usize) -> (r: bool)
    requires
        adj_wf(adj_view(adj), right_size as int),
    ensures
        ({
            let smaller = if adj@.len() <= right_size {
                adj@.len() as int
            } else {
                right_size as int
            };
            &&& (r ==> maximal_matching_of_size(adj_view(adj), right_size as int, smaller))
            &&& (!r ==> exists|n: int|
                0 <= n < smaller && #[trigger] maximal_matching_of_size(
                    adj_view(adj),
                    right_size as int,
                    n,
                ))
        }),
{
    let size = maximum_matching(adj, right_size);
    let smaller = if adj.len() <= right_size {
        adj.len()
    } else {
        right_size
    };
    size == smaller
}

/// The side with the forced win under optimal play.
pub enum ForcedWinner {
    PoolA,
    PoolB,
}

/// Decide the forced winner from a maximum matching size: when the matching
/// saturates the smaller pool, the responding side (Pool B's player, who
/// answers each Pool A name with a matched partner) owns the win; otherwise
/// the naming side does.
pub fn compute_outcome(matching_size: usize, pool_a_size: usize, pool_b_size: usize) -> (r:
    ForcedWinner)
    ensures
        r is PoolB <==> matching_size == (if pool_a_size <= pool_b_size {
            pool_a_size
        } else {
            pool_b_size
        }),
{
    let smaller = if pool_a_size <= pool_b_size {
        pool_a_size
    } else {
        pool_b_size
    };
    if matching_size == smaller {
        ForcedWinner::PoolB
    } else {
        ForcedWinner::PoolA
    }
}

} // verus!
