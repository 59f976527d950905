//! Adjacency builder: from the raw event list to the weighted co-occurrence
//! table.
//!
//! Each event is partitioned into its Pool A and Pool B members (strangers
//! are skipped as unrelated third parties), and every cross-pool pair of the
//! event gets one co-occurrence in each direction.  The weight the finished
//! table records for a pair is exactly the number of events that contain
//! both, symmetrically.

use vstd::prelude::*;

use crate::adjacency::LookupTable;
use crate::pools::Pool;
use crate::pools::pools_disjoint;
use crate::pools::lemma_first_index_of_props;
use crate::pools::first_index_of;

verus! {

/// Whether the event casts a participant with exactly this name.
pub open spec fn event_has(ev: Seq<Seq<char>>, name: Seq<char>) -> bool {
    exists|i: int| 0 <= i < ev.len() && ev[i] == name
}

/// Number of events that cast both names.
pub open spec fn pair_count(events: Seq<Seq<Seq<char>>>, x: Seq<char>, y: Seq<char>) -> int
    decreases events.len(),
{
    if events.len() == 0 {
        0
    } else {
        pair_count(events.drop_last(), x, y) + if event_has(events.last(), x) && event_has(
            events.last(),
            y,
        ) {
            1int
        } else {
            0int
        }
    }
}

/// The pair count grows by at most one per event.
pub proof fn lemma_pair_count_bound(events: Seq<Seq<Seq<char>>>, x: Seq<char>, y: Seq<char>)
    ensures
        0 <= pair_count(events, x, y) <= events.len(),
    decreases events.len(),
{
    if events.len() > 0 {
        lemma_pair_count_bound(events.drop_last(), x, y);
    }
}

/// One event as a sequence of member names.
pub open spec fn event_view(ev: &Vec<String>) -> Seq<Seq<char>> {
    Seq::new(ev@.len(), |i: int| ev@[i]@)
}

/// The whole event list as nested name sequences.
pub open spec fn events_view(events: &Vec<Vec<String>>) -> Seq<Seq<Seq<char>>> {
    Seq::new(events@.len(), |k: int| event_view(&events@[k]))
}

/// Whether global index `x` belongs to the pool's index range.
pub open spec fn in_pool(p: Pool, x: int) -> bool {
    p.offset <= x < p.offset + p.view_names().len()
}

/// The finished table against the event list: each cross-pool pair carries,
/// in both directions, the number of events casting both names, and every
/// other pair of indices carries no weight at all.
pub open spec fn table_models(
    t: LookupTable,
    pa: Pool,
    pb: Pool,
    events: Seq<Seq<Seq<char>>>,
) -> bool {
    &&& forall|a: int, b: int|
        0 <= a < pa.view_names().len() && 0 <= b < pb.view_names().len() ==> #[trigger] t.weight(
            pa.offset + a,
            pb.offset + b,
        ) == pair_count(events, pa.view_names()[a], pb.view_names()[b])
    &&& forall|a: int, b: int|
        0 <= a < pa.view_names().len() && 0 <= b < pb.view_names().len() ==> #[trigger] t.weight(
            pb.offset + b,
            pa.offset + a,
        ) == pair_count(events, pa.view_names()[a], pb.view_names()[b])
    &&& forall|x: int, y: int|
        !((in_pool(pa, x) && in_pool(pb, y)) || (in_pool(pb, x) && in_pool(pa, y)))
            ==> #[trigger] t.weight(x, y) == 0
}

/// Whether the list already holds this index.
fn contains_value(list: &Vec<usize>, x: usize) -> (r: bool)
    ensures
        r == list@.contains(x),
{
    let mut i: usize = 0;
    while i < list.len()
        invariant
            i <= list@.len(),
            forall|j: int| 0 <= j < i ==> list@[j] != x,
        decreases list@.len() - i,
    {
        if list[i] == x {
            return true;
        }
        i += 1;
    }
    proof {
        assert(!list@.contains(x));
    }
    false
}


/// Append an index unless the list already holds it; the list stays
/// duplicate-free and otherwise unchanged.
fn push_unique(list: &mut Vec<usize>, x: usize)
    requires
        old(list)@.no_duplicates(),
    ensures
        final(list)@.no_duplicates(),
        final(list)@.contains(x),
        old(list)@.len() <= final(list)@.len() <= old(list)@.len() + 1,
        forall|idx: int| 0 <= idx < old(list)@.len() ==> final(list)@[idx] == old(list)@[idx],
        forall|idx: int|
            old(list)@.len() <= idx < final(list)@.len() ==> final(list)@[idx] == x,
        forall|y: usize| old(list)@.contains(y) ==> final(list)@.contains(y),
        forall|y: usize| final(list)@.contains(y) ==> old(list)@.contains(y) || y == x,
{
    if !contains_value(list, x) {
        let ghost l0 = list@;
        list.push(x);
        proof {
            assert(list@[l0.len() as int] == x);
            assert forall|y: usize| l0.contains(y) implies list@.contains(y) by {
                let w = choose|w: int| 0 <= w < l0.len() && l0[w] == y;
                assert(list@[w] == y);
            }
            assert forall|y: usize| list@.contains(y) implies l0.contains(y) || y == x by {
                let w = choose|w: int| 0 <= w < list@.len() && list@[w] == y;
                if w < l0.len() {
                    assert(l0[w] == y);
                }
            }
            assert(list@.no_duplicates()) by {
                assert forall|i: int, j: int|
                    0 <= i < list@.len() && 0 <= j < list@.len() && i != j implies list@[i]
                        != list@[j] by {
                    if i < l0.len() && j < l0.len() {
                        assert(list@[i] == l0[i] && list@[j] == l0[j]);
                    } else if i < l0.len() {
                        assert(list@[j] == x && list@[i] == l0[i]);
                        if l0[i] == x {
                            assert(l0.contains(x));
                        }
                    } else {
                        assert(list@[i] == x && list@[j] == l0[j]);
                        if l0[j] == x {
                            assert(l0.contains(x));
                        }
                    }
                }
            }
        }
    }
}

/// Partition an event's members into the global indices of its Pool A and
/// Pool B participants, each side without duplicates; members in neither
/// pool are skipped.
#[verifier::loop_isolation(false)]
pub fn classify_event(ev: &Vec<String>, pool_a: &Pool, pool_b: &Pool) -> (r: (Vec<usize>, Vec<
    usize,
>))
    requires
        pool_a.wf(),
        pool_b.wf(),
        pool_a.distinct(),
        pool_b.distinct(),
        pools_disjoint(*pool_a, *pool_b),
    ensures
        r.0@.no_duplicates(),
        r.1@.no_duplicates(),
        forall|idx: int|
            0 <= idx < r.0@.len() ==> in_pool(*pool_a, #[trigger] r.0@[idx] as int) && event_has(
                event_view(ev),
                pool_a.view_names()[r.0@[idx] - pool_a.offset],
            ),
        forall|idx: int|
            0 <= idx < r.1@.len() ==> in_pool(*pool_b, #[trigger] r.1@[idx] as int) && event_has(
                event_view(ev),
                pool_b.view_names()[r.1@[idx] - pool_b.offset],
            ),
        forall|i: int|
            0 <= i < pool_a.view_names().len() && event_has(
                event_view(ev),
                #[trigger] pool_a.view_names()[i],
            ) ==> r.0@.contains((pool_a.offset + i) as usize),
        forall|i: int|
            0 <= i < pool_b.view_names().len() && event_has(
                event_view(ev),
                #[trigger] pool_b.view_names()[i],
            ) ==> r.1@.contains((pool_b.offset + i) as usize),
{
    let mut ai: Vec<usize> = Vec::new();
    let mut bi: Vec<usize> = Vec::new();
    let mut s: usize = 0;
    while s < ev.len()
        invariant
            s <= ev@.len(),
            ai@.no_duplicates(),
            bi@.no_duplicates(),
            forall|idx: int|
                0 <= idx < ai@.len() ==> in_pool(*pool_a, #[trigger] ai@[idx] as int) && event_has(
                    event_view(ev).take(s as int),
                    pool_a.view_names()[ai@[idx] - pool_a.offset],
                ),
            forall|idx: int|
                0 <= idx < bi@.len() ==> in_pool(*pool_b, #[trigger] bi@[idx] as int) && event_has(
                    event_view(ev).take(s as int),
                    pool_b.view_names()[bi@[idx] - pool_b.offset],
                ),
            forall|i: int|
                0 <= i < pool_a.view_names().len() && event_has(
                    event_view(ev).take(s as int),
                    #[trigger] pool_a.view_names()[i],
                ) ==> ai@.contains((pool_a.offset + i) as usize),
            forall|i: int|
                0 <= i < pool_b.view_names().len() && event_has(
                    event_view(ev).take(s as int),
                    #[trigger] pool_b.view_names()[i],
                ) ==> bi@.contains((pool_b.offset + i) as usize),
        decreases ev@.len() - s,
    {
        let ghost pre = event_view(ev).take(s as int);
        let ghost post = event_view(ev).take(s as int + 1);
        proof {
            assert(post.drop_last() =~= pre);
            assert(post.last() == event_view(ev)[s as int]);
            assert(event_view(ev)[s as int] == ev@[s as int]@);
            assert forall|n: Seq<char>| #[trigger] event_has(post, n) implies event_has(pre, n)
                || n == ev@[s as int]@ by {
                let w = choose|i: int| 0 <= i < post.len() && post[i] == n;
                if w < s as int {
                    assert(pre[w] == n);
                }
            }
            assert forall|n: Seq<char>| event_has(pre, n) implies #[trigger] event_has(
                post,
                n,
            ) by {
                let w = choose|i: int| 0 <= i < pre.len() && pre[i] == n;
                assert(post[w] == n);
            }
            assert(event_has(post, ev@[s as int]@)) by {
                assert(post[s as int] == ev@[s as int]@);
            }
        }
        let name = &ev[s];
        let in_a = pool_a.index_of(name);
        match in_a {
            Some(g) => {
                proof {
                    lemma_first_index_of_props(pool_a.view_names(), name@);
                    let k = first_index_of(pool_a.view_names(), name@).unwrap();
                    assert(pool_a.view_names()[k] == name@);
                    assert(g as int == pool_a.offset + k);
                    assert forall|i: int|
                        0 <= i < pool_a.view_names().len() && pool_a.view_names()[i] == name@
                            implies (pool_a.offset + i) as usize == g by {
                        if i != k {
                            assert(pool_a.view_names()[k] == pool_a.view_names()[i]);
                        }
                    }
                    assert forall|i: int|
                        0 <= i < pool_b.view_names().len() implies pool_b.view_names()[i]
                            != name@ by {
                        let k2 = first_index_of(pool_a.view_names(), name@).unwrap();
                        assert(pool_a.view_names()[k2] == name@);
                    }
                }
                push_unique(&mut ai, g);
            },
            None => {
                proof {
                    lemma_first_index_of_props(pool_a.view_names(), name@);
                }
                let in_b = pool_b.index_of(name);
                match in_b {
                    Some(g) => {
                        proof {
                            lemma_first_index_of_props(pool_b.view_names(), name@);
                            let k = first_index_of(pool_b.view_names(), name@).unwrap();
                            assert(pool_b.view_names()[k] == name@);
                            assert(g as int == pool_b.offset + k);
                            assert forall|i: int|
                                0 <= i < pool_b.view_names().len() && pool_b.view_names()[i]
                                    == name@ implies (pool_b.offset + i) as usize == g by {
                                if i != k {
                                    assert(pool_b.view_names()[k] == pool_b.view_names()[i]);
                                }
                            }
                        }
                        push_unique(&mut bi, g);
                    },
                    None => {
                        proof {
                            lemma_first_index_of_props(pool_b.view_names(), name@);
                        }
                    },
                }
            },
        }
        s += 1;
    }
    proof {
        assert(event_view(ev).take(ev@.len() as int) =~= event_view(ev));
    }
    (ai, bi)
}

/// Cross-product pairs the recording loop has already handled: every pair
/// whose Pool A position is before `i`, or at `i` with Pool B position
/// before `jj`.
pub open spec fn processed(
    ai: Seq<usize>,
    bi: Seq<usize>,
    i: int,
    jj: int,
    x: int,
    y: int,
) -> bool {
    exists|s: int, t: int|
        0 <= s < ai.len() && 0 <= t < bi.len() && (s < i || (s == i && t < jj)) && ai[s] == x
            && bi[t] == y
}

/// Build the weighted adjacency table from the event list: for every event
/// and every cross-pool pair of its members, one co-occurrence in each
/// direction.  The finished table records, for each pair of participants,
/// exactly the number of events casting both — see `table_models`.
#[verifier::loop_isolation(false)]
#[verifier::rlimit(100)]
pub fn build_adjacency(events: &Vec<Vec<String>>, pool_a: &Pool, pool_b: &Pool) -> (t:
    LookupTable)
    requires
        pool_a.wf(),
        pool_b.wf(),
        pool_a.distinct(),
        pool_b.distinct(),
        pools_disjoint(*pool_a, *pool_b),
        pool_a.offset == 0,
        pool_b.offset == pool_a.names@.len(),
    ensures
        t.wf(),
        table_models(t, *pool_a, *pool_b, events_view(events)),
        t.rows().len() <= pool_b.offset + pool_b.names@.len(),
{
    let mut t = LookupTable::new();
    let m = events.len();
    let mut k: usize = 0;
    while k < m
        invariant
            k <= m,
            t.wf(),
            table_models(t, *pool_a, *pool_b, events_view(events).take(k as int)),
            forall|x: int, y: int| #[trigger] t.weight(x, y) <= k,
            t.rows().len() <= pool_b.offset + pool_b.names@.len(),
        decreases m - k,
    {
        let ghost evs_pre = events_view(events).take(k as int);
        let ghost evs_post = events_view(events).take(k as int + 1);
        let ev = &events[k];
        proof {
            assert(evs_post.drop_last() =~= evs_pre);
            assert(event_view(ev) =~= evs_post.last());
        }
        let classified = classify_event(ev, pool_a, pool_b);
        let ai = classified.0;
        let bi = classified.1;
        let ghost t0 = t;
        let an = ai.len();
        let bn = bi.len();
        let mut i: usize = 0;
        while i < an
            invariant
                i <= an,
                an == ai@.len(),
                bn == bi@.len(),
                t.wf(),
                forall|x: int, y: int| #[trigger] t.weight(x, y) == t0.weight(x, y) + (
                if processed(ai@, bi@, i as int, 0, x, y) {
                    1int
                } else {
                    0int
                }) + (if processed(ai@, bi@, i as int, 0, y, x) {
                    1int
                } else {
                    0int
                }),
                t.rows().len() <= pool_b.offset + pool_b.names@.len(),
            decreases an - i,
        {
            let ga = ai[i];
            let mut jj: usize = 0;
            while jj < bn
                invariant
                    jj <= bn,
                    i < an,
                    ga == ai@[i as int],
                    t.wf(),
                    forall|x: int, y: int| #[trigger] t.weight(x, y) == t0.weight(x, y) + (
                    if processed(ai@, bi@, i as int, jj as int, x, y) {
                        1int
                    } else {
                        0int
                    }) + (if processed(ai@, bi@, i as int, jj as int, y, x) {
                        1int
                    } else {
                        0int
                    }),
                    t.rows().len() <= pool_b.offset + pool_b.names@.len(),
                decreases bn - jj,
            {
                let gb = bi[jj];
                let ghost t1 = t;
                proof {
                    assert(in_pool(*pool_a, ga as int));
                    assert(in_pool(*pool_b, gb as int));
                    assert(!processed(ai@, bi@, i as int, jj as int, ga as int, gb as int)) by {
                        if processed(ai@, bi@, i as int, jj as int, ga as int, gb as int) {
                            let (s, tt) = choose|s: int, tt: int|
                                0 <= s < ai@.len() && 0 <= tt < bi@.len() && (s < i as int || (s
                                    == i as int && tt < jj as int)) && ai@[s] == ga && bi@[tt]
                                    == gb;
                            assert(s == i as int);
                            assert(tt == jj as int);
                        }
                    }
                    assert(!processed(ai@, bi@, i as int, jj as int, gb as int, ga as int)) by {
                        if processed(ai@, bi@, i as int, jj as int, gb as int, ga as int) {
                            let (s, tt) = choose|s: int, tt: int|
                                0 <= s < ai@.len() && 0 <= tt < bi@.len() && (s < i as int || (s
                                    == i as int && tt < jj as int)) && ai@[s] == gb && bi@[tt]
                                    == ga;
                            assert(in_pool(*pool_a, ai@[s] as int));
                        }
                    }
                    assert(t.weight(ga as int, gb as int) == t0.weight(ga as int, gb as int));
                    assert(t.weight(gb as int, ga as int) == t0.weight(gb as int, ga as int));
                    assert(t.weight(ga as int, gb as int) < u64::MAX);
                    assert(t.weight(gb as int, ga as int) < u64::MAX);
                }
                t.add_edge(ga, gb);
                let ghost t2 = t;
                proof {
                    assert(t2.weight(gb as int, ga as int) == t1.weight(gb as int, ga as int));
                    assert(t2.weight(gb as int, ga as int) < u64::MAX);
                }
                t.add_edge(gb, ga);
                proof {
                    let t3 = t;
                    assert forall|x: int, y: int| #[trigger] t3.weight(x, y) == t0.weight(x, y)
                        + (if processed(ai@, bi@, i as int, jj as int + 1, x, y) {
                        1int
                    } else {
                        0int
                    }) + (if processed(ai@, bi@, i as int, jj as int + 1, y, x) {
                        1int
                    } else {
                        0int
                    }) by {
                        if x == ga as int && y == gb as int {
                            assert(processed(ai@, bi@, i as int, jj as int + 1, x, y)) by {
                                assert(ai@[i as int] == ga && bi@[jj as int] == gb);
                            }
                            assert(!processed(ai@, bi@, i as int, jj as int + 1, y, x)) by {
                                if processed(ai@, bi@, i as int, jj as int + 1, y, x) {
                                    let (s, tt) = choose|s: int, tt: int|
                                        0 <= s < ai@.len() && 0 <= tt < bi@.len() && (s
                                            < i as int || (s == i as int && tt < jj as int + 1))
                                            && ai@[s] == gb && bi@[tt] == ga;
                                    assert(in_pool(*pool_a, ai@[s] as int));
                                }
                            }
                        } else if x == gb as int && y == ga as int {
                            assert(processed(ai@, bi@, i as int, jj as int + 1, y, x)) by {
                                assert(ai@[i as int] == ga && bi@[jj as int] == gb);
                            }
                            assert(!processed(ai@, bi@, i as int, jj as int + 1, x, y)) by {
                                if processed(ai@, bi@, i as int, jj as int + 1, x, y) {
                                    let (s, tt) = choose|s: int, tt: int|
                                        0 <= s < ai@.len() && 0 <= tt < bi@.len() && (s
                                            < i as int || (s == i as int && tt < jj as int + 1))
                                            && ai@[s] == gb && bi@[tt] == ga;
                                    assert(in_pool(*pool_a, ai@[s] as int));
                                }
                            }
                        } else {
                            assert(t3.weight(x, y) == t1.weight(x, y));
                            assert(processed(ai@, bi@, i as int, jj as int + 1, x, y)
                                == processed(ai@, bi@, i as int, jj as int, x, y)) by {
                                if processed(ai@, bi@, i as int, jj as int + 1, x, y)
                                    && !processed(ai@, bi@, i as int, jj as int, x, y) {
                                    let (s, tt) = choose|s: int, tt: int|
                                        0 <= s < ai@.len() && 0 <= tt < bi@.len() && (s
                                            < i as int || (s == i as int && tt < jj as int + 1))
                                            && ai@[s] == x && bi@[tt] == y;
                                    assert(s == i as int && tt == jj as int);
                                }
                                if processed(ai@, bi@, i as int, jj as int, x, y) {
                                    let (s, tt) = choose|s: int, tt: int|
                                        0 <= s < ai@.len() && 0 <= tt < bi@.len() && (s
                                            < i as int || (s == i as int && tt < jj as int))
                                            && ai@[s] == x && bi@[tt] == y;
                                    assert(processed(ai@, bi@, i as int, jj as int + 1, x, y));
                                }
                            }
                            assert(processed(ai@, bi@, i as int, jj as int + 1, y, x)
                                == processed(ai@, bi@, i as int, jj as int, y, x)) by {
                                if processed(ai@, bi@, i as int, jj as int + 1, y, x)
                                    && !processed(ai@, bi@, i as int, jj as int, y, x) {
                                    let (s, tt) = choose|s: int, tt: int|
                                        0 <= s < ai@.len() && 0 <= tt < bi@.len() && (s
                                            < i as int || (s == i as int && tt < jj as int + 1))
                                            && ai@[s] == y && bi@[tt] == x;
                                    assert(s == i as int && tt == jj as int);
                                }
                                if processed(ai@, bi@, i as int, jj as int, y, x) {
                                    let (s, tt) = choose|s: int, tt: int|
                                        0 <= s < ai@.len() && 0 <= tt < bi@.len() && (s
                                            < i as int || (s == i as int && tt < jj as int))
                                            && ai@[s] == y && bi@[tt] == x;
                                    assert(processed(ai@, bi@, i as int, jj as int + 1, y, x));
                                }
                            }
                        }
                    }
                }
                jj += 1;
            }
            proof {
                assert forall|x: int, y: int|
                    processed(ai@, bi@, i as int, bn as int, x, y) == processed(
                        ai@,
                        bi@,
                        i as int + 1,
                        0,
                        x,
                        y,
                    ) by {
                    if processed(ai@, bi@, i as int, bn as int, x, y) {
                        let (s, tt) = choose|s: int, tt: int|
                            0 <= s < ai@.len() && 0 <= tt < bi@.len() && (s < i as int || (s
                                == i as int && tt < bn as int)) && ai@[s] == x && bi@[tt] == y;
                        assert(s < i as int + 1);
                        assert(processed(ai@, bi@, i as int + 1, 0, x, y));
                    }
                    if processed(ai@, bi@, i as int + 1, 0, x, y) {
                        let (s, tt) = choose|s: int, tt: int|
                            0 <= s < ai@.len() && 0 <= tt < bi@.len() && (s < i as int + 1 || (s
                                == i as int + 1 && tt < 0)) && ai@[s] == x && bi@[tt] == y;
                        assert(processed(ai@, bi@, i as int, bn as int, x, y));
                    }
                }
            }
            i += 1;
        }
        proof {
            let av = pool_a.view_names();
            let bv = pool_b.view_names();
            assert forall|x: int, y: int|
                processed(ai@, bi@, an as int, 0, x, y) == (ai@.contains(x as usize)
                    && bi@.contains(y as usize) && 0 <= x <= usize::MAX && 0 <= y
                    <= usize::MAX) by {
                if processed(ai@, bi@, an as int, 0, x, y) {
                    let (s, tt) = choose|s: int, tt: int|
                        0 <= s < ai@.len() && 0 <= tt < bi@.len() && (s < an as int || (s
                            == an as int && tt < 0)) && ai@[s] == x && bi@[tt] == y;
                    assert(ai@.contains(x as usize) && bi@.contains(y as usize));
                    assert(in_pool(*pool_a, ai@[s] as int));
                }
                if ai@.contains(x as usize) && bi@.contains(y as usize) && 0 <= x <= usize::MAX
                    && 0 <= y <= usize::MAX {
                    let s = choose|s: int| 0 <= s < ai@.len() && ai@[s] == x as usize;
                    let tt = choose|tt: int| 0 <= tt < bi@.len() && bi@[tt] == y as usize;
                    assert(processed(ai@, bi@, an as int, 0, x, y));
                }
            }
            assert forall|a: int, b: int|
                0 <= a < av.len() && 0 <= b < bv.len() implies t.weight(pool_a.offset + a,
                pool_b.offset + b) == pair_count(evs_post, av[a], bv[b]) && t.weight(
                pool_b.offset + b,
                pool_a.offset + a,
            ) == pair_count(evs_post, av[a], bv[b]) && t.weight(pool_a.offset + a, pool_b.offset
                + b) <= k + 1 by {
                let ga2 = pool_a.offset + a;
                let gb2 = pool_b.offset + b;
                assert(ai@.contains(ga2 as usize) == event_has(event_view(ev), av[a])) by {
                    if ai@.contains(ga2 as usize) {
                        let s = choose|s: int| 0 <= s < ai@.len() && ai@[s] == ga2 as usize;
                        assert(in_pool(*pool_a, ai@[s] as int));
                        assert(event_has(event_view(ev), av[ai@[s] - pool_a.offset]));
                    }
                }
                assert(bi@.contains(gb2 as usize) == event_has(event_view(ev), bv[b])) by {
                    if bi@.contains(gb2 as usize) {
                        let s = choose|s: int| 0 <= s < bi@.len() && bi@[s] == gb2 as usize;
                        assert(in_pool(*pool_b, bi@[s] as int));
                        assert(event_has(event_view(ev), bv[bi@[s] - pool_b.offset]));
                    }
                }
                assert(!processed(ai@, bi@, an as int, 0, gb2, ga2)) by {
                    if processed(ai@, bi@, an as int, 0, gb2, ga2) {
                        assert(ai@.contains(gb2 as usize));
                        let s = choose|s: int| 0 <= s < ai@.len() && ai@[s] == gb2 as usize;
                        assert(in_pool(*pool_a, ai@[s] as int));
                    }
                }
                assert(pair_count(evs_post, av[a], bv[b]) == pair_count(evs_pre, av[a], bv[b])
                    + (if event_has(event_view(ev), av[a]) && event_has(event_view(ev), bv[b]) {
                    1int
                } else {
                    0int
                }));
                lemma_pair_count_bound(evs_pre, av[a], bv[b]);
                assert(t0.weight(ga2, gb2) == pair_count(evs_pre, av[a], bv[b]));
                assert(t0.weight(gb2, ga2) == pair_count(evs_pre, av[a], bv[b]));
            }
            assert forall|x: int, y: int|
                !((in_pool(*pool_a, x) && in_pool(*pool_b, y)) || (in_pool(*pool_b, x)
                    && in_pool(*pool_a, y))) implies #[trigger] t.weight(x, y) == 0 by {
                assert(!processed(ai@, bi@, an as int, 0, x, y)) by {
                    if processed(ai@, bi@, an as int, 0, x, y) {
                        let s = choose|s: int| 0 <= s < ai@.len() && ai@[s] == x as usize;
                        let tt = choose|tt: int| 0 <= tt < bi@.len() && bi@[tt] == y as usize;
                        assert(in_pool(*pool_a, ai@[s] as int));
                        assert(in_pool(*pool_b, bi@[tt] as int));
                    }
                }
                assert(!processed(ai@, bi@, an as int, 0, y, x)) by {
                    if processed(ai@, bi@, an as int, 0, y, x) {
                        let s = choose|s: int| 0 <= s < ai@.len() && ai@[s] == y as usize;
                        let tt = choose|tt: int| 0 <= tt < bi@.len() && bi@[tt] == x as usize;
                        assert(in_pool(*pool_a, ai@[s] as int));
                        assert(in_pool(*pool_b, bi@[tt] as int));
                    }
                }
                assert(t0.weight(x, y) == 0);
            }
            assert forall|x: int, y: int| #[trigger] t.weight(x, y) <= k + 1 by {
                if !((in_pool(*pool_a, x) && in_pool(*pool_b, y)) || (in_pool(*pool_b, x)
                    && in_pool(*pool_a, y))) {
                    assert(t.weight(x, y) == 0);
                } else if in_pool(*pool_a, x) && in_pool(*pool_b, y) {
                    let a = x - pool_a.offset;
                    let b = y - pool_b.offset;
                    assert(t.weight(pool_a.offset + a, pool_b.offset + b) <= k + 1);
                } else {
                    let a = y - pool_a.offset;
                    let b = x - pool_b.offset;
                    assert(t.weight(pool_b.offset + b, pool_a.offset + a) == pair_count(
                        evs_post,
                        av[a],
                        bv[b],
                    ));
                    lemma_pair_count_bound(evs_post, av[a], bv[b]);
                }
            }
        }
        k += 1;
    }
    proof {
        assert(events_view(events).take(m as int) =~= events_view(events));
    }
    t
}

/// The bipartite relation the matching engine consumes: for each Pool A
/// index `a`, the Pool B indices whose participants share at least one
/// event with `a`'s.
#[verifier::loop_isolation(false)]
pub fn relation_of(t: &LookupTable, a_len: usize, b_len: usize) -> (r: Vec<Vec<usize>>)
    requires
        t.wf(),
        a_len + b_len <= usize::MAX,
    ensures
        r@.len() == a_len,
        crate::matching::adj_wf(crate::matching::adj_view(&r), b_len as int),
        forall|a: int, b: int|
            0 <= a < a_len && 0 <= b < b_len ==> (crate::matching::edge(
                crate::matching::adj_view(&r),
                a,
                b,
            ) <==> t.has_edge(a, a_len + b)),
{
    let mut r: Vec<Vec<usize>> = Vec::new();
    let mut a: usize = 0;
    while a < a_len
        invariant
            a <= a_len,
            r@.len() == a,
            forall|a2: int, k: int|
                0 <= a2 < a && 0 <= k < r@[a2]@.len() ==> (#[trigger] r@[a2]@[k]) < b_len,
            forall|a2: int, b: int|
                0 <= a2 < a && 0 <= b < b_len ==> ((exists|k: int|
                    0 <= k < r@[a2]@.len() && (#[trigger] r@[a2]@[k]) == b)
                    <==> #[trigger] t.has_edge(a2, a_len + b)),
        decreases a_len - a,
    {
        let mut row: Vec<usize> = Vec::new();
        if a < t.table.len() {
            let rl = t.table[a].len();
            let mut kk: usize = 0;
            while kk < rl
                invariant
                    kk <= rl,
                    a < t.rows().len(),
                    rl == t.rows()[a as int].len(),
                    forall|k: int| 0 <= k < row@.len() ==> (#[trigger] row@[k]) < b_len,
                    forall|b: int|
                        0 <= b < b_len ==> ((#[trigger] row@.contains(b as usize)) <==> exists|
                            e: int,
                        |
                            0 <= e < kk && (#[trigger] t.rows()[a as int][e]).partner as int
                                == a_len + b),
                decreases rl - kk,
            {
                let p = t.table[a][kk].partner;
                let ghost row0 = row@;
                if p >= a_len && p - a_len < b_len {
                    row.push(p - a_len);
                    proof {
                        assert(row@[row0.len() as int] == (p - a_len) as usize);
                        assert forall|b: int| 0 <= b < b_len implies ((#[trigger] row@.contains(
                            b as usize,
                        )) <==> exists|e: int|
                            0 <= e < kk + 1 && (#[trigger] t.rows()[a as int][e]).partner as int
                                == a_len + b) by {
                            if row@.contains(b as usize) {
                                let w = choose|w: int|
                                    0 <= w < row@.len() && row@[w] == b as usize;
                                if w < row0.len() {
                                    assert(row0[w] == b as usize);
                                    assert(row0.contains(b as usize));
                                } else {
                                    assert(t.rows()[a as int][kk as int].partner as int == a_len
                                        + b);
                                }
                            }
                            if exists|e: int|
                                0 <= e < kk + 1 && (#[trigger] t.rows()[a as int][e]).partner
                                    as int == a_len + b {
                                let e = choose|e: int|
                                    0 <= e < kk + 1 && (#[trigger] t.rows()[a as int][e]).partner as int == a_len + b;
                                if e < kk {
                                    assert(row0.contains(b as usize));
                                    let w = choose|w: int|
                                        0 <= w < row0.len() && row0[w] == b as usize;
                                    assert(row@[w] == b as usize);
                                } else {
                                    assert(row@[row0.len() as int] == b as usize);
                                }
                            }
                        }
                    }
                } else {
                    proof {
                        assert forall|b: int| 0 <= b < b_len implies ((#[trigger] row@.contains(
                            b as usize,
                        )) <==> exists|e: int|
                            0 <= e < kk + 1 && (#[trigger] t.rows()[a as int][e]).partner as int
                                == a_len + b) by {
                            if exists|e: int|
                                0 <= e < kk + 1 && (#[trigger] t.rows()[a as int][e]).partner
                                    as int == a_len + b {
                                let e = choose|e: int|
                                    0 <= e < kk + 1 && (#[trigger] t.rows()[a as int][e]).partner as int == a_len + b;
                                assert(e < kk);
                            }
                        }
                    }
                }
                kk += 1;
            }
        }
        let ghost rpre = r@;
        r.push(row);
        proof {
            assert(r@[a as int] == row);
            assert(forall|a2: int| 0 <= a2 < a ==> r@[a2] == rpre[a2]);
            assert forall|b: int| 0 <= b < b_len implies ((exists|k: int|
                0 <= k < r@[a as int]@.len() && (#[trigger] r@[a as int]@[k]) == b)
                <==> #[trigger] t.has_edge(a as int, a_len + b)) by {
                if a < t.rows().len() {
                    if exists|k: int| 0 <= k < row@.len() && row@[k] == b {
                        let w = choose|w: int| 0 <= w < row@.len() && row@[w] == b;
                        assert(row@.contains(b as usize));
                    }
                    if row@.contains(b as usize) {
                        let w = choose|w: int| 0 <= w < row@.len() && row@[w] == b as usize;
                    }
                    if t.has_edge(a as int, a_len + b) {
                        let e = choose|e: int|
                            0 <= e < t.rows()[a as int].len() && (#[trigger] t.rows()[a as int][e]).partner == (a_len + b) as usize;
                        assert(t.rows()[a as int][e].partner as int == a_len + b);
                    }
                } else {
                    assert(row@.len() == 0);
                    assert(!t.has_edge(a as int, a_len + b));
                }
            }
        }
        a += 1;
    }
    proof {
        assert forall|a2: int, b: int|
            0 <= a2 < a_len && 0 <= b < b_len implies (crate::matching::edge(
                crate::matching::adj_view(&r),
                a2,
                b,
            ) <==> t.has_edge(a2, a_len + b)) by {
            assert(crate::matching::adj_view(&r)[a2] == r@[a2]@);
        }
    }
    r
}

/// Round trip: a table built from the events answers `weight(a, b)` and
/// `weight(b, a)` with the same count for every cross-pool pair.
pub proof fn lemma_weight_symmetric(
    t: LookupTable,
    pa: Pool,
    pb: Pool,
    events: Seq<Seq<Seq<char>>>,
    a: int,
    b: int,
)
    requires
        table_models(t, pa, pb, events),
        0 <= a < pa.view_names().len(),
        0 <= b < pb.view_names().len(),
    ensures
        t.weight(pa.offset + a, pb.offset + b) == t.weight(pb.offset + b, pa.offset + a),
{
}

} // verus!
