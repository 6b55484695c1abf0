//! The executable search.  Every function here is proved to follow the
//! machine of [`crate::model`] exactly.

use vstd::prelude::*;
use std::collections::HashMap;
use crate::graph::{Node, SearchError};
use crate::model::{
    expand_from, init_state, insert_pos, insert_sorted, needs_push, relax_queue, result_view, run,
    search_spec, sort_by_score, step, visit_neighbor, EntryView, Outcome, SearchState, SearchStep,
};
use crate::frontier::{group_views_facts, lemma_views_after_pop, views, Entry};

verus! {

broadcast use vstd::std_specs::hash::group_hash_axioms, group_views_facts;

/// A fresh vector holding the same labels.
fn copy_labels(v: &Vec<u64>) -> (r: Vec<u64>)
    ensures
        r@ == v@,
{
    let mut r: Vec<u64> = Vec::new();
    let mut i: usize = 0;
    while i < v.len()
        invariant
            i <= v@.len(),
            r@ == v@.take(i as int),
        decreases v@.len() - i,
    {
        r.push(v[i]);
        proof {
            assert(r@ =~= v@.take(i + 1));
        }
        i = i + 1;
    }
    proof {
        assert(v@.take(v@.len() as int) =~= v@);
    }
    r
}

/// `insert_pos` is the one index with nothing worse than `score` before it
/// and something strictly worse at it, if anything at all.
proof fn lemma_insert_pos_is(q: Seq<EntryView>, score: u64, j: int)
    requires
        0 <= j <= q.len(),
        forall|k: int| 0 <= k < j ==> (#[trigger] q[k]).score <= score,
        j < q.len() ==> q[j].score > score,
    ensures
        j == insert_pos(q, score),
    decreases q.len(),
{
    if q.len() == 0 {
    } else if q[0].score > score {
        assert(j == 0);
    } else {
        assert(j >= 1);
        let tail = q.drop_first();
        assert(forall|k: int| 0 <= k < j - 1 ==> (#[trigger] tail[k]).score <= score);
        lemma_insert_pos_is(tail, score, j - 1);
    }
}

/// Inserts one entry into an already sorted frontier, after every entry
/// scoring less than or equal to it.
fn place_entry(q: &mut Vec<Entry>, e: Entry)
    ensures
        views(final(q)@) == insert_sorted(views(old(q)@), e@),
{
    let mut j: usize = 0;
    while j < q.len() && q[j].score <= e.score
        invariant
            j <= q@.len(),
            q@ == old(q)@,
            forall|k: int| 0 <= k < j ==> (#[trigger] views(q@)[k]).score <= e@.score,
        decreases q@.len() - j,
    {
        j = j + 1;
    }
    proof {
        lemma_insert_pos_is(views(q@), e@.score, j as int);
    }
    q.insert(j, e);
    proof {
        assert(views(q@) =~= insert_sorted(views(old(q)@), e@));
    }
}

/// Sorts the frontier ascending by score; entries with equal scores keep
/// their relative order.
fn sort_queue(q: Vec<Entry>) -> (r: Vec<Entry>)
    ensures
        views(r@) == sort_by_score(views(q@)),
{
    let mut q = q;
    let mut r: Vec<Entry> = Vec::new();
    let ghost whole: Seq<Entry> = q@;
    let mut i: usize = 0;
    let n = q.len();
    while i < n
        invariant
            i <= whole.len(),
            n == whole.len(),
            q@ == whole.skip(i as int),
            views(r@) == sort_by_score(views(whole.take(i as int))),
        decreases n - i,
    {
        let e = q.remove(0);
        proof {
            assert(q@ =~= whole.skip(i + 1));
            assert(e == whole[i as int]);
            let prefix = views(whole.take(i as int));
            let prefix1 = views(whole.take(i + 1));
            assert(prefix1.drop_last() =~= prefix);
            assert(prefix1.last() == e@);
        }
        place_entry(&mut r, e);
        i = i + 1;
    }
    proof {
        assert(whole.take(whole.len() as int) =~= whole);
    }
    r
}

/// Rewrites the frontier for a rediscovered label under the worse-or-equal
/// dominance rule, and reports whether a fresh entry still has to be pushed.
fn relax_entries(q: Vec<Entry>, label: u64, score: u64, path: &Vec<u64>, dist: u64) -> (r: (
    Vec<Entry>,
    bool,
))
    ensures
        views(r.0@) == relax_queue(views(q@), label, score, path@, dist),
        r.1 == needs_push(views(q@), label, score),
{
    let mut q = q;
    let mut out: Vec<Entry> = Vec::new();
    let mut fresh_needed = true;
    let ghost whole: Seq<Entry> = q@;
    let mut i: usize = 0;
    let n = q.len();
    while i < n
        invariant
            i <= whole.len(),
            n == whole.len(),
            q@ == whole.skip(i as int),
            views(out@) == relax_queue(views(whole.take(i as int)), label, score, path@, dist),
            fresh_needed == needs_push(views(whole.take(i as int)), label, score),
        decreases n - i,
    {
        let e = q.remove(0);
        proof {
            assert(q@ =~= whole.skip(i + 1));
            assert(e == whole[i as int]);
        }
        let ghost ev = e@;
        let matched = e.label == label && e.score >= score;
        if matched {
            fresh_needed = false;
            let npath = copy_labels(path);
            out.push(Entry { label, score, path: npath, dist });
        } else {
            out.push(e);
        }
        proof {
            let prefv = views(whole.take(i as int));
            let prefv1 = views(whole.take(i + 1));
            assert(prefv1 =~= prefv.push(ev));
            let relaxed = relax_queue(prefv1, label, score, path@, dist);
            let before = relax_queue(prefv, label, score, path@, dist);
            assert forall|k: int| 0 <= k < views(out@).len() implies views(out@)[k]
                == relaxed[k] by {
                if k < prefv.len() {
                    assert(prefv1[k] == prefv[k]);
                    assert(views(out@)[k] == before.push(views(out@)[prefv.len() as int])[k]);
                    assert(before[k] == relaxed[k]);
                } else {
                    assert(prefv1[k] == ev);
                }
            }
            assert(views(out@) =~= relaxed);
            if matched {
                assert(prefv1[prefv.len() as int] == ev);
                assert(!needs_push(prefv1, label, score));
            } else if fresh_needed {
                assert forall|k: int| 0 <= k < prefv1.len() implies !((#[trigger] prefv1[k]).label
                    == label && prefv1[k].score >= score) by {
                    if k < prefv.len() {
                        assert(prefv1[k] == prefv[k]);
                    } else {
                        assert(prefv1[k] == ev);
                    }
                }
            } else {
                let k = choose|k: int|
                    0 <= k < prefv.len() && (#[trigger] prefv[k]).label == label
                        && prefv[k].score >= score;
                assert(prefv1[k] == prefv[k]);
                assert(!needs_push(prefv1, label, score));
            }
        }
        i = i + 1;
    }
    proof {
        assert(whole.take(whole.len() as int) =~= whole);
    }
    (out, fresh_needed)
}

/// Finds the lowest-scoring path from `start` to `end`, giving the search an
/// explicit budget of loop iterations.  The budget bounds the running time on
/// graphs whose zero-distance cycles and score ties would otherwise let the
/// frontier live forever; `Err(SearchError::IterationLimit)` reports a spent
/// budget.  Everything returned is pinned to the machine of [`crate::model`]
/// by [`search_spec`].
#[verifier::loop_isolation(false)]
pub fn astar_path_with_limit(
    start: u64,
    nodes: &HashMap<u64, Node>,
    end: u64,
    limit: u64,
) -> (r: Result<Option<Vec<u64>>, SearchError>)
    ensures
        search_spec(nodes@, start, end, limit, result_view(r)),
{
    let ghost g = nodes@;
    if !nodes.contains_key(&start) {
        return Err(SearchError::InvalidInput);
    }
    if !nodes.contains_key(&end) {
        return Err(SearchError::InvalidInput);
    }
    let start_weight = nodes.get(&start).unwrap().weight;
    let mut table: HashMap<u64, u64> = HashMap::new();
    table.insert(start, start_weight);
    let mut queue: Vec<Entry> = Vec::new();
    queue.push(Entry { label: start, score: start_weight, path: Vec::new(), dist: 0 });
    let ghost init = init_state(g, start);
    let ghost mut steps: nat = 0;
    let ghost mut expanded: Set<u64> = Set::empty();
    let mut fuel: u64 = limit;
    proof {
        assert(views(queue@) =~= init.queue);
        assert(table@ =~= init.table);
    }
    loop
        invariant
            steps + fuel == limit,
            queue@.len() > 0,
            run(g, end, init, steps) == SearchStep::Running(
                SearchState { queue: views(queue@), table: table@, expanded },
            ),
        decreases fuel,
    {
        let ghost cur = SearchState { queue: views(queue@), table: table@, expanded };
        let ghost steps1 = (steps + 1) as nat;
        if fuel == 0 {
            proof {
                assert(run(g, end, init_state(g, start), limit as nat) == SearchStep::Running(cur));
            }
            return Err(SearchError::IterationLimit);
        }
        if queue[0].label == end {
            let mut p = copy_labels(&queue[0].path);
            p.push(end);
            proof {
                assert(step(g, end, cur) == SearchStep::Finished(
                    Outcome::Found(cur.queue[0].path.push(end)),
                ));
                assert(run(g, end, init_state(g, start), steps1) == SearchStep::Finished(
                    Outcome::Found(p@),
                ));
            }
            return Ok(Some(p));
        }
        let ghost q0 = queue@;
        let head = queue.swap_remove(0);
        proof {
            lemma_views_after_pop(q0);
            assert(views(q0)[0] == head@);
        }
        let node = match nodes.get(&head.label) {
            Some(n) => n,
            None => {
                proof {
                    assert(step(g, end, cur) == SearchStep::Finished(Outcome::Broken));
                    assert(run(g, end, init_state(g, start), steps1) == SearchStep::Finished(
                        Outcome::Broken,
                    ));
                }
                return Err(SearchError::DataIntegrity);
            },
        };
        let ghost hv = head@;
        let ghost table0 = table@;
        let ghost rest0 = views(queue@);
        let ghost edges = node.edges@;
        proof {
            assert(g[hv.label] == *node);
        }
        let mut i: usize = 0;
        while i < node.edges.len()
            invariant
                i <= edges.len(),
                expand_from(g, hv, edges, 0, table0, rest0) == expand_from(
                    g,
                    hv,
                    edges,
                    i as int,
                    table@,
                    views(queue@),
                ),
            decreases edges.len() - i,
        {
            let e = node.edges[i];
            let nd = head.dist.saturating_add(e.dist);
            let w = match nodes.get(&e.to) {
                Some(n2) => n2.weight,
                None => {
                    proof {
                        assert(visit_neighbor(g, hv, e, table@, views(queue@))
                            is None);
                        assert(expand_from(g, hv, edges, i as int, table@, views(queue@))
                            is None);
                        assert(step(g, end, cur) == SearchStep::Finished(Outcome::Broken));
                        assert(run(g, end, init_state(g, start), steps1) == SearchStep::Finished(
                            Outcome::Broken,
                        ));
                    }
                    return Err(SearchError::DataIntegrity);
                },
            };
            let score = nd.saturating_add(w);
            let ghost ti = table@;
            let ghost qi = views(queue@);
            if table.contains_key(&e.to) {
                let prev = *table.get(&e.to).unwrap();
                if prev >= score {
                    table.insert(e.to, score);
                    let mut npath = copy_labels(&head.path);
                    npath.push(head.label);
                    let relaxed = relax_entries(queue, e.to, score, &npath, nd);
                    queue = relaxed.0;
                    if relaxed.1 {
                        queue.push(Entry { label: e.to, score, path: npath, dist: nd });
                    }
                }
            } else {
                table.insert(e.to, score);
                let mut npath = copy_labels(&head.path);
                npath.push(head.label);
                queue.push(Entry { label: e.to, score, path: npath, dist: nd });
            }
            proof {
                assert(visit_neighbor(g, hv, e, ti, qi) == Some((table@, views(queue@))));
                assert(expand_from(g, hv, edges, i as int, ti, qi) == expand_from(
                    g,
                    hv,
                    edges,
                    i + 1,
                    table@,
                    views(queue@),
                ));
            }
            i = i + 1;
        }
        proof {
            assert(expand_from(g, hv, edges, edges.len() as int, table@, views(queue@)) == Some(
                (table@, views(queue@)),
            ));
        }
        let ghost expanded_q = views(queue@);
        queue = sort_queue(queue);
        if queue.len() == 0 {
            proof {
                assert(step(g, end, cur) == SearchStep::Finished(Outcome::Exhausted));
                assert(run(g, end, init_state(g, start), steps1) == SearchStep::Finished(
                    Outcome::Exhausted,
                ));
            }
            return Ok(None);
        }
        proof {
            assert(step(g, end, cur) == SearchStep::Running(
                SearchState {
                    queue: sort_by_score(expanded_q),
                    table: table@,
                    expanded: expanded.insert(hv.label),
                },
            ));
            steps = steps1;
            expanded = expanded.insert(hv.label);
        }
        fuel = fuel - 1;
    }
}

/// Finds the lowest-scoring path from `start` to `end` through `nodes`.
///
/// `Ok(Some(path))` holds the labels from `start` through `end` inclusive;
/// `Ok(None)` says the frontier was exhausted without reaching `end` — a
/// normal outcome, not an error.  `Err(SearchError::InvalidInput)` reports a
/// start or end label missing from `nodes`; `Err(SearchError::DataIntegrity)`
/// an edge met during the search whose neighbour is missing.  The search runs
/// under the largest expressible iteration budget, so on a pathological graph
/// whose frontier never dies it can stop with
/// `Err(SearchError::IterationLimit)` instead of looping forever.
pub fn astar_path(start: u64, nodes: &HashMap<u64, Node>, end: u64) -> (r: Result<
    Option<Vec<u64>>,
    SearchError,
>)
    ensures
        search_spec(nodes@, start, end, u64::MAX, result_view(r)),
{
    astar_path_with_limit(start, nodes, end, u64::MAX)
}

} // verus!
