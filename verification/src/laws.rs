//! What holds of every search, proved of the machine in [`crate::model`] and
//! carried to the executable search through [`search_spec`], the relation the
//! search's `ensures` states.

use vstd::prelude::*;
use crate::graph::{connects, has_edge, is_walk, well_formed, Edge, Node};
use crate::model::{
    after_pop, bounded_sum, expand_from, init_state, lemma_sort_contains, lemma_sort_len,
    needs_push, outcome_result, relax_queue, run, search_spec, sort_by_score, start_entry, step,
    visit_neighbor, EntryView, Outcome, SearchResult, SearchState, SearchStep,
};

verus! {

/// A sound frontier entry: its label has a graph entry, and its path,
/// extended with its own label, is a walk of the graph starting at the start
/// label.
pub open spec fn entry_ok(g: Map<u64, Node>, start: u64, e: EntryView) -> bool {
    &&& g.contains_key(e.label)
    &&& is_walk(g, e.path.push(e.label))
    &&& e.path.push(e.label).first() == start
}

/// Some frontier entry is for `l`.
pub open spec fn queue_has_label(q: Seq<EntryView>, l: u64) -> bool {
    exists|i: int| 0 <= i < q.len() && (#[trigger] q[i]).label == l
}

/// What holds of every state the machine can be in: the frontier is
/// non-empty and all its entries are sound walks from the start; the start
/// label is scored; every scored label is either still on the frontier or
/// already expanded; every expanded label has a graph entry and all its
/// neighbours are scored; and the end label was never expanded.
pub open spec fn state_inv(g: Map<u64, Node>, start: u64, end: u64, st: SearchState) -> bool {
    &&& st.queue.len() > 0
    &&& forall|i: int| 0 <= i < st.queue.len() ==> entry_ok(g, start, #[trigger] st.queue[i])
    &&& st.table.dom().contains(start)
    &&& forall|l: u64|
        #[trigger] st.table.dom().contains(l) ==> queue_has_label(st.queue, l)
            || st.expanded.contains(l)
    &&& forall|u: u64| #[trigger] st.expanded.contains(u) ==> g.contains_key(u)
    &&& forall|u: u64, j: int|
        st.expanded.contains(u) && 0 <= j < g[u].edges@.len() ==> st.table.dom().contains(
            (#[trigger] g[u].edges@[j]).to,
        )
    &&& !st.expanded.contains(end)
}

proof fn lemma_init_inv(g: Map<u64, Node>, start: u64, end: u64)
    requires
        g.contains_key(start),
    ensures
        state_inv(g, start, end, init_state(g, start)),
{
    let st = init_state(g, start);
    assert(st.queue[0] == start_entry(start, g[start].weight));
    assert(entry_ok(g, start, st.queue[0]));
    assert forall|l: u64| #[trigger] st.table.dom().contains(l) implies queue_has_label(
        st.queue,
        l,
    ) by {
        assert(l == start);
        assert(st.queue[0].label == l);
    }
}

/// Visiting one neighbour keeps every frontier entry sound, only grows the
/// score table and the set of labels on the frontier, and leaves every scored
/// label on the frontier or among the expanded labels.
proof fn lemma_visit_preserves(
    g: Map<u64, Node>,
    start: u64,
    head: EntryView,
    e: Edge,
    exp: Set<u64>,
    table: Map<u64, u64>,
    q: Seq<EntryView>,
)
    requires
        entry_ok(g, start, head),
        has_edge(g, head.label, e.to),
        forall|i: int| 0 <= i < q.len() ==> entry_ok(g, start, #[trigger] q[i]),
        forall|l: u64|
            #[trigger] table.dom().contains(l) ==> queue_has_label(q, l) || exp.contains(l),
    ensures
        match visit_neighbor(g, head, e, table, q) {
            Option::None => !g.contains_key(e.to),
            Option::Some(tq) => {
                &&& forall|i: int| 0 <= i < tq.1.len() ==> entry_ok(g, start, #[trigger] tq.1[i])
                &&& forall|l: u64|
                    #[trigger] table.dom().contains(l) ==> tq.0.dom().contains(l)
                &&& tq.0.dom().contains(e.to)
                &&& forall|l: u64|
                    #[trigger] tq.0.dom().contains(l) ==> queue_has_label(tq.1, l)
                        || exp.contains(l)
                &&& forall|l: u64|
                    #[trigger] queue_has_label(q, l) ==> queue_has_label(tq.1, l)
            },
        },
{
    if g.contains_key(e.to) {
        let nd = bounded_sum(head.dist, e.dist);
        let score = bounded_sum(nd, g[e.to].weight);
        let npath = head.path.push(head.label);
        let newe = EntryView { label: e.to, score, path: npath, dist: nd };
        assert(entry_ok(g, start, newe)) by {
            let full = npath.push(e.to);
            let hfull = head.path.push(head.label);
            assert forall|m: int| 0 <= m < full.len() - 1 implies has_edge(
                g,
                #[trigger] full[m],
                full[m + 1],
            ) by {
                if m < hfull.len() - 1 {
                    assert(full[m] == hfull[m] && full[m + 1] == hfull[m + 1]);
                } else {
                    assert(full[m] == head.label && full[m + 1] == e.to);
                }
            }
            assert(full.first() == hfull.first());
        }
        if table.contains_key(e.to) && table[e.to] >= score {
            let q2 = relax_queue(q, e.to, score, npath, nd);
            assert(forall|i: int|
                0 <= i < q2.len() ==> (#[trigger] q2[i]).label == q[i].label);
            assert forall|i: int| 0 <= i < q2.len() implies entry_ok(
                g,
                start,
                #[trigger] q2[i],
            ) by {
                if q[i].label == e.to && q[i].score >= score {
                    assert(q2[i] == newe);
                } else {
                    assert(q2[i] == q[i]);
                }
            }
            assert forall|l: u64| #[trigger] queue_has_label(q, l) implies queue_has_label(
                q2,
                l,
            ) by {
                let i = choose|i: int| 0 <= i < q.len() && (#[trigger] q[i]).label == l;
                assert(q2[i].label == l);
            }
            if needs_push(q, e.to, score) {
                let q3 = q2.push(newe);
                assert(q3[q2.len() as int] == newe);
                assert(queue_has_label(q3, e.to));
                assert forall|i: int| 0 <= i < q3.len() implies entry_ok(
                    g,
                    start,
                    #[trigger] q3[i],
                ) by {
                    if i < q2.len() {
                        assert(q3[i] == q2[i]);
                    }
                }
                assert forall|l: u64| #[trigger] queue_has_label(q2, l) implies queue_has_label(
                    q3,
                    l,
                ) by {
                    let i = choose|i: int| 0 <= i < q2.len() && (#[trigger] q2[i]).label == l;
                    assert(q3[i].label == l);
                }
            } else {
                let w = choose|i: int|
                    0 <= i < q.len() && (#[trigger] q[i]).label == e.to && q[i].score >= score;
                assert(q2[w] == newe);
                assert(queue_has_label(q2, e.to));
            }
        } else if !table.contains_key(e.to) {
            let q3 = q.push(newe);
            assert(q3[q.len() as int] == newe);
            assert(queue_has_label(q3, e.to));
            assert forall|i: int| 0 <= i < q3.len() implies entry_ok(
                g,
                start,
                #[trigger] q3[i],
            ) by {
                if i < q.len() {
                    assert(q3[i] == q[i]);
                }
            }
            assert forall|l: u64| #[trigger] queue_has_label(q, l) implies queue_has_label(
                q3,
                l,
            ) by {
                let i = choose|i: int| 0 <= i < q.len() && (#[trigger] q[i]).label == l;
                assert(q3[i].label == l);
            }
        }
    }
}

/// Visiting the neighbours `edges[i..]` in order keeps the frontier sound
/// and leaves every scored label on the frontier or expanded; each visited
/// neighbour ends up scored.
proof fn lemma_expand_preserves(
    g: Map<u64, Node>,
    start: u64,
    head: EntryView,
    exp: Set<u64>,
    edges: Seq<Edge>,
    i: int,
    table: Map<u64, u64>,
    q: Seq<EntryView>,
)
    requires
        0 <= i <= edges.len(),
        entry_ok(g, start, head),
        edges == g[head.label].edges@,
        forall|k: int| 0 <= k < q.len() ==> entry_ok(g, start, #[trigger] q[k]),
        forall|l: u64|
            #[trigger] table.dom().contains(l) ==> queue_has_label(q, l) || exp.contains(l),
    ensures
        match expand_from(g, head, edges, i, table, q) {
            Option::None => exists|j: int|
                i <= j < edges.len() && !g.contains_key((#[trigger] edges[j]).to),
            Option::Some(tq) => {
                &&& forall|k: int| 0 <= k < tq.1.len() ==> entry_ok(g, start, #[trigger] tq.1[k])
                &&& forall|l: u64|
                    #[trigger] table.dom().contains(l) ==> tq.0.dom().contains(l)
                &&& forall|j: int|
                    i <= j < edges.len() ==> tq.0.dom().contains((#[trigger] edges[j]).to)
                &&& forall|l: u64|
                    #[trigger] tq.0.dom().contains(l) ==> queue_has_label(tq.1, l)
                        || exp.contains(l)
                &&& forall|l: u64|
                    #[trigger] queue_has_label(q, l) ==> queue_has_label(tq.1, l)
            },
        },
    decreases edges.len() - i,
{
    if i < edges.len() {
        let e = edges[i];
        assert(has_edge(g, head.label, e.to));
        lemma_visit_preserves(g, start, head, e, exp, table, q);
        match visit_neighbor(g, head, e, table, q) {
            Option::None => {
                assert(!g.contains_key((edges[i]).to));
            },
            Option::Some(tq1) => {
                lemma_expand_preserves(g, start, head, exp, edges, i + 1, tq1.0, tq1.1);
            },
        }
    }
}

/// A walk that starts inside a set closed under the graph's edges stays
/// inside it.
proof fn lemma_walk_stays_in_closed(
    g: Map<u64, Node>,
    s: Set<u64>,
    p: Seq<u64>,
    k: int,
)
    requires
        is_walk(g, p),
        p.len() > 0,
        s.contains(p.first()),
        forall|u: u64, v: u64| s.contains(u) && has_edge(g, u, v) ==> s.contains(v),
        0 <= k < p.len(),
    ensures
        s.contains(p[k]),
    decreases k,
{
    if k > 0 {
        lemma_walk_stays_in_closed(g, s, p, k - 1);
        assert(has_edge(g, p[k - 1], p[k]));
    }
}

/// No walk leads from `start` to `end` when some set closed under the
/// graph's edges holds `start` but not `end`.
proof fn lemma_closed_set_blocks(g: Map<u64, Node>, s: Set<u64>, start: u64, end: u64)
    requires
        s.contains(start),
        forall|u: u64, v: u64| s.contains(u) && has_edge(g, u, v) ==> s.contains(v),
        !s.contains(end),
    ensures
        !connects(g, start, end),
{
    if connects(g, start, end) {
        let p = choose|p: Seq<u64>|
            #[trigger] is_walk(g, p) && p.len() > 0 && p.first() == start && p.last() == end;
        lemma_walk_stays_in_closed(g, s, p, p.len() - 1);
    }
}

/// One step from a sound state either reaches another sound state, returns a
/// path that is a walk from start to end, exhausts a frontier that provably
/// reaches no further — so start and end are not connected — or trips over a
/// missing neighbour, which only a malformed graph has.
proof fn lemma_step_preserves(g: Map<u64, Node>, start: u64, end: u64, st: SearchState)
    requires
        state_inv(g, start, end, st),
    ensures
        match step(g, end, st) {
            SearchStep::Running(st2) => state_inv(g, start, end, st2),
            SearchStep::Finished(o) => match o {
                Outcome::Found(p) => p.len() >= 1 && p.first() == start && p.last() == end
                    && is_walk(g, p),
                Outcome::Exhausted => !connects(g, start, end),
                Outcome::Broken => !well_formed(g),
            },
        },
{
    let head = st.queue[0];
    assert(entry_ok(g, start, head));
    if head.label == end {
        let p = head.path.push(end);
        assert(p.first() == start);
    } else {
        let exp = st.expanded.insert(head.label);
        let rest = after_pop(st.queue);
        let edges = g[head.label].edges@;
        assert forall|k: int| 0 <= k < rest.len() implies entry_ok(
            g,
            start,
            #[trigger] rest[k],
        ) by {
            if k == 0 {
                assert(rest[k] == st.queue[st.queue.len() - 1]);
            } else {
                assert(rest[k] == st.queue[k]);
            }
        }
        assert forall|l: u64| #[trigger] st.table.dom().contains(l) implies queue_has_label(
            rest,
            l,
        ) || exp.contains(l) by {
            if queue_has_label(st.queue, l) {
                let i = choose|i: int|
                    0 <= i < st.queue.len() && (#[trigger] st.queue[i]).label == l;
                if i == 0 {
                    assert(exp.contains(l));
                } else if i == st.queue.len() - 1 {
                    assert(rest[0] == st.queue[i]);
                    assert(queue_has_label(rest, l));
                } else {
                    assert(rest[i] == st.queue[i]);
                    assert(queue_has_label(rest, l));
                }
            }
        }
        lemma_expand_preserves(g, start, head, exp, edges, 0, st.table, rest);
        match expand_from(g, head, edges, 0, st.table, rest) {
            Option::None => {
                let j = choose|j: int|
                    0 <= j < edges.len() && !g.contains_key((#[trigger] edges[j]).to);
                assert(!well_formed(g)) by {
                    assert(g.contains_key(head.label) && 0 <= j < g[head.label].edges@.len()
                        && !g.contains_key(g[head.label].edges@[j].to));
                }
            },
            Option::Some(tq) => {
                let sorted = sort_by_score(tq.1);
                lemma_sort_len(tq.1);
                if sorted.len() == 0 {
                    let s = tq.0.dom();
                    assert forall|u: u64, v: u64| s.contains(u) && has_edge(g, u, v) implies
                        s.contains(v) by {
                        assert(!queue_has_label(tq.1, u));
                        assert(exp.contains(u));
                        let j = choose|j: int|
                            0 <= j < g[u].edges@.len() && (#[trigger] g[u].edges@[j]).to == v;
                        if u == head.label {
                            assert(tq.0.dom().contains((edges[j]).to));
                        } else {
                            assert(st.expanded.contains(u));
                            assert(st.table.dom().contains((g[u].edges@[j]).to));
                        }
                    }
                    assert(!s.contains(end)) by {
                        if s.contains(end) {
                            assert(exp.contains(end));
                        }
                    }
                    lemma_closed_set_blocks(g, s, start, end);
                } else {
                    let st2 = SearchState { queue: sorted, table: tq.0, expanded: exp };
                    assert forall|k: int| 0 <= k < st2.queue.len() implies entry_ok(
                        g,
                        start,
                        #[trigger] st2.queue[k],
                    ) by {
                        assert(sorted.contains(sorted[k]));
                        lemma_sort_contains(tq.1, sorted[k]);
                        let m = choose|m: int| 0 <= m < tq.1.len() && tq.1[m] == sorted[k];
                        assert(entry_ok(g, start, tq.1[m]));
                    }
                    assert forall|l: u64| #[trigger] st2.table.dom().contains(l) implies
                        queue_has_label(st2.queue, l) || st2.expanded.contains(l) by {
                        if queue_has_label(tq.1, l) {
                            let m = choose|m: int|
                                0 <= m < tq.1.len() && (#[trigger] tq.1[m]).label == l;
                            lemma_sort_contains(tq.1, tq.1[m]);
                            let k = choose|k: int|
                                0 <= k < sorted.len() && sorted[k] == tq.1[m];
                            assert(queue_has_label(sorted, l));
                        }
                    }
                    assert forall|u: u64, j: int|
                        st2.expanded.contains(u) && 0 <= j < g[u].edges@.len() implies
                        st2.table.dom().contains((#[trigger] g[u].edges@[j]).to) by {
                        if u == head.label {
                            assert(tq.0.dom().contains((edges[j]).to));
                        } else {
                            assert(st.expanded.contains(u));
                            assert(st.table.dom().contains((g[u].edges@[j]).to));
                        }
                    }
                    assert(state_inv(g, start, end, st2));
                }
            },
        }
    }
}

/// A finished machine stays finished: later iterations change nothing.
proof fn lemma_run_absorbs(g: Map<u64, Node>, end: u64, st: SearchState, n: nat, m: nat)
    requires
        n <= m,
        run(g, end, st, n) is Finished,
    ensures
        run(g, end, st, m) == run(g, end, st, n),
    decreases m,
{
    if m > n {
        lemma_run_absorbs(g, end, st, n, (m - 1) as nat);
    }
}

/// Everything `search_spec` allows is already decided by the machine's state
/// after `limit` iterations.
proof fn lemma_search_spec_settled(
    g: Map<u64, Node>,
    start: u64,
    end: u64,
    limit: u64,
    r: SearchResult,
)
    requires
        search_spec(g, start, end, limit, r),
        g.contains_key(start),
        g.contains_key(end),
    ensures
        match run(g, end, init_state(g, start), limit as nat) {
            SearchStep::Finished(o) => r == outcome_result(o),
            SearchStep::Running(_) => r == SearchResult::IterationLimit,
        },
{
    let init = init_state(g, start);
    if exists|n: nat|
        n <= limit && match #[trigger] run(g, end, init, n) {
            SearchStep::Finished(o) => r == outcome_result(o),
            SearchStep::Running(_) => false,
        } {
        let n1 = choose|n: nat|
            n <= limit && match #[trigger] run(g, end, init, n) {
                SearchStep::Finished(o) => r == outcome_result(o),
                SearchStep::Running(_) => false,
            };
        lemma_run_absorbs(g, end, init, n1, limit as nat);
    }
}

/// Determinism: two results of searching the same graph from the same start
/// to the same end under the same budget are the same result.  In particular,
/// repeated calls return the identical path.
pub proof fn lemma_search_deterministic(
    g: Map<u64, Node>,
    start: u64,
    end: u64,
    limit: u64,
    r1: SearchResult,
    r2: SearchResult,
)
    requires
        search_spec(g, start, end, limit, r1),
        search_spec(g, start, end, limit, r2),
    ensures
        r1 == r2,
{
    if g.contains_key(start) && g.contains_key(end) {
        lemma_search_spec_settled(g, start, end, limit, r1);
        lemma_search_spec_settled(g, start, end, limit, r2);
    }
}

/// A search fails with `InvalidInput` exactly when the start or the end
/// label is missing from the graph.
pub proof fn lemma_invalid_input_iff_missing(
    g: Map<u64, Node>,
    start: u64,
    end: u64,
    limit: u64,
    r: SearchResult,
)
    requires
        search_spec(g, start, end, limit, r),
    ensures
        (r == SearchResult::InvalidInput) <==> (!g.contains_key(start) || !g.contains_key(end)),
{
}

/// However long the machine runs from a sound state, it is either in a sound
/// state or finished with an outcome the graph justifies.
proof fn lemma_run_sound(g: Map<u64, Node>, start: u64, end: u64, st: SearchState, n: nat)
    requires
        state_inv(g, start, end, st),
    ensures
        match run(g, end, st, n) {
            SearchStep::Running(st2) => state_inv(g, start, end, st2),
            SearchStep::Finished(o) => match o {
                Outcome::Found(p) => p.len() >= 1 && p.first() == start && p.last() == end
                    && is_walk(g, p),
                Outcome::Exhausted => !connects(g, start, end),
                Outcome::Broken => !well_formed(g),
            },
        },
    decreases n,
{
    if n > 0 {
        lemma_run_sound(g, start, end, st, (n - 1) as nat);
        match run(g, end, st, (n - 1) as nat) {
            SearchStep::Running(s) => {
                lemma_step_preserves(g, start, end, s);
            },
            SearchStep::Finished(_) => {},
        }
    }
}

/// Every returned path is a real route: it starts with the start label, ends
/// with the end label, and every consecutive pair of labels in it is joined
/// by an edge of the graph.
pub proof fn lemma_path_valid(
    g: Map<u64, Node>,
    start: u64,
    end: u64,
    limit: u64,
    p: Seq<u64>,
)
    requires
        search_spec(g, start, end, limit, SearchResult::Path(p)),
    ensures
        p.len() >= 1,
        p.first() == start,
        p.last() == end,
        is_walk(g, p),
{
    lemma_search_spec_settled(g, start, end, limit, SearchResult::Path(p));
    lemma_init_inv(g, start, end);
    lemma_run_sound(g, start, end, init_state(g, start), limit as nat);
}

/// An exhausted search is honest: when it reports that no path exists, no
/// sequence of edges connects the start label to the end label.
pub proof fn lemma_no_path_sound(g: Map<u64, Node>, start: u64, end: u64, limit: u64)
    requires
        search_spec(g, start, end, limit, SearchResult::NoPath),
    ensures
        !connects(g, start, end),
{
    lemma_search_spec_settled(g, start, end, limit, SearchResult::NoPath);
    lemma_init_inv(g, start, end);
    lemma_run_sound(g, start, end, init_state(g, start), limit as nat);
}

/// A search only reports broken data when the graph really is malformed:
/// some edge of some node names a label without a graph entry.
pub proof fn lemma_data_integrity_sound(g: Map<u64, Node>, start: u64, end: u64, limit: u64)
    requires
        search_spec(g, start, end, limit, SearchResult::DataIntegrity),
    ensures
        !well_formed(g),
{
    lemma_search_spec_settled(g, start, end, limit, SearchResult::DataIntegrity);
    lemma_init_inv(g, start, end);
    lemma_run_sound(g, start, end, init_state(g, start), limit as nat);
}

/// On a well-formed graph whose start and end labels both exist, a search
/// that finishes within its budget and finds no walk from start to end
/// reports exactly the explicit no-path value.
pub proof fn lemma_unconnected_gives_no_path(
    g: Map<u64, Node>,
    start: u64,
    end: u64,
    limit: u64,
    r: SearchResult,
)
    requires
        search_spec(g, start, end, limit, r),
        g.contains_key(start),
        g.contains_key(end),
        well_formed(g),
        !connects(g, start, end),
        r != SearchResult::IterationLimit,
    ensures
        r == SearchResult::NoPath,
{
    lemma_search_spec_settled(g, start, end, limit, r);
    lemma_init_inv(g, start, end);
    lemma_run_sound(g, start, end, init_state(g, start), limit as nat);
    match run(g, end, init_state(g, start), limit as nat) {
        SearchStep::Finished(o) => match o {
            Outcome::Found(p) => {
                assert(connects(g, start, end)) by {
                    assert(is_walk(g, p) && p.len() > 0 && p.first() == start && p.last() == end);
                }
            },
            Outcome::Exhausted => {},
            Outcome::Broken => {},
        },
        SearchStep::Running(_) => {},
    }
}

/// Success is owed: on a well-formed graph whose start and end labels both
/// exist and are connected, a search that finishes within its budget returns
/// a path.
pub proof fn lemma_connected_finds_path(
    g: Map<u64, Node>,
    start: u64,
    end: u64,
    limit: u64,
    r: SearchResult,
)
    requires
        search_spec(g, start, end, limit, r),
        g.contains_key(start),
        g.contains_key(end),
        well_formed(g),
        connects(g, start, end),
        r != SearchResult::IterationLimit,
    ensures
        r is Path,
{
    lemma_search_spec_settled(g, start, end, limit, r);
    lemma_init_inv(g, start, end);
    lemma_run_sound(g, start, end, init_state(g, start), limit as nat);
}

/// When the start and the end label are the same, the result is the
/// single-element path holding that label alone.
pub proof fn lemma_start_is_end(
    g: Map<u64, Node>,
    start: u64,
    end: u64,
    limit: u64,
    r: SearchResult,
)
    requires
        search_spec(g, start, end, limit, r),
        g.contains_key(start),
        g.contains_key(end),
        start == end,
        limit >= 1,
    ensures
        r == SearchResult::Path(seq![start]),
{
    let init = init_state(g, start);
    assert(run(g, end, init, 0) == SearchStep::Running(init));
    assert(init.queue[0] == start_entry(start, g[start].weight));
    assert(run(g, end, init, 1) == SearchStep::Finished(
        Outcome::Found(Seq::empty().push(start)),
    ));
    assert(Seq::<u64>::empty().push(start) =~= seq![start]);
    lemma_run_absorbs(g, end, init, 1, limit as nat);
    lemma_search_spec_settled(g, start, end, limit, r);
}

} // verus!
