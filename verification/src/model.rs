//! The search, written out as a state machine over mathematical values.
//!
//! A state holds the frontier (open set) of candidate partial paths and the
//! score table of the best score recorded per label.  [`step`] performs one
//! iteration: pop the best frontier entry, stop if it reaches the end label,
//! otherwise visit each neighbour, relax the table and the frontier, and
//! re-sort the frontier ascending by score.  [`run`] iterates `step`.  The
//! executable search is proved to follow this machine exactly, so every
//! property shown of the machine holds of the search.

use vstd::prelude::*;
use crate::graph::{Edge, Node, SearchError};

verus! {

/// One frontier entry: the label reached, its a-star score, the labels walked
/// before it (excluding itself), and the distance travelled to reach it.
pub ghost struct EntryView {
    pub label: u64,
    pub score: u64,
    pub path: Seq<u64>,
    pub dist: u64,
}

/// The transient state of one search: the frontier and the score table,
/// together with the set of labels whose edges have been expanded.
pub ghost struct SearchState {
    pub queue: Seq<EntryView>,
    pub table: Map<u64, u64>,
    pub expanded: Set<u64>,
}

/// How a finished search ended.
pub ghost enum Outcome {
    /// The end label was reached; the payload is the whole path, start
    /// through end inclusive.
    Found(Seq<u64>),
    /// The frontier ran dry before the end label was reached.
    Exhausted,
    /// An edge reached during the search names a label with no graph entry.
    Broken,
}

/// One step of the machine: either a next state, or a final outcome.
pub ghost enum SearchStep {
    Running(SearchState),
    Finished(Outcome),
}

/// What a search call returned, as a mathematical value.
pub ghost enum SearchResult {
    Path(Seq<u64>),
    NoPath,
    InvalidInput,
    DataIntegrity,
    IterationLimit,
}

/// Addition of distances and scores: it stops at `u64::MAX` instead of
/// wrapping.
pub open spec fn bounded_sum(a: u64, b: u64) -> u64 {
    if a + b > u64::MAX {
        u64::MAX
    } else {
        (a + b) as u64
    }
}

/// The frontier at the start of a search: one entry for the start label.
/// Nothing has been travelled, so its score is the start node's own weight.
pub open spec fn start_entry(start: u64, weight: u64) -> EntryView {
    EntryView { label: start, score: weight, path: Seq::empty(), dist: 0 }
}

/// The state a search begins in, once the start label is known to be present.
pub open spec fn init_state(g: Map<u64, Node>, start: u64) -> SearchState {
    SearchState {
        queue: seq![start_entry(start, g[start].weight)],
        table: Map::empty().insert(start, g[start].weight),
        expanded: Set::empty(),
    }
}

/// The frontier after its head is removed: the last entry moves into the
/// head's slot, as a swap-removal leaves it.
pub open spec fn after_pop(q: Seq<EntryView>) -> Seq<EntryView>
    recommends
        q.len() > 0,
{
    q.update(0, q.last()).drop_last()
}

/// Rewrites the frontier for a rediscovered label: every entry for `label`
/// whose score is worse than or equal to `score` is overwritten in place with
/// the new score, path and distance.  Entries with a strictly better score,
/// and entries for other labels, are untouched.
pub open spec fn relax_queue(
    q: Seq<EntryView>,
    label: u64,
    score: u64,
    path: Seq<u64>,
    dist: u64,
) -> Seq<EntryView> {
    q.map_values(
        |e: EntryView|
            if e.label == label && e.score >= score {
                EntryView { label, score, path, dist }
            } else {
                e
            },
    )
}

/// No frontier entry for `label` scores worse than or equal to `score`, so a
/// rediscovery of `label` must push a fresh entry.
pub open spec fn needs_push(q: Seq<EntryView>, label: u64, score: u64) -> bool {
    forall|i: int| 0 <= i < q.len() ==> !((#[trigger] q[i]).label == label && q[i].score >= score)
}

/// Visits one neighbour of the entry `head`: computes the distance and the
/// a-star score, and relaxes the table and the frontier under the
/// worse-or-equal dominance rule.  `None` means the neighbour has no graph
/// entry, which is fatal.
pub open spec fn visit_neighbor(
    g: Map<u64, Node>,
    head: EntryView,
    e: Edge,
    table: Map<u64, u64>,
    q: Seq<EntryView>,
) -> Option<(Map<u64, u64>, Seq<EntryView>)> {
    if !g.contains_key(e.to) {
        None
    } else {
        let nd = bounded_sum(head.dist, e.dist);
        let score = bounded_sum(nd, g[e.to].weight);
        let npath = head.path.push(head.label);
        if table.contains_key(e.to) {
            if table[e.to] >= score {
                let t2 = table.insert(e.to, score);
                let q2 = relax_queue(q, e.to, score, npath, nd);
                if needs_push(q, e.to, score) {
                    Some((t2, q2.push(EntryView { label: e.to, score, path: npath, dist: nd })))
                } else {
                    Some((t2, q2))
                }
            } else {
                Some((table, q))
            }
        } else {
            Some(
                (
                    table.insert(e.to, score),
                    q.push(EntryView { label: e.to, score, path: npath, dist: nd }),
                ),
            )
        }
    }
}

/// Visits the neighbours `edges[i..]` of `head` in order.
pub open spec fn expand_from(
    g: Map<u64, Node>,
    head: EntryView,
    edges: Seq<Edge>,
    i: int,
    table: Map<u64, u64>,
    q: Seq<EntryView>,
) -> Option<(Map<u64, u64>, Seq<EntryView>)>
    decreases edges.len() - i,
{
    if i < 0 || i >= edges.len() {
        Some((table, q))
    } else {
        match visit_neighbor(g, head, edges[i], table, q) {
            Option::None => Option::None,
            Option::Some(tq) => expand_from(g, head, edges, i + 1, tq.0, tq.1),
        }
    }
}

/// Where a new entry with this score lands in an ascending frontier: after
/// every entry scoring less than or equal to it, so that among equal scores
/// the earlier entry keeps its place.
pub open spec fn insert_pos(q: Seq<EntryView>, score: u64) -> int
    decreases q.len(),
{
    if q.len() == 0 {
        0
    } else if q[0].score > score {
        0
    } else {
        1 + insert_pos(q.drop_first(), score)
    }
}

/// Inserts one entry into an already sorted frontier.
pub open spec fn insert_sorted(q: Seq<EntryView>, e: EntryView) -> Seq<EntryView> {
    q.insert(insert_pos(q, e.score), e)
}

/// Stable ascending sort by score: entries with equal scores keep their
/// relative order.
pub open spec fn sort_by_score(q: Seq<EntryView>) -> Seq<EntryView>
    decreases q.len(),
{
    if q.len() == 0 {
        Seq::empty()
    } else {
        insert_sorted(sort_by_score(q.drop_last()), q.last())
    }
}

pub proof fn lemma_insert_pos_bounds(q: Seq<EntryView>, score: u64)
    ensures
        0 <= insert_pos(q, score) <= q.len(),
    decreases q.len(),
{
    if q.len() > 0 && !(q[0].score > score) {
        lemma_insert_pos_bounds(q.drop_first(), score);
    }
}

pub proof fn lemma_insert_sorted_len(q: Seq<EntryView>, e: EntryView)
    ensures
        insert_sorted(q, e).len() == q.len() + 1,
{
    lemma_insert_pos_bounds(q, e.score);
}

pub proof fn lemma_sort_len(q: Seq<EntryView>)
    ensures
        sort_by_score(q).len() == q.len(),
    decreases q.len(),
{
    if q.len() > 0 {
        lemma_sort_len(q.drop_last());
        lemma_insert_sorted_len(sort_by_score(q.drop_last()), q.last());
    }
}

proof fn lemma_contains_split_last(q: Seq<EntryView>, x: EntryView)
    requires
        q.len() > 0,
    ensures
        q.contains(x) <==> (q.drop_last().contains(x) || q.last() == x),
{
    if q.contains(x) {
        let i = choose|i: int| 0 <= i < q.len() && q[i] == x;
        if i < q.len() - 1 {
            assert(q.drop_last()[i] == x);
        }
    }
    if q.drop_last().contains(x) {
        let i = choose|i: int| 0 <= i < q.drop_last().len() && q.drop_last()[i] == x;
        assert(q[i] == x);
    }
}

pub proof fn lemma_insert_sorted_contains(q: Seq<EntryView>, e: EntryView, x: EntryView)
    ensures
        insert_sorted(q, e).contains(x) <==> (q.contains(x) || x == e),
{
    lemma_insert_pos_bounds(q, e.score);
    let pos = insert_pos(q, e.score);
    let s = insert_sorted(q, e);
    q.insert_ensures(pos, e);
    if s.contains(x) {
        let i = choose|i: int| 0 <= i < s.len() && s[i] == x;
        if i < pos {
            assert(q[i] == x);
        } else if i == pos {
        } else {
            assert(q[i - 1] == x);
        }
    }
    if q.contains(x) {
        let i = choose|i: int| 0 <= i < q.len() && q[i] == x;
        if i < pos {
            assert(s[i] == x);
        } else {
            assert(s[i + 1] == x);
        }
    }
    if x == e {
        assert(s[pos] == x);
    }
}

/// Sorting neither adds nor loses entries: exactly the entries of `q` appear
/// in the sorted frontier.
pub proof fn lemma_sort_contains(q: Seq<EntryView>, x: EntryView)
    ensures
        sort_by_score(q).contains(x) <==> q.contains(x),
    decreases q.len(),
{
    if q.len() > 0 {
        lemma_sort_contains(q.drop_last(), x);
        lemma_insert_sorted_contains(sort_by_score(q.drop_last()), q.last(), x);
        lemma_contains_split_last(q, x);
    }
}

/// One iteration of the search loop, on a state whose frontier was sorted by
/// the previous iteration.
pub open spec fn step(g: Map<u64, Node>, end: u64, st: SearchState) -> SearchStep {
    if st.queue.len() == 0 {
        SearchStep::Finished(Outcome::Exhausted)
    } else {
        let head = st.queue[0];
        if head.label == end {
            SearchStep::Finished(Outcome::Found(head.path.push(end)))
        } else if !g.contains_key(head.label) {
            SearchStep::Finished(Outcome::Broken)
        } else {
            match expand_from(g, head, g[head.label].edges@, 0, st.table, after_pop(st.queue)) {
                Option::None => SearchStep::Finished(Outcome::Broken),
                Option::Some(tq) => {
                    let sorted = sort_by_score(tq.1);
                    if sorted.len() == 0 {
                        SearchStep::Finished(Outcome::Exhausted)
                    } else {
                        SearchStep::Running(
                            SearchState {
                                queue: sorted,
                                table: tq.0,
                                expanded: st.expanded.insert(head.label),
                            },
                        )
                    }
                },
            }
        }
    }
}

/// The machine after `n` iterations from `st`.  A finished outcome absorbs
/// every later iteration.
pub open spec fn run(g: Map<u64, Node>, end: u64, st: SearchState, n: nat) -> SearchStep
    decreases n,
{
    if n == 0 {
        SearchStep::Running(st)
    } else {
        match run(g, end, st, (n - 1) as nat) {
            SearchStep::Running(s) => step(g, end, s),
            SearchStep::Finished(o) => SearchStep::Finished(o),
        }
    }
}

/// A finished outcome, as the value the search call returns.
pub open spec fn outcome_result(o: Outcome) -> SearchResult {
    match o {
        Outcome::Found(p) => SearchResult::Path(p),
        Outcome::Exhausted => SearchResult::NoPath,
        Outcome::Broken => SearchResult::DataIntegrity,
    }
}

/// The returned value, as a mathematical one.
pub open spec fn result_view(r: Result<Option<Vec<u64>>, SearchError>) -> SearchResult {
    match r {
        Result::Ok(Option::Some(v)) => SearchResult::Path(v@),
        Result::Ok(Option::None) => SearchResult::NoPath,
        Result::Err(SearchError::InvalidInput) => SearchResult::InvalidInput,
        Result::Err(SearchError::DataIntegrity) => SearchResult::DataIntegrity,
        Result::Err(SearchError::IterationLimit) => SearchResult::IterationLimit,
    }
}

/// The whole contract of a search with an iteration budget of `limit`: a
/// missing start or end label is `InvalidInput`; otherwise the machine,
/// started from `init_state`, finishes within `limit` iterations with the
/// returned outcome, or is still running after `limit` iterations and the
/// budget is reported spent.
pub open spec fn search_spec(
    g: Map<u64, Node>,
    start: u64,
    end: u64,
    limit: u64,
    r: SearchResult,
) -> bool {
    if !g.contains_key(start) || !g.contains_key(end) {
        r == SearchResult::InvalidInput
    } else {
        ||| exists|n: nat|
            n <= limit && match #[trigger] run(g, end, init_state(g, start), n) {
                SearchStep::Finished(o) => r == outcome_result(o),
                SearchStep::Running(_) => false,
            }
        ||| ((run(g, end, init_state(g, start), limit as nat) matches SearchStep::Running(_))
            && r == SearchResult::IterationLimit)
    }
}

} // verus!
