//! The frontier entry as the executable search holds it, and the facts that
//! connect a vector of entries to the frontier of the machine in
//! [`crate::model`].

use vstd::prelude::*;
use crate::model::{after_pop, EntryView};

verus! {

/// One frontier entry: the label reached, its a-star score, the labels walked
/// before it, and the distance travelled to reach it.
pub struct Entry {
    pub label: u64,
    pub score: u64,
    pub path: Vec<u64>,
    pub dist: u64,
}

impl View for Entry {
    type V = EntryView;

    open spec fn view(&self) -> EntryView {
        EntryView { label: self.label, score: self.score, path: self.path@, dist: self.dist }
    }
}

/// The frontier a vector of entries stands for.
pub open spec fn views(q: Seq<Entry>) -> Seq<EntryView> {
    q.map_values(|e: Entry| e@)
}

pub broadcast proof fn lemma_views_len(q: Seq<Entry>)
    ensures
        (#[trigger] views(q)).len() == q.len(),
{
}

pub broadcast proof fn lemma_views_index(q: Seq<Entry>, k: int)
    requires
        0 <= k < q.len(),
    ensures
        #[trigger] views(q)[k] == q[k]@,
{
}

pub broadcast proof fn lemma_views_push(q: Seq<Entry>, e: Entry)
    ensures
        #[trigger] views(q.push(e)) == views(q).push(e@),
{
    assert(views(q.push(e)) =~= views(q).push(e@));
}

pub broadcast group group_views_facts {
    lemma_views_len,
    lemma_views_index,
    lemma_views_push,
}

/// Swap-removing the head of a vector of entries pops the head of the
/// frontier it stands for.
pub proof fn lemma_views_after_pop(q: Seq<Entry>)
    requires
        q.len() > 0,
    ensures
        views(q.update(0, q.last()).drop_last()) == after_pop(views(q)),
{
    assert(views(q.update(0, q.last()).drop_last()) =~= after_pop(views(q)));
}

} // verus!
