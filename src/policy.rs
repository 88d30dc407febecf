use crate::json::{Json, JsonValue};
use crate::shape::{merge, Shape};
use crate::type_set::TypeSet;
use vstd::prelude::*;

verus! {

/// What the ingestion loop hands to the policy: a decoded record, or the
/// request to stop.
pub enum Event {
    Record(JsonValue),
    Shutdown,
}

/// The mathematical value of an event.
pub enum Signal {
    Record(Json),
    Shutdown,
}

impl Event {
    pub open spec fn view(&self) -> Signal {
        match self {
            Event::Record(v) => Signal::Record(v@),
            Event::Shutdown => Signal::Shutdown,
        }
    }
}

/// What the ingestion loop is to do after an event.
#[derive(PartialEq, Eq, Structural, Debug, Clone, Copy)]
pub enum Action {
    /// Wait for the next event.
    Continue,
    /// Rewrite the snapshot, then wait for the next event.
    Checkpoint,
    /// Rewrite the snapshot one last time, then stop.
    FinalCheckpoint,
}

impl Action {
    /// Whether the action rewrites the snapshot.
    pub open spec fn writes(self) -> bool {
        self != Action::Continue
    }
}

/// The node after an event, and the action it calls for: a record is always
/// merged, and a checkpoint follows exactly when the merge changed a flag;
/// shutdown leaves the node as it is and calls for the final checkpoint.
pub open spec fn decide(n: Shape, e: Signal) -> (Shape, Action) {
    match e {
        Signal::Record(v) => {
            let r = merge(n, v);
            (r.0, if r.1 { Action::Checkpoint } else { Action::Continue })
        },
        Signal::Shutdown => (n, Action::FinalCheckpoint),
    }
}

/// Applies one event to the root node and returns what the loop is to do.
pub fn step(root: &mut TypeSet, event: &Event) -> (a: Action)
    requires
        old(root).wf(),
    ensures
        final(root).wf(),
        (final(root)@, a) == decide(old(root)@, event@),
{
    match event {
        Event::Record(v) => {
            if root.add_type_of(v) {
                Action::Checkpoint
            } else {
                Action::Continue
            }
        },
        Event::Shutdown => Action::FinalCheckpoint,
    }
}

/// The node after each event of `es` in turn.
pub open spec fn decide_all(n: Shape, es: Seq<Signal>) -> Shape
    decreases es.len(),
{
    if es.len() == 0 {
        n
    } else {
        decide(decide_all(n, es.drop_last()), es[es.len() - 1]).0
    }
}

/// How many of the actions called for by the events of `es` rewrite the
/// snapshot.
pub open spec fn writes_of(n: Shape, es: Seq<Signal>) -> nat
    decreases es.len(),
{
    if es.len() == 0 {
        0
    } else {
        writes_of(n, es.drop_last()) + if decide(
            decide_all(n, es.drop_last()),
            es[es.len() - 1],
        ).1.writes() {
            1nat
        } else {
            0nat
        }
    }
}

/// The node after each record of `vs` was merged in turn.
pub open spec fn merge_all(n: Shape, vs: Seq<Json>) -> Shape
    decreases vs.len(),
{
    if vs.len() == 0 {
        n
    } else {
        merge(merge_all(n, vs.drop_last()), vs[vs.len() - 1]).0
    }
}

/// How many of the merges of the records of `vs` changed a flag.
pub open spec fn changes_of(n: Shape, vs: Seq<Json>) -> nat
    decreases vs.len(),
{
    if vs.len() == 0 {
        0
    } else {
        changes_of(n, vs.drop_last()) + if merge(merge_all(n, vs.drop_last()), vs[vs.len() - 1]).1 {
            1nat
        } else {
            0nat
        }
    }
}

/// The events that hand over the records of `vs` in turn.
pub open spec fn records(vs: Seq<Json>) -> Seq<Signal> {
    Seq::new(vs.len(), |i: int| Signal::Record(vs[i]))
}

proof fn lemma_records(n: Shape, vs: Seq<Json>)
    ensures
        decide_all(n, records(vs)) == merge_all(n, vs),
        writes_of(n, records(vs)) == changes_of(n, vs),
    decreases vs.len(),
{
    if vs.len() > 0 {
        lemma_records(n, vs.drop_last());
        assert(records(vs).drop_last() =~= records(vs.drop_last()));
    }
}

/// Over records `vs` followed by shutdown, the snapshot is rewritten once for
/// each record whose merge changed a flag, and once more at shutdown; the
/// final node is every record merged in turn.
pub proof fn lemma_checkpoint_count(n: Shape, vs: Seq<Json>)
    ensures
        writes_of(n, records(vs).push(Signal::Shutdown)) == changes_of(n, vs) + 1,
        decide_all(n, records(vs).push(Signal::Shutdown)) == merge_all(n, vs),
{
    lemma_records(n, vs);
    assert(records(vs).push(Signal::Shutdown).drop_last() =~= records(vs));
}

} // verus!
