//! The decisions of `serve` between its outside steps: which programs are
//! tried, in which order, to start `rojo serve`, when to stop trying, and
//! what a watch event leads to.

use vstd::prelude::*;

verus! {

/// The programs tried, in order, to start `rojo serve`.
pub open spec fn rojo_candidate_texts() -> Seq<Seq<char>> {
    seq!["rojo"@, "./rojo"@, "./rojo.exe"@, "./bin/rojo"@, "./bin/rojo.exe"@]
}

/// The programs tried, in order, to start `rojo serve`.
pub fn rojo_candidates() -> (r: Vec<&'static str>)
    ensures
        r@.map_values(|s: &str| s@) == rojo_candidate_texts(),
{
    let r: Vec<&'static str> = vec!["rojo", "./rojo", "./rojo.exe", "./bin/rojo", "./bin/rojo.exe"];
    assert(r@.map_values(|s: &str| s@) =~= rojo_candidate_texts());
    r
}

/// The next step in starting `rojo serve`.
#[derive(Clone, Copy, PartialEq, Eq, Debug)]
pub enum RojoAction {
    /// Spawn the candidate at this position.
    Try(usize),
    /// The last candidate tried started; stop trying.
    Started,
    /// Every candidate failed to start.
    GiveUp,
}

/// The next step after `tried` candidates, of which the last one started
/// exactly when `spawned`: stop once one started, else try the next
/// candidate in order, and give up when none is left.
pub fn rojo_next(tried: usize, spawned: bool) -> (a: RojoAction)
    ensures
        spawned ==> a == RojoAction::Started,
        !spawned && tried < rojo_candidate_texts().len() ==> a == RojoAction::Try(tried),
        !spawned && tried >= rojo_candidate_texts().len() ==> a == RojoAction::GiveUp,
{
    if spawned {
        RojoAction::Started
    } else if tried < 5 {
        RojoAction::Try(tried)
    } else {
        RojoAction::GiveUp
    }
}

/// What `serve` does with one event of the source folder's watcher.
#[derive(Clone, Copy, PartialEq, Eq, Debug)]
pub enum ServeAction {
    /// Build the project again.
    Rebuild,
    /// Report the watch error and go on watching.
    ReportError,
}

/// What `serve` does with an event: a rebuild for a change, a report for a
/// watch error.
pub open spec fn event_action(event_ok: bool) -> ServeAction {
    if event_ok {
        ServeAction::Rebuild
    } else {
        ServeAction::ReportError
    }
}

/// A change that the watcher reports leads to a new build; a watch error is
/// reported, and watching goes on.
pub fn serve_event_action(event_ok: bool) -> (a: ServeAction)
    ensures
        a == event_action(event_ok),
        event_ok ==> a == ServeAction::Rebuild,
        !event_ok ==> a == ServeAction::ReportError,
{
    if event_ok {
        ServeAction::Rebuild
    } else {
        ServeAction::ReportError
    }
}

/// The number of changes among the events of a watch.
pub open spec fn change_count(events: Seq<bool>) -> nat
    decreases events.len(),
{
    if events.len() == 0 {
        0
    } else {
        change_count(events.drop_last()) + if events.last() {
            1nat
        } else {
            0nat
        }
    }
}

/// The number of rebuilds among the actions taken.
pub open spec fn rebuild_count(actions: Seq<ServeAction>) -> nat
    decreases actions.len(),
{
    if actions.len() == 0 {
        0
    } else {
        rebuild_count(actions.drop_last()) + if actions.last() == ServeAction::Rebuild {
            1nat
        } else {
            0nat
        }
    }
}

/// The actions that `serve` takes on a stream of watch events, in order.
pub open spec fn serve_actions(events: Seq<bool>) -> Seq<ServeAction> {
    events.map_values(|e: bool| event_action(e))
}

/// The builds of a `serve` run: one before watching starts, then one per
/// rebuild among the actions taken on the events.
pub open spec fn serve_builds(events: Seq<bool>) -> nat {
    1 + rebuild_count(serve_actions(events))
}

/// Over any stream of watch events, `serve` builds once before watching and
/// then once after each change, in order; each watch error is only reported.
pub proof fn lemma_serve_builds_per_change(events: Seq<bool>)
    ensures
        serve_builds(events) == 1 + change_count(events),
        forall|i: int|
            0 <= i < events.len() ==> (#[trigger] serve_actions(events)[i] == ServeAction::Rebuild)
                == events[i],
    decreases events.len(),
{
    let acts = serve_actions(events);
    if events.len() > 0 {
        let prev = events.drop_last();
        lemma_serve_builds_per_change(prev);
        assert(acts.drop_last() =~= serve_actions(prev));
        assert(acts.last() == event_action(events.last()));
    }
}

} // verus!
