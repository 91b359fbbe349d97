//! The decision how to open a session: attach to it, recreate it or create it.

use vstd::prelude::*;
use crate::session::{
    listing_of_output, parse_listing_output, sessions_view, ListingError, ListingFault,
    SessionView, ZellijSession,
};

verus! {

/// What to do to end up inside the session of the given name.
#[derive(Clone, Debug, PartialEq, Eq)]
pub enum LaunchDecision {
    /// The session is alive: attach to it.
    Attach(String),
    /// The session has exited: delete it, then create it afresh.
    Recreate(String),
    /// There is no such session: create it.
    Create(String),
}

/// Mathematical value of a [`LaunchDecision`].
pub enum DecisionView {
    Attach(Seq<char>),
    Recreate(Seq<char>),
    Create(Seq<char>),
}

impl View for LaunchDecision {
    type V = DecisionView;

    open spec fn view(&self) -> DecisionView {
        match self {
            LaunchDecision::Attach(name) => DecisionView::Attach(name@),
            LaunchDecision::Recreate(name) => DecisionView::Recreate(name@),
            LaunchDecision::Create(name) => DecisionView::Create(name@),
        }
    }
}

/// The index of the first session from `from` on that is called `name`.
pub open spec fn first_named(sessions: Seq<SessionView>, name: Seq<char>, from: int) -> Option<int>
    decreases sessions.len() - from,
{
    if from < 0 || from >= sessions.len() {
        None
    } else if sessions[from].name == name {
        Some(from)
    } else {
        first_named(sessions, name, from + 1)
    }
}

/// The decision for `name` under `sessions`. Names are compared exactly; of
/// several sessions with the name the first one counts.
pub open spec fn resolution(name: Seq<char>, sessions: Seq<SessionView>) -> DecisionView {
    match first_named(sessions, name, 0) {
        None => DecisionView::Create(name),
        Some(i) => if sessions[i].exited {
            DecisionView::Recreate(name)
        } else {
            DecisionView::Attach(name)
        },
    }
}

/// `first_named` finds a session exactly when one has the name, and then the
/// first such.
pub proof fn lemma_first_named(sessions: Seq<SessionView>, name: Seq<char>, from: int)
    requires
        0 <= from,
    ensures
        first_named(sessions, name, from) is None <==> forall|i: int|
            from <= i < sessions.len() ==> (#[trigger] sessions[i]).name != name,
        first_named(sessions, name, from) matches Some(found) ==> {
            &&& from <= found < sessions.len()
            &&& sessions[found].name == name
            &&& forall|i: int| from <= i < found ==> (#[trigger] sessions[i]).name != name
        },
    decreases sessions.len() - from,
{
    if from < sessions.len() && sessions[from].name != name {
        lemma_first_named(sessions, name, from + 1);
    }
}

/// The rule of resolution: a name that no session has is created; otherwise
/// the first session of that name decides, recreate if it has exited, attach
/// if not.
pub proof fn lemma_resolution_rule(name: Seq<char>, sessions: Seq<SessionView>)
    ensures
        (forall|i: int| 0 <= i < sessions.len() ==> (#[trigger] sessions[i]).name != name)
            ==> resolution(name, sessions) == DecisionView::Create(name),
        forall|k: int|
            0 <= k < sessions.len() && (#[trigger] sessions[k]).name == name && (forall|i: int|
                0 <= i < k ==> (#[trigger] sessions[i]).name != name) ==> resolution(name, sessions)
                == if sessions[k].exited {
                DecisionView::Recreate(name)
            } else {
                DecisionView::Attach(name)
            },
{
    lemma_first_named(sessions, name, 0);
}

/// Decides how to open the session `desired_name`, given the sessions that
/// exist.
pub fn resolve(desired_name: &str, sessions: &Vec<ZellijSession>) -> (decision: LaunchDecision)
    ensures
        decision@ == resolution(desired_name@, sessions_view(sessions@)),
{
    let wanted = desired_name.to_owned();
    let ghost views = sessions_view(sessions@);
    let mut i: usize = 0;
    while i < sessions.len()
        invariant
            i <= sessions@.len(),
            wanted@ == desired_name@,
            views == sessions_view(sessions@),
            first_named(views, wanted@, 0) == first_named(views, wanted@, i as int),
        decreases sessions@.len() - i,
    {
        if sessions[i].name == wanted {
            return if sessions[i].exited {
                LaunchDecision::Recreate(wanted)
            } else {
                LaunchDecision::Attach(wanted)
            };
        }
        i += 1;
    }
    LaunchDecision::Create(wanted)
}

/// The decision for `name` under the raw output of a listing command. Output
/// that is no listing gives no decision: a session that was skipped could be
/// created a second time.
pub open spec fn resolution_of_output(name: Seq<char>, output: Seq<u8>) -> Result<
    DecisionView,
    ListingFault,
> {
    match listing_of_output(output) {
        Ok(sessions) => Ok(resolution(name, sessions)),
        Err(fault) => Err(fault),
    }
}

/// The value of the result of a decision that may fail.
pub open spec fn decision_result_view(result: Result<LaunchDecision, ListingError>) -> Result<
    DecisionView,
    ListingFault,
> {
    match result {
        Ok(decision) => Ok(decision@),
        Err(error) => Err(error@),
    }
}

/// Decides how to open the session `desired_name` from the captured output
/// of the listing command.
pub fn resolve_from_output(desired_name: &str, output: &[u8]) -> (result: Result<
    LaunchDecision,
    ListingError,
>)
    ensures
        decision_result_view(result) == resolution_of_output(desired_name@, output@),
{
    match parse_listing_output(output) {
        Ok(sessions) => Ok(resolve(desired_name, &sessions)),
        Err(error) => Err(error),
    }
}

} // verus!
