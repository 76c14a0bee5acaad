//! The worker's configuration, its control events, and the lifecycle state
//! machine that drives reconciliation and clean shutdown.
//!
//! The surrounding process owns the timer, the channel and the threads; the
//! decisions stand here. Each received event is fed to `step`, which says
//! what the worker must do next and what state it is in afterwards. The
//! lifecycle runs one way: once the worker leaves `Running` it never
//! returns.

use vstd::prelude::*;

use crate::source::SourceIdentifier;
use crate::source::SourceIdView;

verus! {

/// What the worker runs with.
pub struct KeyperConfig {
    /// The configured sources, in configuration order.
    pub sources: Vec<SourceIdentifier>,
    /// Path of the target `authorized_keys`-style file.
    pub file_path: String,
    /// Seconds between refresh cycles.
    pub interval: u64,
}

/// An event on the worker's control channel.
#[derive(Clone, Copy, PartialEq, Eq, Structural, Debug)]
pub enum Message {
    /// The timer asks for one reconciliation cycle.
    Refresh,
    /// A termination request: remove the managed block and exit.
    Quit,
}

/// The worker's lifecycle state.
#[derive(Clone, Copy, PartialEq, Eq, Structural, Debug)]
pub enum WorkerState {
    Running,
    Stopping,
    Terminated,
}

/// What the surrounding process must do after a step.
#[derive(Clone, Copy, PartialEq, Eq, Structural, Debug)]
pub enum WorkerAction {
    /// Run one fetch-merge-write cycle, then keep listening.
    RunRefresh,
    /// Remove the managed block, write the file back, and let the worker end.
    RemoveBlock,
    /// Nothing: the worker is already shutting down or gone.
    Ignore,
}

/// The transition table of the lifecycle.
pub open spec fn step_spec(state: WorkerState, msg: Message) -> (WorkerState, WorkerAction) {
    match (state, msg) {
        (WorkerState::Running, Message::Refresh) => (
            WorkerState::Running,
            WorkerAction::RunRefresh,
        ),
        (WorkerState::Running, Message::Quit) => (WorkerState::Stopping, WorkerAction::RemoveBlock),
        (WorkerState::Stopping, _) => (WorkerState::Stopping, WorkerAction::Ignore),
        (WorkerState::Terminated, _) => (WorkerState::Terminated, WorkerAction::Ignore),
    }
}

/// Feeds one control event to the lifecycle.
pub fn step(state: WorkerState, msg: Message) -> (r: (WorkerState, WorkerAction))
    ensures
        r == step_spec(state, msg),
{
    match (state, msg) {
        (WorkerState::Running, Message::Refresh) => (
            WorkerState::Running,
            WorkerAction::RunRefresh,
        ),
        (WorkerState::Running, Message::Quit) => (WorkerState::Stopping, WorkerAction::RemoveBlock),
        (WorkerState::Stopping, _) => (WorkerState::Stopping, WorkerAction::Ignore),
        (WorkerState::Terminated, _) => (WorkerState::Terminated, WorkerAction::Ignore),
    }
}

/// Marks the worker terminated once the shutdown write is done.
pub fn finish_shutdown(state: WorkerState) -> (r: WorkerState)
    requires
        state is Stopping,
    ensures
        r is Terminated,
{
    WorkerState::Terminated
}

/// How far along the one-way lifecycle a state is.
pub open spec fn state_rank(state: WorkerState) -> int {
    match state {
        WorkerState::Running => 0,
        WorkerState::Stopping => 1,
        WorkerState::Terminated => 2,
    }
}

/// The lifecycle is one-way: no event ever moves the worker backwards,
/// and nothing re-enters `Running`.
pub proof fn lemma_lifecycle_one_way(state: WorkerState, msg: Message)
    ensures
        state_rank(step_spec(state, msg).0) >= state_rank(state),
        step_spec(state, msg).0 is Running ==> state is Running,
{
}

/// A configuration error found before the service starts.
#[derive(Debug)]
pub enum ConfigError {
    /// No sources were given at all.
    NoSources,
    /// The given sources that parsed to `Invalid`, in configuration order.
    InvalidSources(Vec<SourceIdentifier>),
}

/// The identifiers among `ss` that are `Invalid`, in order.
pub open spec fn invalid_views(ss: Seq<SourceIdView>) -> Seq<SourceIdView>
    decreases ss.len(),
{
    if ss.len() == 0 {
        Seq::empty()
    } else if ss[0] is Invalid {
        seq![ss[0]] + invalid_views(ss.drop_first())
    } else {
        invalid_views(ss.drop_first())
    }
}

/// Checks a configuration's sources: there must be at least one, and none
/// may be `Invalid`. Exactly the offending identifiers come back.
pub fn validate_sources(sources: &Vec<SourceIdentifier>) -> (r: Result<(), ConfigError>)
    ensures
        r is Ok <==> (sources@.len() > 0 && (forall|i: int|
            0 <= i < sources@.len() ==> !(sources@[i]@ is Invalid))),
        sources@.len() == 0 ==> r == Err::<(), ConfigError>(ConfigError::NoSources),
        r matches Err(ConfigError::InvalidSources(v)) ==> v.deep_view() == invalid_views(
            sources.deep_view(),
        ) && v.deep_view().len() > 0,
{
    if sources.len() == 0 {
        return Err(ConfigError::NoSources);
    }
    let ghost sdv = sources.deep_view();
    let mut inv: Vec<SourceIdentifier> = Vec::new();
    let mut i: usize = 0;
    proof {
        assert(sdv.skip(0) =~= sdv);
        assert(inv.deep_view() =~= Seq::<SourceIdView>::empty());
    }
    while i < sources.len()
        invariant
            i <= sources.len(),
            invalid_views(sdv) == inv.deep_view() + invalid_views(sdv.skip(i as int)),
            (inv.deep_view().len() == 0) <==> (forall|j: int|
                0 <= j < i ==> !(sdv[j] is Invalid)),
        decreases sources.len() - i,
    {
        let ghost rest = sdv.skip(i as int);
        let ghost before = inv.deep_view();
        proof {
            assert(rest[0] == sdv[i as int]);
            assert(rest.drop_first() =~= sdv.skip(i + 1));
        }
        let is_invalid = match &sources[i] {
            SourceIdentifier::Invalid(_) => true,
            _ => false,
        };
        if is_invalid {
            inv.push(sources[i].duplicate());
            proof {
                assert(inv.deep_view() =~= before.push(sdv[i as int]));
                assert(before + (seq![rest[0]] + invalid_views(rest.drop_first()))
                    =~= inv.deep_view() + invalid_views(sdv.skip(i + 1)));
            }
        }
        i += 1;
    }
    proof {
        assert(sdv.skip(sources.len() as int) =~= Seq::<SourceIdView>::empty());
        assert(invalid_views(sdv) =~= inv.deep_view());
    }
    if inv.len() == 0 {
        proof {
            assert(inv.deep_view().len() == 0);
            assert forall|j: int| 0 <= j < sources@.len() implies !(sources@[j]@ is Invalid) by {
                assert(sdv[j] == sources@[j]@);
                assert(!(sdv[j] is Invalid));
            }
        }
        Ok(())
    } else {
        proof {
            assert(inv.deep_view().len() > 0);
            assert(!(forall|j: int| 0 <= j < sources@.len() ==> !(sdv[j] is Invalid)));
            let j = choose|j: int| 0 <= j < sources@.len() && sdv[j] is Invalid;
            assert(sources@[j]@ is Invalid);
        }
        Err(ConfigError::InvalidSources(inv))
    }
}

} // verus!
