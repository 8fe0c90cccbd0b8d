//! The commands that drive a reveal, and what each asks of the host.
//!
//! The host runs the loop: it hands each message to [`update`], and does
//! what the effect that comes back asks for.

use vstd::prelude::*;
use super::contest::{ContestError, ContestFile};
use super::intake::Intake;
use super::revelation::Revelation;
use super::runs_file::RunsFile;
use super::reveal_state::RevealState;

verus! {

/// A message to the reveal.
pub enum Msg {
    /// Disclose this many verdicts.
    Prox(usize),
    /// Disclose one verdict.
    Prox1,
    /// Start over from a fresh feed and roster.
    Reset,
    /// The feed and the roster that were asked for, each as far as it
    /// could be had.
    Fetched(Option<RunsFile>, Option<ContestFile>),
}

/// Why a message could not be carried out.
#[derive(Debug)]
pub enum Fault {
    /// The feed of runs could not be had.
    Runs,
    /// The roster could not be had.
    Contest,
    /// Feed, queue and roster do not fit together.
    Engine(ContestError),
}

/// What the host is to do after a message.
#[derive(Debug)]
pub enum Effect {
    /// Show the standings as they are now.
    Render,
    /// Get the feed and the roster, and come back with [`Msg::Fetched`].
    Fetch,
    /// Report the fault; the reveal is as it was.
    Log(Fault),
}

impl Msg {
    /// A roster that comes with the message is well-formed.
    pub open spec fn wf(&self) -> bool {
        self matches Msg::Fetched(_, Some(contest)) ==> contest.wf()
    }
}

/// Carries out one message.
///
/// A disclosure goes as [`Revelation::apply_one_run_from_queue`] and
/// [`Revelation::apply_runs_from_queue`] say. A reset changes nothing and
/// asks the host to fetch. What was fetched replaces the reveal if both
/// feed and roster came and the roster has the team of every run: the
/// feed is then taken in as the freeze of the new contest asks, the queue
/// is seeded from nothing, and the standings are computed. In every
/// other case the reveal stays as it was and the fault is reported; a
/// missing feed is reported before a missing roster.
pub fn update(msg: Msg, model: &mut Revelation) -> (effect: Effect)
    requires
        old(model).wf(),
        msg.wf(),
    ensures
        final(model).wf(),
        match msg {
            Msg::Prox1 => {
                &&& final(model).runs@ == old(model).runs@
                &&& final(model).state() == old(model).state().revealed_one()
                &&& effect is Render <==> old(model).runs_queue@.len() == 0
                    || old(model).state().can_step()
                &&& effect matches Effect::Log(fault) ==> {
                    &&& *final(model) == *old(model)
                    &&& fault matches Fault::Engine(ContestError::UnmatchedTeam(login))
                    &&& login@ == old(model).runs_queue@.last().team_login
                }
                &&& !(effect is Fetch)
            },
            Msg::Prox(n) => {
                &&& final(model).runs@ == old(model).runs@
                &&& effect is Render <==> old(model).state().clear_for(n as nat)
                &&& effect is Render ==> final(model).state() == old(model).state().stepped_n(
                    n as nat,
                ).ranked()
                &&& effect matches Effect::Log(fault) ==> {
                    &&& *final(model) == *old(model)
                    &&& fault matches Fault::Engine(ContestError::UnmatchedTeam(login))
                    &&& login@ == old(model).state().blocking_login(n as nat)
                }
                &&& !(effect is Fetch)
            },
            Msg::Reset => effect is Fetch && *final(model) == *old(model),
            Msg::Fetched(None, _) => {
                &&& effect matches Effect::Log(Fault::Runs)
                &&& *final(model) == *old(model)
            },
            Msg::Fetched(Some(_), None) => {
                &&& effect matches Effect::Log(Fault::Contest)
                &&& *final(model) == *old(model)
            },
            Msg::Fetched(Some(runs), Some(contest)) => {
                &&& effect is Render <==> contest@.knows_all(runs@)
                &&& effect is Render ==> {
                    &&& final(model).runs@ == runs@
                    &&& final(model).state() == (RevealState {
                        contest: contest@,
                        queue: Seq::empty(),
                    }).loaded(runs@, Intake::FrozenFrom(contest.score_freeze_time))
                    &&& final(model).state().coherent()
                }
                &&& effect matches Effect::Log(fault) ==> {
                    &&& *final(model) == *old(model)
                    &&& fault matches Fault::Engine(ContestError::UnmatchedTeam(login))
                    &&& login@ == contest@.first_unknown_login(runs@)
                }
                &&& !(effect is Fetch)
            },
        },
{
    match msg {
        Msg::Prox1 => match model.apply_one_run_from_queue() {
            Ok(_) => Effect::Render,
            Err(e) => Effect::Log(Fault::Engine(e)),
        },
        Msg::Prox(n) => match model.apply_runs_from_queue(n) {
            Ok(_) => Effect::Render,
            Err(e) => Effect::Log(Fault::Engine(e)),
        },
        Msg::Reset => Effect::Fetch,
        Msg::Fetched(None, _) => Effect::Log(Fault::Runs),
        Msg::Fetched(Some(_), None) => Effect::Log(Fault::Contest),
        Msg::Fetched(Some(runs), Some(contest)) => {
            let mut fresh = Revelation::new(contest, runs);
            match fresh.apply_all_runs_before_frozen() {
                Ok(_) => {
                    *model = fresh;
                    Effect::Render
                },
                Err(e) => Effect::Log(Fault::Engine(e)),
            }
        },
    }
}

} // verus!
