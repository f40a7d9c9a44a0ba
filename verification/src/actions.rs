//! The workers' actions: what each action does on each tick, given what its system saw
//! of the world, and the markers of an action's life.

use vstd::prelude::*;
use std::marker::PhantomData;
use crate::entity::EntityId;

verus! {

/// The systems that move actions through their life.
pub struct ActionSet;

/// Marks an entity as an action waiting to be performed by its parent.
pub struct Action;

/// Marks an action that its performer has started.
pub struct StartedAction;

/// Marks an action that has finished.
pub struct CompletedAction;

/// Marks an action that has been put aside.
pub struct SuspendedAction;

/// The action a performer is carrying out.
pub struct CurrentAction(pub EntityId);

/// Marks a worker that is walking somewhere.
pub struct Moving;

/// The action of wandering about.
pub struct Meander;

/// The scorer that is high when some job has no worker.
pub struct JobsAvailable;

/// The scorer that is high when the worker has a job.
pub struct CurrentlyAssignedJob;

/// The action of completing the worker's job.
pub struct CompleteJob;

/// The action of watching for the worker's job to be canceled.
pub struct CheckJobCanceled;

/// The action of picking up a thing.
#[derive(Clone, Copy, Debug, PartialEq, Eq, Structural)]
pub struct Pickup {
    pub entity: EntityId,
}

/// The action of delivering a load to a destination.
#[derive(Clone, Copy, Debug, PartialEq, Eq, Structural)]
pub struct Deliver {
    pub load: EntityId,
    pub to: EntityId,
}

/// The action of digging out a tile.
pub struct Dig(pub EntityId);

/// The tile a worker is to dig out.
pub struct DigTarget(pub EntityId);

/// The action of felling a tree.
pub struct Fell(pub EntityId);

/// The tree a worker is to fell.
pub struct FellTarget(pub EntityId);

/// Builds the digging action for a worker's dig target.
pub struct DigActionBuilder;

/// Builds the felling action for a worker's fell target.
pub struct FellActionBuilder;

/// Builds the action of walking to a worker's fell target.
pub struct MoveToFellActionBuilder;

/// The scorer that is high when the action area of some `T` can be reached.
pub struct ActionAreaReachable<T>(pub PhantomData<T>);

/// Builds the scorer `ActionAreaReachable<T>`.
pub struct ActionAreaReachableBuilder<T>(pub PhantomData<T>);

impl<T> ActionAreaReachable<T> {
    /// The builder of this scorer.
    pub fn build() -> (builder: ActionAreaReachableBuilder<T>)
        ensures
            builder == ActionAreaReachableBuilder::<T>(PhantomData),
    {
        ActionAreaReachableBuilder(PhantomData)
    }
}

impl DigActionBuilder {
    /// The digging action for the worker's dig target: dig the same tile.
    pub fn build(&self, target: &DigTarget) -> (action: Dig)
        ensures
            action.0 == target.0,
    {
        Dig(target.0)
    }
}

impl FellActionBuilder {
    /// The felling action for the worker's fell target: fell the same tree.
    pub fn build(&self, target: &FellTarget) -> (action: Fell)
        ensures
            action.0 == target.0,
    {
        Fell(target.0)
    }
}

impl MoveToFellActionBuilder {
    /// The tree whose action area the worker is to walk to: the fell target.
    pub fn build(&self, target: &FellTarget) -> (action: Fell)
        ensures
            action.0 == target.0,
    {
        Fell(target.0)
    }
}

/// Where an action is in its life.
#[derive(Clone, Copy, Debug, PartialEq, Eq, Hash, Structural)]
pub enum ActionState {
    /// Nothing requested yet.
    Init,
    /// The action should start.
    Requested,
    /// The action is under way.
    Executing,
    /// The action should stop; its system ends it.
    Cancelled,
    /// The action succeeded.
    Success,
    /// The action failed.
    Failure,
}

/// What an action's system does with the states it does not handle itself: a request starts
/// execution, a cancellation ends in failure, and the other states stay.
pub open spec fn routine(state: ActionState) -> ActionState {
    match state {
        ActionState::Requested => ActionState::Executing,
        ActionState::Cancelled => ActionState::Failure,
        other => other,
    }
}

/// The next state of an action that only follows the routine.
pub fn routine_step(state: ActionState) -> (next: ActionState)
    ensures
        next == routine(state),
{
    match state {
        ActionState::Requested => ActionState::Executing,
        ActionState::Cancelled => ActionState::Failure,
        other => other,
    }
}

/// One tick of handing something over (delivering a load, picking up an item): it is done
/// when the worker is within reach, and fails otherwise. Returns the next state and whether
/// the thing changes hands now.
pub fn hand_over_step(state: ActionState, within_reach: bool) -> (result: (ActionState, bool))
    ensures
        state == ActionState::Executing ==> result == if within_reach {
            (ActionState::Success, true)
        } else {
            (ActionState::Failure, false)
        },
        state != ActionState::Executing ==> result == (routine(state), false),
{
    match state {
        ActionState::Executing => {
            if within_reach {
                (ActionState::Success, true)
            } else {
                (ActionState::Failure, false)
            }
        },
        _ => (routine_step(state), false),
    }
}

/// What a walking action asks of the worker's legs.
#[derive(Clone, Copy, Debug, PartialEq, Eq, Hash, Structural)]
pub enum Stride {
    /// Leave the legs as they are.
    Keep,
    /// Follow the path that was found.
    FollowPath,
    /// Stand still.
    Halt,
}

/// One tick of walking to a position or to an entity: done on arrival; otherwise the worker
/// follows a path if one was found, and the action fails if none was.
pub fn move_to_position_step(state: ActionState, arrived: bool, path_found: bool) -> (result: (ActionState, Stride))
    ensures
        state == ActionState::Executing ==> result == if arrived {
            (ActionState::Success, Stride::Keep)
        } else if path_found {
            (ActionState::Executing, Stride::FollowPath)
        } else {
            (ActionState::Failure, Stride::Keep)
        },
        state != ActionState::Executing ==> result == (routine(state), Stride::Keep),
{
    match state {
        ActionState::Executing => {
            if arrived {
                (ActionState::Success, Stride::Keep)
            } else if path_found {
                (ActionState::Executing, Stride::FollowPath)
            } else {
                (ActionState::Failure, Stride::Keep)
            }
        },
        _ => (routine_step(state), Stride::Keep),
    }
}

/// One tick of walking to the action area of a target: fails when the area is unknown; on
/// arrival the worker halts and the action succeeds; otherwise it follows a path if one was
/// found, and fails if none was.
pub fn move_to_action_area_step(state: ActionState, area_known: bool, arrived: bool, path_found: bool) -> (result: (
    ActionState,
    Stride,
))
    ensures
        state == ActionState::Executing ==> result == if !area_known {
            (ActionState::Failure, Stride::Keep)
        } else if arrived {
            (ActionState::Success, Stride::Halt)
        } else if path_found {
            (ActionState::Executing, Stride::FollowPath)
        } else {
            (ActionState::Failure, Stride::Keep)
        },
        state != ActionState::Executing ==> result == (routine(state), Stride::Keep),
{
    match state {
        ActionState::Executing => {
            if !area_known {
                (ActionState::Failure, Stride::Keep)
            } else if arrived {
                (ActionState::Success, Stride::Halt)
            } else if path_found {
                (ActionState::Executing, Stride::FollowPath)
            } else {
                (ActionState::Failure, Stride::Keep)
            }
        },
        _ => (routine_step(state), Stride::Keep),
    }
}

/// What the system of the walk to a dig site saw this tick.
#[derive(Clone, Copy, Debug, PartialEq, Eq, Hash, Structural)]
pub struct TileApproach {
    /// The worker has a dig target.
    pub has_target: bool,
    /// The target tile still exists.
    pub tile_exists: bool,
    /// The target tile has a position on the grid.
    pub tile_placed: bool,
    /// The worker stands at the work area around the tile.
    pub at_work_area: bool,
    /// A path to the work area was found.
    pub path_found: bool,
}

/// One tick of walking to a dig site: fails without a target or a tile position, is
/// cancelled when the tile is gone, succeeds (halting) at the work area, follows a path
/// if one was found and fails otherwise. A cancelled walk halts and fails.
pub fn move_to_tile_step(state: ActionState, seen: TileApproach) -> (result: (ActionState, Stride))
    ensures
        state == ActionState::Executing ==> result == if !seen.has_target {
            (ActionState::Failure, Stride::Keep)
        } else if !seen.tile_exists {
            (ActionState::Cancelled, Stride::Keep)
        } else if !seen.tile_placed {
            (ActionState::Failure, Stride::Keep)
        } else if seen.at_work_area {
            (ActionState::Success, Stride::Halt)
        } else if seen.path_found {
            (ActionState::Executing, Stride::FollowPath)
        } else {
            (ActionState::Failure, Stride::Keep)
        },
        state == ActionState::Cancelled ==> result == (ActionState::Failure, Stride::Halt),
        state != ActionState::Executing && state != ActionState::Cancelled ==> result == (routine(state), Stride::Keep),
{
    match state {
        ActionState::Executing => {
            if !seen.has_target {
                (ActionState::Failure, Stride::Keep)
            } else if !seen.tile_exists {
                (ActionState::Cancelled, Stride::Keep)
            } else if !seen.tile_placed {
                (ActionState::Failure, Stride::Keep)
            } else if seen.at_work_area {
                (ActionState::Success, Stride::Halt)
            } else if seen.path_found {
                (ActionState::Executing, Stride::FollowPath)
            } else {
                (ActionState::Failure, Stride::Keep)
            }
        },
        ActionState::Cancelled => (ActionState::Failure, Stride::Halt),
        _ => (routine_step(state), Stride::Keep),
    }
}

/// What a working action (digging, felling) does to the worker's work timer and target.
#[derive(Clone, Copy, Debug, PartialEq, Eq, Hash, Structural)]
pub enum Labour {
    /// Nothing changes.
    Keep,
    /// Start the work timer on the target.
    Start,
    /// The work is done: remove the work timer and the target.
    Finish,
    /// Remove the work timer.
    Stop,
    /// Remove the work timer and the target.
    Abandon,
}

/// What the digging system saw this tick.
#[derive(Clone, Copy, Debug, PartialEq, Eq, Hash, Structural)]
pub struct DigSight {
    /// The worker has a dig target.
    pub has_target: bool,
    /// The target tile still exists.
    pub tile_exists: bool,
    /// The target tile has a position on the grid.
    pub tile_placed: bool,
    /// The worker stands at the work area around the tile.
    pub at_work_area: bool,
    /// The worker's dig timer runs.
    pub digging: bool,
    /// The tile of the dig timer was destroyed.
    pub tile_destroyed: bool,
}

/// One tick of digging: cancelled when the target or its tile is gone, fails without a
/// tile position; at the work area the timer is started, or, once the tile is destroyed,
/// the digging finishes in success; away from it the timer stops and the action fails.
/// A cancelled dig stops the timer and fails.
pub fn dig_step(state: ActionState, seen: DigSight) -> (result: (ActionState, Labour))
    ensures
        state == ActionState::Executing ==> result == if !seen.has_target || !seen.tile_exists {
            (ActionState::Cancelled, Labour::Keep)
        } else if !seen.tile_placed {
            (ActionState::Failure, Labour::Keep)
        } else if seen.at_work_area {
            if !seen.digging {
                (ActionState::Executing, Labour::Start)
            } else if seen.tile_destroyed {
                (ActionState::Success, Labour::Finish)
            } else {
                (ActionState::Executing, Labour::Keep)
            }
        } else {
            (ActionState::Failure, Labour::Stop)
        },
        state == ActionState::Cancelled ==> result == (ActionState::Failure, Labour::Stop),
        state != ActionState::Executing && state != ActionState::Cancelled ==> result == (routine(state), Labour::Keep),
{
    match state {
        ActionState::Executing => {
            if !seen.has_target {
                (ActionState::Cancelled, Labour::Keep)
            } else if !seen.tile_exists {
                (ActionState::Cancelled, Labour::Keep)
            } else if !seen.tile_placed {
                (ActionState::Failure, Labour::Keep)
            } else if seen.at_work_area {
                if seen.digging {
                    if seen.tile_destroyed {
                        (ActionState::Success, Labour::Finish)
                    } else {
                        (ActionState::Executing, Labour::Keep)
                    }
                } else {
                    (ActionState::Executing, Labour::Start)
                }
            } else {
                (ActionState::Failure, Labour::Stop)
            }
        },
        ActionState::Cancelled => (ActionState::Failure, Labour::Stop),
        _ => (routine_step(state), Labour::Keep),
    }
}

/// What the felling system saw this tick.
#[derive(Clone, Copy, Debug, PartialEq, Eq, Hash, Structural)]
pub struct FellSight {
    /// The worker has a fell target.
    pub has_target: bool,
    /// The target tree was destroyed.
    pub tree_destroyed: bool,
    /// The target tree still exists.
    pub tree_exists: bool,
    /// The worker stands at the action area beside the tree.
    pub at_action_area: bool,
    /// The worker's felling timer runs.
    pub felling: bool,
}

/// One tick of felling: fails without a target; once the tree is destroyed the felling
/// finishes in success; fails when the tree is gone; at the action area the timer is
/// started if it does not run; away from it the timer and target are dropped and the
/// action fails. A cancelled felling stops the timer and fails.
pub fn fell_step(state: ActionState, seen: FellSight) -> (result: (ActionState, Labour))
    ensures
        state == ActionState::Executing ==> result == if !seen.has_target {
            (ActionState::Failure, Labour::Keep)
        } else if seen.tree_destroyed {
            (ActionState::Success, Labour::Finish)
        } else if !seen.tree_exists {
            (ActionState::Failure, Labour::Keep)
        } else if seen.at_action_area {
            if seen.felling {
                (ActionState::Executing, Labour::Keep)
            } else {
                (ActionState::Executing, Labour::Start)
            }
        } else {
            (ActionState::Failure, Labour::Abandon)
        },
        state == ActionState::Cancelled ==> result == (ActionState::Failure, Labour::Stop),
        state != ActionState::Executing && state != ActionState::Cancelled ==> result == (routine(state), Labour::Keep),
{
    match state {
        ActionState::Executing => {
            if !seen.has_target {
                (ActionState::Failure, Labour::Keep)
            } else if seen.tree_destroyed {
                (ActionState::Success, Labour::Finish)
            } else if !seen.tree_exists {
                (ActionState::Failure, Labour::Keep)
            } else if seen.at_action_area {
                if seen.felling {
                    (ActionState::Executing, Labour::Keep)
                } else {
                    (ActionState::Executing, Labour::Start)
                }
            } else {
                (ActionState::Failure, Labour::Abandon)
            }
        },
        ActionState::Cancelled => (ActionState::Failure, Labour::Stop),
        _ => (routine_step(state), Labour::Keep),
    }
}

/// One tick of setting a worker's target from its assigned job (a dig job's tile, a
/// felling job's tree): the target is set and the action succeeds. Returns the next state
/// and the target to set. An executing action needs the target: its job must exist.
pub fn set_target_step(state: ActionState, job_target: Option<EntityId>) -> (result: (ActionState, Option<EntityId>))
    requires
        state == ActionState::Executing ==> job_target is Some,
    ensures
        state == ActionState::Executing ==> result == (ActionState::Success, job_target),
        state != ActionState::Executing ==> result == (routine(state), None::<EntityId>),
{
    match state {
        ActionState::Executing => (ActionState::Success, job_target),
        _ => (routine_step(state), None),
    }
}

/// One tick of watching a worker's target (the tile of a dig job, the tree of a felling
/// job): succeeds once the target is gone; cancelled when the worker has no job or the job
/// is not of this kind; otherwise keeps watching.
pub fn check_target_exists_step(state: ActionState, has_job: bool, job_of_kind: bool, target_exists: bool) -> (next: ActionState)
    ensures
        state == ActionState::Executing ==> next == if !has_job || !job_of_kind {
            ActionState::Cancelled
        } else if !target_exists {
            ActionState::Success
        } else {
            ActionState::Executing
        },
        state != ActionState::Executing ==> next == routine(state),
{
    match state {
        ActionState::Executing => {
            if has_job {
                if job_of_kind {
                    if !target_exists {
                        ActionState::Success
                    } else {
                        ActionState::Executing
                    }
                } else {
                    ActionState::Cancelled
                }
            } else {
                ActionState::Cancelled
            }
        },
        _ => routine_step(state),
    }
}

/// One tick of completing the worker's job: done when the worker has a job, which is then
/// completed; fails otherwise. Returns the next state and whether the job is completed now.
pub fn complete_job_step(state: ActionState, has_job: bool) -> (result: (ActionState, bool))
    ensures
        state == ActionState::Executing ==> result == if has_job {
            (ActionState::Success, true)
        } else {
            (ActionState::Failure, false)
        },
        state != ActionState::Executing ==> result == (routine(state), false),
{
    match state {
        ActionState::Executing => {
            if has_job {
                (ActionState::Success, true)
            } else {
                (ActionState::Failure, false)
            }
        },
        _ => (routine_step(state), false),
    }
}

/// One tick of watching the worker's job for cancellation: succeeds when the job is
/// canceled, is cancelled when the worker has no job, keeps watching otherwise.
pub fn check_job_canceled_step(state: ActionState, has_job: bool, job_canceled: bool) -> (next: ActionState)
    ensures
        state == ActionState::Executing ==> next == if !has_job {
            ActionState::Cancelled
        } else if job_canceled {
            ActionState::Success
        } else {
            ActionState::Executing
        },
        state != ActionState::Executing ==> next == routine(state),
{
    match state {
        ActionState::Executing => {
            if has_job {
                if job_canceled {
                    ActionState::Success
                } else {
                    ActionState::Executing
                }
            } else {
                ActionState::Cancelled
            }
        },
        _ => routine_step(state),
    }
}

/// One tick of wandering: fails when the worker cannot walk, otherwise keeps wandering.
/// Returns the next state and whether the worker picks a direction now.
pub fn meander_step(state: ActionState, can_walk: bool) -> (result: (ActionState, bool))
    ensures
        state == ActionState::Executing ==> result == if can_walk {
            (ActionState::Executing, true)
        } else {
            (ActionState::Failure, false)
        },
        state != ActionState::Executing ==> result == (routine(state), false),
{
    match state {
        ActionState::Executing => {
            if can_walk {
                (ActionState::Executing, true)
            } else {
                (ActionState::Failure, false)
            }
        },
        _ => (routine_step(state), false),
    }
}

/// The odds that a wandering worker keeps its direction on a tick, against `TURN_AROUND_WEIGHT`.
pub const KEEP_DIRECTION_WEIGHT: u32 = 70;

/// The odds that a wandering worker turns around on a tick, against `KEEP_DIRECTION_WEIGHT`.
pub const TURN_AROUND_WEIGHT: u32 = 1;

/// The sum of the weights.
pub open spec fn weight_total(weights: Seq<u32>) -> int
    decreases weights.len(),
{
    if weights.len() == 0 {
        0
    } else {
        weight_total(weights.drop_last()) + weights.last()
    }
}

/// The random number generator of the current thread.
#[verifier::external_type_specification]
#[verifier::external_body]
pub struct ExThreadRng(rand::rngs::ThreadRng);

/// `rand::thread_rng`: the generator of the current thread, seeded by the system. Nothing
/// is claimed of its state.
#[verifier::external_body]
fn thread_rng() -> (rng: rand::rngs::ThreadRng) {
    rand::thread_rng()
}

/// `WeightedIndex::new` (rand) over the weights, sampled once from `rng`: the index of one
/// of the weights, picked with a chance in proportion to its weight. As its source shows,
/// `new` succeeds when there is at least one weight and they do not sum to zero, and the sum
/// is kept in a `u32`. `sample` draws a value below the total and returns the first index
/// whose running sum of weights passes it, so the index is one of the weights' and its
/// weight is not zero. Which index it is rests on chance and is not claimed.
#[verifier::external_body]
fn weighted_index(weights: &Vec<u32>, rng: &mut rand::rngs::ThreadRng) -> (index: usize)
    requires
        weights@.len() > 0,
        0 < weight_total(weights@) <= u32::MAX,
    ensures
        index < weights@.len(),
        weights@[index as int] > 0,
{
    let distribution = rand::distributions::WeightedIndex::new(weights.iter()).unwrap();
    rand::distributions::Distribution::sample(&distribution, rng)
}

/// What a wandering worker does with its direction on a tick.
#[derive(Clone, Copy, Debug, PartialEq, Eq, Hash, Structural)]
pub enum Heading {
    /// Keep going the same way.
    Keep,
    /// Turn around.
    TurnAround,
}

/// The weights of a wandering worker's choice, in order: keep the direction, turn around.
pub open spec fn meander_odds() -> Seq<u32> {
    seq![KEEP_DIRECTION_WEIGHT, TURN_AROUND_WEIGHT]
}

/// The heading of the choice at `choice`: the first keeps the direction, the second turns
/// around.
pub open spec fn heading_at(choice: int) -> Heading {
    if choice == 0 {
        Heading::Keep
    } else {
        Heading::TurnAround
    }
}

/// The weights a wandering worker's heading is drawn with; see `meander_odds`.
pub fn meander_weights() -> (weights: Vec<u32>)
    ensures
        weights@ == meander_odds(),
{
    let weights: Vec<u32> = vec![KEEP_DIRECTION_WEIGHT, TURN_AROUND_WEIGHT];
    assert(weights@ =~= meander_odds());
    weights
}

/// The heading for the weight that was picked: the first keeps the direction, the second
/// turns around.
pub fn heading_for(choice: usize) -> (heading: Heading)
    requires
        choice < 2,
    ensures
        heading == heading_at(choice as int),
{
    if choice == 0 {
        Heading::Keep
    } else {
        Heading::TurnAround
    }
}

/// Picks a wandering worker's heading at random, drawn with the weights of `meander_weights`:
/// it keeps its direction with odds `KEEP_DIRECTION_WEIGHT` against `TURN_AROUND_WEIGHT`.
/// The heading is that of a choice whose weight is not zero; which one rests on chance.
pub fn random_heading() -> (heading: Heading)
    ensures
        exists|choice: int| 0 <= choice < meander_odds().len() && meander_odds()[choice] > 0 && heading == heading_at(choice),
{
    let weights = meander_weights();
    proof {
        reveal_with_fuel(weight_total, 3);
        assert(weights@.drop_last().drop_last() =~= Seq::<u32>::empty());
    }
    let mut rng = thread_rng();
    let choice = weighted_index(&weights, &mut rng);
    let heading = heading_for(choice);
    assert(meander_odds()[choice as int] > 0 && heading == heading_at(choice as int));
    heading
}

/// The first child that is an action not yet completed, in the order of the children.
pub open spec fn first_open_action(children: Seq<(EntityId, bool)>) -> Option<EntityId>
    decreases children.len(),
{
    if children.len() == 0 {
        None
    } else if children[0].1 {
        Some(children[0].0)
    } else {
        first_open_action(children.drop_first())
    }
}

/// An idle performer starts the first of its children that is an open action, wherever it
/// stands among them (first, in the middle or last), and starts nothing only when no child
/// is an open action.
pub proof fn law_first_open_action_is_started(children: Seq<(EntityId, bool)>)
    ensures
        forall|k: int| 0 <= k < children.len() && (#[trigger] children[k]).1 && (forall|m: int| 0 <= m < k ==> !children[m].1)
            ==> first_open_action(children) == Some(children[k].0),
        (forall|k: int| 0 <= k < children.len() ==> !(#[trigger] children[k]).1) ==> first_open_action(children) is None,
    decreases children.len(),
{
    if children.len() > 0 {
        let rest = children.drop_first();
        law_first_open_action_is_started(rest);
        assert forall|k: int| 0 <= k < children.len() && (#[trigger] children[k]).1 && (forall|m: int| 0 <= m < k ==> !children[m].1)
            implies first_open_action(children) == Some(children[k].0) by {
            if k > 0 {
                assert(!children[0].1);
                assert(rest[k - 1] == children[k]);
                assert forall|m: int| 0 <= m < k - 1 implies !rest[m].1 by {
                    assert(rest[m] == children[m + 1]);
                }
            }
        }
        if forall|k: int| 0 <= k < children.len() ==> !(#[trigger] children[k]).1 {
            assert(!children[0].1);
            assert forall|k: int| 0 <= k < rest.len() implies !(#[trigger] rest[k]).1 by {
                assert(rest[k] == children[k + 1]);
            }
        }
    }
}

/// The next action an idle performer starts: the first of its children that is an action
/// not yet completed (each child comes with whether it is one).
pub fn next_action(children: &[(EntityId, bool)]) -> (next: Option<EntityId>)
    ensures
        next == first_open_action(children@),
{
    assert(children@.skip(0) =~= children@);
    let mut i: usize = 0;
    while i < children.len()
        invariant
            i <= children.len(),
            first_open_action(children@) == first_open_action(children@.skip(i as int)),
        decreases children.len() - i,
    {
        proof {
            assert(children@.skip(i as int).drop_first() =~= children@.skip(i + 1));
            assert(children@.skip(i as int)[0] == children@[i as int]);
        }
        if children[i].1 {
            return Some(children[i].0);
        }
        i = i + 1;
    }
    None
}


/// One tick of picking jobs for the workers whose job-picking actions are listed, in
/// order, from a stack of free jobs: an executing action takes the job on top of the
/// stack and succeeds, or fails when the stack is empty. Returns the next states, each
/// worker's new job, and the jobs left.
pub open spec fn picked(states: Seq<ActionState>, jobs: Seq<EntityId>) -> (Seq<ActionState>, Seq<Option<EntityId>>, Seq<EntityId>)
    decreases states.len(),
{
    if states.len() == 0 {
        (Seq::empty(), Seq::empty(), jobs)
    } else {
        let (next, got, left) = if states[0] == ActionState::Executing {
            if jobs.len() > 0 {
                (ActionState::Success, Some(jobs.last()), jobs.drop_last())
            } else {
                (ActionState::Failure, None, jobs)
            }
        } else {
            (routine(states[0]), None, jobs)
        };
        let rest = picked(states.drop_first(), left);
        (seq![next] + rest.0, seq![got] + rest.1, rest.2)
    }
}

/// Picks jobs for the workers whose job-picking actions are listed: when there is no free
/// job at all nothing happens; otherwise see `picked`. Returns the next states and each
/// worker's new job.
pub fn pick_jobs(states: &[ActionState], jobs: Vec<EntityId>) -> (result: (Vec<ActionState>, Vec<Option<EntityId>>))
    ensures
        jobs@.len() == 0 ==> result.0@ == states@ && result.1@ == Seq::new(states@.len(), |i: int| None::<EntityId>),
        jobs@.len() > 0 ==> result.0@ == picked(states@, jobs@).0 && result.1@ == picked(states@, jobs@).1,
{
    let mut next_states: Vec<ActionState> = Vec::new();
    let mut assigned: Vec<Option<EntityId>> = Vec::new();
    if jobs.len() == 0 {
        let mut i: usize = 0;
        while i < states.len()
            invariant
                i <= states.len(),
                next_states@ =~= states@.take(i as int),
                assigned@ =~= Seq::new(i as nat, |k: int| None::<EntityId>),
            decreases states.len() - i,
        {
            next_states.push(states[i]);
            assigned.push(None);
            assert(states@.take(i + 1) =~= states@.take(i as int).push(states@[i as int]));
            i = i + 1;
        }
        assert(states@.take(i as int) =~= states@);
        return (next_states, assigned);
    }
    let ghost goal = picked(states@, jobs@);
    let mut stack = jobs;
    assert(states@.skip(0) =~= states@);
    let mut i: usize = 0;
    while i < states.len()
        invariant
            i <= states.len(),
            next_states@.len() == i,
            assigned@.len() == i,
            goal == picked(states@, jobs@),
            goal.0 == next_states@ + picked(states@.skip(i as int), stack@).0,
            goal.1 == assigned@ + picked(states@.skip(i as int), stack@).1,
        decreases states.len() - i,
    {
        proof {
            assert(states@.skip(i as int).drop_first() =~= states@.skip(i + 1));
            assert(states@.skip(i as int)[0] == states@[i as int]);
        }
        let ghost before_states = next_states@;
        let ghost before_assigned = assigned@;
        
        match states[i] {
            ActionState::Executing => {
                match stack.pop() {
                    Some(job) => {
                        next_states.push(ActionState::Success);
                        assigned.push(Some(job));
                    },
                    None => {
                        next_states.push(ActionState::Failure);
                        assigned.push(None);
                    },
                }
            },
            other => {
                next_states.push(routine_step(other));
                assigned.push(None);
            },
        }
        proof {
            let rest = picked(states@.skip(i + 1), stack@);
            assert(next_states@ + rest.0 =~= before_states + (seq![next_states@[i as int]] + rest.0));
            assert(assigned@ + rest.1 =~= before_assigned + (seq![assigned@[i as int]] + rest.1));
        }
        i = i + 1;
    }
    proof {
        assert(states@.skip(i as int) =~= Seq::<ActionState>::empty());
        assert(next_states@ + Seq::<ActionState>::empty() =~= next_states@);
        assert(assigned@ + Seq::<Option<EntityId>>::empty() =~= assigned@);
    }
    (next_states, assigned)
}


/// Outside its own work an action's system only starts requested actions and ends
/// cancelled ones in failure: an action that has not been requested stays so, and a
/// finished action, in success or in failure, stays finished.
pub proof fn law_routine_keeps_finished()
    ensures
        routine(ActionState::Requested) == ActionState::Executing,
        routine(ActionState::Cancelled) == ActionState::Failure,
        routine(ActionState::Init) == ActionState::Init,
        routine(ActionState::Success) == ActionState::Success,
        routine(ActionState::Failure) == ActionState::Failure,
        forall|state: ActionState| routine(state) != ActionState::Cancelled && routine(state) != ActionState::Requested,
{
}

/// No identifier occurs twice in the sequence.
pub open spec fn distinct_ids(ids: Seq<EntityId>) -> bool {
    forall|i: int, j: int| 0 <= i < ids.len() && 0 <= j < ids.len() && i != j ==> ids[i] != ids[j]
}

/// Picking from a stack of distinct free jobs gives every job to at most one worker, gives
/// only jobs of the stack, takes them from its top, and leaves a stack of the jobs not given.
pub proof fn law_picked_jobs_distinct(states: Seq<ActionState>, jobs: Seq<EntityId>)
    requires
        distinct_ids(jobs),
    ensures
        picked(states, jobs).0.len() == states.len(),
        picked(states, jobs).1.len() == states.len(),
        picked(states, jobs).2 =~= jobs.take(picked(states, jobs).2.len() as int),
        picked(states, jobs).2.len() <= jobs.len(),
        forall|i: int| 0 <= i < states.len() && (#[trigger] picked(states, jobs).1[i]) is Some ==> {
            &&& jobs.contains(picked(states, jobs).1[i].unwrap())
            &&& !picked(states, jobs).2.contains(picked(states, jobs).1[i].unwrap())
        },
        forall|i: int, k: int|
            0 <= i < states.len() && 0 <= k < states.len() && i != k && (#[trigger] picked(states, jobs).1[i]) is Some
                && (#[trigger] picked(states, jobs).1[k]) is Some ==> picked(states, jobs).1[i] != picked(states, jobs).1[k],
    decreases states.len(),
{
    if states.len() > 0 {
        let (next, got, left): (ActionState, Option<EntityId>, Seq<EntityId>) = if states[0] == ActionState::Executing {
            if jobs.len() > 0 {
                (ActionState::Success, Some(jobs.last()), jobs.drop_last())
            } else {
                (ActionState::Failure, None, jobs)
            }
        } else {
            (routine(states[0]), None, jobs)
        };
        assert(distinct_ids(left)) by {
            assert forall|i: int, j: int| 0 <= i < left.len() && 0 <= j < left.len() && i != j implies left[i] != left[j] by {
                assert(left[i] == jobs[i] && left[j] == jobs[j]);
            }
        }
        assert(left =~= jobs.take(left.len() as int));
        law_picked_jobs_distinct(states.drop_first(), left);
        let rest = picked(states.drop_first(), left);
        let all = picked(states, jobs);
        assert(all.1 == seq![got] + rest.1);
        assert(all.2 == rest.2);
        assert(rest.2 =~= jobs.take(rest.2.len() as int)) by {
            assert forall|m: int| 0 <= m < rest.2.len() implies rest.2[m] == jobs[m] by {
                assert(rest.2[m] == left.take(rest.2.len() as int)[m]);
                assert(left[m] == jobs[m]);
            }
        }
        if got is Some {
            let top = jobs.last();
            assert(!left.contains(top)) by {
                if left.contains(top) {
                    let m = choose|m: int| 0 <= m < left.len() && left[m] == top;
                    assert(jobs[m] == jobs[jobs.len() - 1]);
                }
            }
            assert(!rest.2.contains(top)) by {
                if rest.2.contains(top) {
                    let m = choose|m: int| 0 <= m < rest.2.len() && rest.2[m] == top;
                    assert(left[m] == top);
                }
            }
            assert(jobs.contains(top)) by {
                assert(jobs[jobs.len() - 1] == top);
            }
        }
        assert forall|i: int| 0 <= i < states.len() && (#[trigger] all.1[i]) is Some implies {
            &&& jobs.contains(all.1[i].unwrap())
            &&& !all.2.contains(all.1[i].unwrap())
        } by {
            if i > 0 {
                assert(all.1[i] == rest.1[i - 1]);
                let v = rest.1[i - 1].unwrap();
                let m = choose|m: int| 0 <= m < left.len() && left[m] == v;
                assert(jobs[m] == v);
            }
        }
        assert forall|i: int, k: int|
            0 <= i < states.len() && 0 <= k < states.len() && i != k && (#[trigger] all.1[i]) is Some
                && (#[trigger] all.1[k]) is Some implies all.1[i] != all.1[k] by {
            if i > 0 && k > 0 {
                assert(all.1[i] == rest.1[i - 1]);
                assert(all.1[k] == rest.1[k - 1]);
            } else if i == 0 {
                assert(all.1[k] == rest.1[k - 1]);
                assert(left.contains(rest.1[k - 1].unwrap()));
            } else {
                assert(all.1[i] == rest.1[i - 1]);
                assert(left.contains(rest.1[i - 1].unwrap()));
            }
        }
    }
}

} // verus!
