use basebuilder::actions::{
    check_job_canceled_step, check_target_exists_step, complete_job_step, dig_step, fell_step,
    hand_over_step, meander_step, move_to_action_area_step, move_to_position_step,
    move_to_tile_step, next_action, pick_jobs, routine_step, set_target_step, ActionState,
    DigActionBuilder, DigSight, DigTarget, FellActionBuilder, FellSight, FellTarget, Labour,
    MoveToFellActionBuilder, Stride, TileApproach,
};
use basebuilder::actions::{heading_for, meander_weights, random_heading, Heading};
use basebuilder::entity::EntityId;

const ALL_STATES: [ActionState; 6] = [
    ActionState::Init,
    ActionState::Requested,
    ActionState::Executing,
    ActionState::Cancelled,
    ActionState::Success,
    ActionState::Failure,
];

#[test]
fn routine_starts_requests_and_fails_cancellations() {
    assert_eq!(routine_step(ActionState::Requested), ActionState::Executing);
    assert_eq!(routine_step(ActionState::Cancelled), ActionState::Failure);
    assert_eq!(routine_step(ActionState::Init), ActionState::Init);
    assert_eq!(routine_step(ActionState::Executing), ActionState::Executing);
    assert_eq!(routine_step(ActionState::Success), ActionState::Success);
    assert_eq!(routine_step(ActionState::Failure), ActionState::Failure);
}

#[test]
fn finished_actions_stay_finished_in_every_step() {
    for finished in [ActionState::Success, ActionState::Failure] {
        assert_eq!(hand_over_step(finished, true), (finished, false));
        assert_eq!(move_to_position_step(finished, false, true), (finished, Stride::Keep));
        assert_eq!(meander_step(finished, true), (finished, false));
        assert_eq!(complete_job_step(finished, true), (finished, false));
        assert_eq!(check_job_canceled_step(finished, true, true), finished);
    }
}

#[test]
fn hand_over_succeeds_only_within_reach() {
    assert_eq!(hand_over_step(ActionState::Executing, true), (ActionState::Success, true));
    assert_eq!(hand_over_step(ActionState::Executing, false), (ActionState::Failure, false));
    assert_eq!(hand_over_step(ActionState::Requested, true), (ActionState::Executing, false));
}

#[test]
fn move_to_position_follows_a_path_until_arrival() {
    assert_eq!(
        move_to_position_step(ActionState::Executing, false, true),
        (ActionState::Executing, Stride::FollowPath)
    );
    assert_eq!(
        move_to_position_step(ActionState::Executing, true, false),
        (ActionState::Success, Stride::Keep)
    );
    assert_eq!(
        move_to_position_step(ActionState::Executing, false, false),
        (ActionState::Failure, Stride::Keep)
    );
    assert_eq!(
        move_to_position_step(ActionState::Cancelled, false, true),
        (ActionState::Failure, Stride::Keep)
    );
}

#[test]
fn move_to_action_area_halts_on_arrival() {
    assert_eq!(
        move_to_action_area_step(ActionState::Executing, false, true, true),
        (ActionState::Failure, Stride::Keep)
    );
    assert_eq!(
        move_to_action_area_step(ActionState::Executing, true, true, false),
        (ActionState::Success, Stride::Halt)
    );
    assert_eq!(
        move_to_action_area_step(ActionState::Executing, true, false, true),
        (ActionState::Executing, Stride::FollowPath)
    );
    assert_eq!(
        move_to_action_area_step(ActionState::Executing, true, false, false),
        (ActionState::Failure, Stride::Keep)
    );
}

#[test]
fn move_to_tile_is_cancelled_when_the_tile_is_gone() {
    let seen = TileApproach {
        has_target: true,
        tile_exists: false,
        tile_placed: true,
        at_work_area: false,
        path_found: true,
    };
    assert_eq!(
        move_to_tile_step(ActionState::Executing, seen),
        (ActionState::Cancelled, Stride::Keep)
    );
    assert_eq!(
        move_to_tile_step(ActionState::Cancelled, seen),
        (ActionState::Failure, Stride::Halt)
    );
    let arrived = TileApproach { tile_exists: true, at_work_area: true, ..seen };
    assert_eq!(
        move_to_tile_step(ActionState::Executing, arrived),
        (ActionState::Success, Stride::Halt)
    );
    let no_target = TileApproach { has_target: false, ..arrived };
    assert_eq!(
        move_to_tile_step(ActionState::Executing, no_target),
        (ActionState::Failure, Stride::Keep)
    );
}

#[test]
fn digging_starts_the_timer_then_finishes_when_the_tile_breaks() {
    let mut seen = DigSight {
        has_target: true,
        tile_exists: true,
        tile_placed: true,
        at_work_area: true,
        digging: false,
        tile_destroyed: false,
    };
    assert_eq!(dig_step(ActionState::Executing, seen), (ActionState::Executing, Labour::Start));
    seen.digging = true;
    assert_eq!(dig_step(ActionState::Executing, seen), (ActionState::Executing, Labour::Keep));
    seen.tile_destroyed = true;
    assert_eq!(dig_step(ActionState::Executing, seen), (ActionState::Success, Labour::Finish));
    seen.at_work_area = false;
    assert_eq!(dig_step(ActionState::Executing, seen), (ActionState::Failure, Labour::Stop));
    seen.tile_exists = false;
    assert_eq!(dig_step(ActionState::Executing, seen), (ActionState::Cancelled, Labour::Keep));
    assert_eq!(dig_step(ActionState::Cancelled, seen), (ActionState::Failure, Labour::Stop));
}

#[test]
fn felling_finishes_when_the_tree_falls() {
    let mut seen = FellSight {
        has_target: true,
        tree_destroyed: false,
        tree_exists: true,
        at_action_area: true,
        felling: false,
    };
    assert_eq!(fell_step(ActionState::Executing, seen), (ActionState::Executing, Labour::Start));
    seen.felling = true;
    assert_eq!(fell_step(ActionState::Executing, seen), (ActionState::Executing, Labour::Keep));
    seen.at_action_area = false;
    assert_eq!(fell_step(ActionState::Executing, seen), (ActionState::Failure, Labour::Abandon));
    seen.tree_destroyed = true;
    assert_eq!(fell_step(ActionState::Executing, seen), (ActionState::Success, Labour::Finish));
    seen.tree_destroyed = false;
    seen.tree_exists = false;
    assert_eq!(fell_step(ActionState::Executing, seen), (ActionState::Failure, Labour::Keep));
    seen.has_target = false;
    assert_eq!(fell_step(ActionState::Executing, seen), (ActionState::Failure, Labour::Keep));
    assert_eq!(fell_step(ActionState::Cancelled, seen), (ActionState::Failure, Labour::Stop));
}

#[test]
fn set_target_takes_the_job_target() {
    let tile = EntityId(9);
    assert_eq!(
        set_target_step(ActionState::Executing, Some(tile)),
        (ActionState::Success, Some(tile))
    );
    assert_eq!(set_target_step(ActionState::Requested, None), (ActionState::Executing, None));
}

#[test]
fn watching_a_target_succeeds_once_it_is_gone() {
    assert_eq!(
        check_target_exists_step(ActionState::Executing, true, true, true),
        ActionState::Executing
    );
    assert_eq!(
        check_target_exists_step(ActionState::Executing, true, true, false),
        ActionState::Success
    );
    assert_eq!(
        check_target_exists_step(ActionState::Executing, false, true, false),
        ActionState::Cancelled
    );
    assert_eq!(
        check_target_exists_step(ActionState::Executing, true, false, true),
        ActionState::Cancelled
    );
}

#[test]
fn completing_a_job_needs_a_job() {
    assert_eq!(complete_job_step(ActionState::Executing, true), (ActionState::Success, true));
    assert_eq!(complete_job_step(ActionState::Executing, false), (ActionState::Failure, false));
}

#[test]
fn watching_for_cancellation() {
    assert_eq!(check_job_canceled_step(ActionState::Executing, true, true), ActionState::Success);
    assert_eq!(check_job_canceled_step(ActionState::Executing, true, false), ActionState::Executing);
    assert_eq!(check_job_canceled_step(ActionState::Executing, false, true), ActionState::Cancelled);
}

#[test]
fn meandering_needs_legs() {
    assert_eq!(meander_step(ActionState::Executing, true), (ActionState::Executing, true));
    assert_eq!(meander_step(ActionState::Executing, false), (ActionState::Failure, false));
}

#[test]
fn next_action_is_the_first_open_action_child() {
    let children = [(EntityId(1), false), (EntityId(2), true), (EntityId(3), true)];
    assert_eq!(next_action(&children), Some(EntityId(2)));
    assert_eq!(next_action(&[(EntityId(1), false)]), None);
    assert_eq!(next_action(&[]), None);
}

#[test]
fn picking_jobs_takes_them_from_the_top_of_the_stack() {
    let states = [ActionState::Executing, ActionState::Requested, ActionState::Executing, ActionState::Executing];
    let (next, jobs) = pick_jobs(&states, vec![EntityId(10), EntityId(11)]);
    assert_eq!(
        next,
        vec![ActionState::Success, ActionState::Executing, ActionState::Success, ActionState::Failure]
    );
    assert_eq!(jobs, vec![Some(EntityId(11)), None, Some(EntityId(10)), None]);
}

#[test]
fn picking_jobs_without_free_jobs_changes_nothing() {
    let (next, jobs) = pick_jobs(&ALL_STATES, vec![]);
    assert_eq!(next, ALL_STATES.to_vec());
    assert_eq!(jobs, vec![None; 6]);
}

#[test]
fn builders_act_on_the_worker_target() {
    assert_eq!(DigActionBuilder.build(&DigTarget(EntityId(4))).0, EntityId(4));
    assert_eq!(FellActionBuilder.build(&FellTarget(EntityId(5))).0, EntityId(5));
    assert_eq!(MoveToFellActionBuilder.build(&FellTarget(EntityId(6))).0, EntityId(6));
}

#[test]
fn heading_follows_the_weight_picked() {
    assert_eq!(heading_for(0), Heading::Keep);
    assert_eq!(heading_for(1), Heading::TurnAround);
    for _ in 0..50 {
        let heading = random_heading();
        assert!(heading == Heading::Keep || heading == Heading::TurnAround);
    }
}

#[test]
fn a_wandering_worker_keeps_its_direction_seventy_to_one() {
    assert_eq!(meander_weights(), vec![70, 1]);
    let keeps = (0..2000).filter(|_| random_heading() == Heading::Keep).count();
    assert!(keeps > 1800);
}
