use basebuilder::entity::EntityId;
use basebuilder::labor::{
    assign_jobs, closest_available_worker, commute_step, listed, shortest_path, stuck_step, CommuteStep,
    HaulItem, HaulRequest, JobCompletedEvent, JobOffer, StuckTimerChange,
};
use basebuilder::pathfinding::{Path, TilePos};

fn path(len: u32) -> Path {
    Path((0..len).map(|x| TilePos::new(x, 1)).collect())
}

#[test]
fn shortest_path_takes_the_first_of_the_shortest() {
    let paths = vec![Some(path(4)), None, Some(path(2)), Some(path(2)), Some(path(3))];
    assert_eq!(shortest_path(paths), Some(path(2)));
    let tie = vec![Some(Path(vec![TilePos::new(5, 5)])), Some(Path(vec![TilePos::new(6, 6)]))];
    assert_eq!(shortest_path(tie), Some(Path(vec![TilePos::new(5, 5)])));
}

#[test]
fn shortest_path_is_none_without_paths() {
    assert_eq!(shortest_path(vec![None, None]), None);
    assert_eq!(shortest_path(vec![]), None);
}

#[test]
fn closest_worker_is_eligible_and_not_blacklisted() {
    let candidates = vec![(EntityId(1), 3), (EntityId(2), 1), (EntityId(3), 2), (EntityId(4), 2)];
    let eligible = vec![EntityId(1), EntityId(3), EntityId(4), EntityId(2)];
    assert_eq!(closest_available_worker(&candidates, &vec![], &eligible), Some(1));
    assert_eq!(closest_available_worker(&candidates, &vec![EntityId(2)], &eligible), Some(2));
    let not_two = vec![EntityId(1), EntityId(3)];
    assert_eq!(closest_available_worker(&candidates, &vec![EntityId(3)], &not_two), Some(0));
    assert_eq!(closest_available_worker(&candidates, &vec![EntityId(1)], &vec![EntityId(1)]), None);
    assert_eq!(closest_available_worker(&vec![], &vec![], &eligible), None);
}

#[test]
fn listed_finds_a_worker() {
    assert!(listed(&vec![EntityId(7), EntityId(8)], EntityId(8)));
    assert!(!listed(&vec![EntityId(7)], EntityId(8)));
}

#[test]
fn commuting_worker_follows_the_shortest_path() {
    assert!(matches!(commute_step(true, false, false, vec![]), CommuteStep::KeepCommuting));
    assert!(matches!(commute_step(false, false, true, vec![Some(path(1))]), CommuteStep::NoJobSite));
    assert!(matches!(commute_step(false, true, true, vec![Some(path(1))]), CommuteStep::Arrived));
    match commute_step(false, true, false, vec![Some(path(5)), Some(path(3))]) {
        CommuteStep::Follow(p) => assert_eq!(p, path(3)),
        _ => panic!("a path was found"),
    }
    assert!(matches!(commute_step(false, true, false, vec![None]), CommuteStep::Stuck));
}

#[test]
fn stuck_timer_runs_only_while_standing_still() {
    assert_eq!(stuck_step(false, true, true), StuckTimerChange::Remove);
    assert_eq!(stuck_step(true, true, false), StuckTimerChange::Remove);
    assert_eq!(stuck_step(true, false, true), StuckTimerChange::Start);
    assert_eq!(stuck_step(true, true, true), StuckTimerChange::Keep);
    assert_eq!(stuck_step(true, false, false), StuckTimerChange::Keep);
    assert_eq!(stuck_step(false, false, true), StuckTimerChange::Start);
}

#[test]
fn haul_requests_name_their_load() {
    let request = HaulRequest::request_entity(EntityId(3), EntityId(9));
    assert!(matches!(request.load, HaulItem::Entity(EntityId(3))));
    assert_eq!(request.to, EntityId(9));
    let request = HaulRequest::request_object_type("Log".to_string(), EntityId(9));
    assert!(matches!(request.load, HaulItem::ObjectType(ref name) if name == "Log"));
    assert_eq!(request.to, EntityId(9));
}

#[test]
fn completed_job_event_keeps_job_and_worker() {
    let event = JobCompletedEvent::new(EntityId(5), EntityId(6));
    assert_eq!(event.job_entity(), EntityId(5));
    assert_eq!(event.worker_entity(), EntityId(6));
}

#[test]
fn an_assignment_run_gives_each_free_worker_at_most_one_job() {
    let offers = vec![
        JobOffer {
            candidates: vec![(EntityId(1), 4), (EntityId(2), 2)],
            blacklisted: vec![],
            eligible: vec![EntityId(1), EntityId(2)],
        },
        JobOffer {
            candidates: vec![(EntityId(2), 1), (EntityId(1), 3), (EntityId(3), 1)],
            blacklisted: vec![],
            eligible: vec![EntityId(1), EntityId(2), EntityId(3)],
        },
        JobOffer {
            candidates: vec![(EntityId(1), 1), (EntityId(3), 1)],
            blacklisted: vec![EntityId(3)],
            eligible: vec![EntityId(1), EntityId(3)],
        },
    ];
    let free = vec![EntityId(1), EntityId(2)];
    assert_eq!(assign_jobs(&offers, &free), vec![Some(EntityId(2)), Some(EntityId(1)), None]);
    assert_eq!(assign_jobs(&vec![], &free), vec![]);
}
