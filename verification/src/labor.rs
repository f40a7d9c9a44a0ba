//! Jobs and the workers who do them: who gets a job, how a worker gets to the job site,
//! and when a worker counts as stuck.

use vstd::prelude::*;

use crate::entity::EntityId;
use crate::pathfinding::{Path, TilePos};

verus! {

/// Orders the systems that hand out jobs.
#[derive(Clone, Copy, Debug, PartialEq, Eq, Hash, Default, Structural)]
pub struct JobAssignmentSet;

/// Marks a piece of work that a worker can take.
pub struct Job;

/// Marks a colonist who can take jobs.
pub struct Worker;

/// Marks a job that was done.
pub struct CompletedJob;

/// Marks a job that was called off.
pub struct CanceledJob;

/// Marks a worker on the way to the job site.
pub struct Commuting;

/// Marks a worker who has reached the job site.
pub struct AtJobSite;

/// The job a worker is assigned to.
#[derive(Clone, Copy, Debug, PartialEq, Eq, Structural)]
pub struct AssignedJob(pub EntityId);

/// The worker a job is assigned to.
#[derive(Clone, Copy, Debug, PartialEq, Eq, Structural)]
pub struct AssignedWorker(pub EntityId);

/// Sent when a job is given to a worker.
#[derive(Clone, Copy, Debug, PartialEq, Eq, Structural)]
pub struct JobAssignedEvent {
    pub job: EntityId,
    pub worker: EntityId,
}

/// Sent when a worker has finished a job.
#[derive(Clone, Copy, Debug, PartialEq, Eq, Structural)]
pub struct JobCompletedEvent {
    job_entity: EntityId,
    worker_entity: EntityId,
}

impl JobCompletedEvent {
    /// The event for `worker_entity` finishing `job_entity`.
    pub fn new(job_entity: EntityId, worker_entity: EntityId) -> (event: JobCompletedEvent)
        ensures
            event.job_view() == job_entity,
            event.worker_view() == worker_entity,
    {
        JobCompletedEvent { job_entity, worker_entity }
    }

    /// The job that was finished.
    pub closed spec fn job_view(&self) -> EntityId {
        self.job_entity
    }

    /// The worker who finished it.
    pub closed spec fn worker_view(&self) -> EntityId {
        self.worker_entity
    }

    /// The job that was finished.
    pub fn job_entity(&self) -> (job: EntityId)
        ensures
            job == self.job_view(),
    {
        self.job_entity
    }

    /// The worker who finished it.
    pub fn worker_entity(&self) -> (worker: EntityId)
        ensures
            worker == self.worker_view(),
    {
        self.worker_entity
    }
}

/// What a haul job carries: one particular thing, or any thing of a kind.
pub enum HaulItem {
    Entity(EntityId),
    ObjectType(String),
}

/// A request to carry a load to a destination.
pub struct HaulRequest {
    pub load: HaulItem,
    pub to: EntityId,
}

impl HaulRequest {
    /// A request to carry the thing `load` to `to`.
    pub fn request_entity(load: EntityId, to: EntityId) -> (request: HaulRequest)
        ensures
            request.load == HaulItem::Entity(load),
            request.to == to,
    {
        HaulRequest { load: HaulItem::Entity(load), to }
    }

    /// A request to carry any thing named `load` to `to`.
    pub fn request_object_type(load: String, to: EntityId) -> (request: HaulRequest)
        ensures
            request.load matches HaulItem::ObjectType(name) && name@ == load@,
            request.to == to,
    {
        HaulRequest { load: HaulItem::ObjectType(load), to }
    }
}

/// The tiles of each candidate path, where one was found.
pub open spec fn paths_view(paths: Seq<Option<Path>>) -> Seq<Option<Seq<TilePos>>> {
    paths.map_values(
        |p: Option<Path>|
            match p {
                Some(path) => Some(path.0@),
                None => None,
            },
    )
}

/// The path at `i` is the one to take among `paths`: no path is shorter, and every path
/// before it is longer (of equally short paths the first wins).
pub open spec fn is_shortest_at(paths: Seq<Option<Seq<TilePos>>>, i: int) -> bool {
    &&& 0 <= i < paths.len()
    &&& paths[i] is Some
    &&& forall|j: int| 0 <= j < paths.len() && #[trigger] paths[j] is Some ==> paths[i]->0.len() <= paths[j]->0.len()
    &&& forall|j: int| 0 <= j < i && #[trigger] paths[j] is Some ==> paths[i]->0.len() < paths[j]->0.len()
}

/// At most one path is the one to take.
pub proof fn lemma_shortest_unique(paths: Seq<Option<Seq<TilePos>>>, i: int, j: int)
    requires
        is_shortest_at(paths, i),
        is_shortest_at(paths, j),
    ensures
        i == j,
{
    if i < j {
        assert(paths[i] is Some);
    } else if j < i {
        assert(paths[j] is Some);
    }
}

/// The first of the shortest paths found, or `None` when no path was found.
pub fn shortest_path(paths: Vec<Option<Path>>) -> (shortest: Option<Path>)
    ensures
        match shortest {
            Some(p) => exists|i: int| is_shortest_at(paths_view(paths@), i) && paths_view(paths@)[i] == Some(p.0@),
            None => forall|j: int| 0 <= j < paths@.len() ==> #[trigger] paths_view(paths@)[j] is None,
        },
{
    let ghost views = paths_view(paths@);
    let mut best: Option<usize> = None;
    let mut best_len: usize = 0;
    let mut i: usize = 0;
    while i < paths.len()
        invariant
            i <= paths@.len(),
            views == paths_view(paths@),
            views.len() == paths@.len(),
            match best {
                Some(b) => {
                    &&& b < i
                    &&& views[b as int] is Some
                    &&& views[b as int]->0.len() == best_len
                    &&& forall|j: int| 0 <= j < i && #[trigger] views[j] is Some ==> best_len <= views[j]->0.len()
                    &&& forall|j: int| 0 <= j < b && #[trigger] views[j] is Some ==> best_len < views[j]->0.len()
                },
                None => forall|j: int| 0 <= j < i ==> #[trigger] views[j] is None,
            },
        decreases paths.len() - i,
    {
        match &paths[i] {
            Some(p) => {
                let len = p.0.len();
                assert(views[i as int] == Some(p.0@));
                let better = match best {
                    None => true,
                    Some(_) => len < best_len,
                };
                if better {
                    best = Some(i);
                    best_len = len;
                }
            },
            None => {
                assert(views[i as int] is None);
            },
        }
        i = i + 1;
    }
    match best {
        Some(b) => {
            let mut paths = paths;
            let ghost before = paths@;
            let chosen = paths.remove(b);
            assert(is_shortest_at(views, b as int));
            assert(views[b as int] == paths_view(before)[b as int]);
            chosen
        },
        None => None,
    }
}

/// Whether `worker` is in `workers`.
pub fn listed(workers: &Vec<EntityId>, worker: EntityId) -> (found: bool)
    ensures
        found == workers@.contains(worker),
{
    let mut i: usize = 0;
    while i < workers.len()
        invariant
            i <= workers@.len(),
            forall|j: int| 0 <= j < i ==> workers@[j] != worker,
        decreases workers.len() - i,
    {
        if workers[i] == worker {
            assert(workers@[i as int] == worker);
            return true;
        }
        i = i + 1;
    }
    false
}

/// A worker may take the job: it is eligible and not blacklisted for it.
pub open spec fn available(candidate: EntityId, blacklisted: Seq<EntityId>, eligible: Seq<EntityId>) -> bool {
    eligible.contains(candidate) && !blacklisted.contains(candidate)
}

/// The candidate at `i` is the one to give the job to: it may take the job, no candidate
/// that may take it has a shorter path, and every one before it that may has a longer path.
pub open spec fn is_closest_at(
    candidates: Seq<(EntityId, usize)>,
    blacklisted: Seq<EntityId>,
    eligible: Seq<EntityId>,
    i: int,
) -> bool {
    &&& 0 <= i < candidates.len()
    &&& available(candidates[i].0, blacklisted, eligible)
    &&& forall|j: int| 0 <= j < candidates.len() && #[trigger] available(candidates[j].0, blacklisted, eligible)
            ==> candidates[i].1 <= candidates[j].1
    &&& forall|j: int| 0 <= j < i && #[trigger] available(candidates[j].0, blacklisted, eligible)
            ==> candidates[i].1 < candidates[j].1
}

/// Picks the worker for a job among `candidates`, the workers with a path to the job site,
/// each with the length of that path: the first available one with the shortest path. Gives
/// its position among the candidates, or `None` when no candidate may take the job.
pub fn closest_available_worker(
    candidates: &Vec<(EntityId, usize)>,
    blacklisted: &Vec<EntityId>,
    eligible: &Vec<EntityId>,
) -> (chosen: Option<usize>)
    ensures
        match chosen {
            Some(i) => is_closest_at(candidates@, blacklisted@, eligible@, i as int),
            None => forall|j: int| 0 <= j < candidates@.len() ==> !#[trigger] available(candidates@[j].0, blacklisted@, eligible@),
        },
{
    let mut best: Option<usize> = None;
    let mut best_len: usize = 0;
    let mut i: usize = 0;
    while i < candidates.len()
        invariant
            i <= candidates@.len(),
            match best {
                Some(b) => {
                    &&& b < i
                    &&& available(candidates@[b as int].0, blacklisted@, eligible@)
                    &&& candidates@[b as int].1 == best_len
                    &&& forall|j: int| 0 <= j < i && #[trigger] available(candidates@[j].0, blacklisted@, eligible@)
                            ==> best_len <= candidates@[j].1
                    &&& forall|j: int| 0 <= j < b && #[trigger] available(candidates@[j].0, blacklisted@, eligible@)
                            ==> best_len < candidates@[j].1
                },
                None => forall|j: int| 0 <= j < i ==> !#[trigger] available(candidates@[j].0, blacklisted@, eligible@),
            },
        decreases candidates.len() - i,
    {
        let (worker, len) = candidates[i];
        let ok = listed(eligible, worker) && !listed(blacklisted, worker);
        assert(ok == available(candidates@[i as int].0, blacklisted@, eligible@));
        if ok {
            let better = match best {
                None => true,
                Some(_) => len < best_len,
            };
            if better {
                best = Some(i);
                best_len = len;
            }
        }
        i = i + 1;
    }
    best
}

/// One job offered in an assignment run: the workers with a path to its site, each with the
/// length of that path, the workers blacklisted for it, and the workers eligible for it.
pub struct JobOffer {
    pub candidates: Vec<(EntityId, usize)>,
    pub blacklisted: Vec<EntityId>,
    pub eligible: Vec<EntityId>,
}

/// An offer as values.
pub type OfferV = (Seq<(EntityId, usize)>, Seq<EntityId>, Seq<EntityId>);

/// The offers as values.
pub open spec fn offers_view(offers: Seq<JobOffer>) -> Seq<OfferV> {
    offers.map_values(|o: JobOffer| (o.candidates@, o.blacklisted@, o.eligible@))
}

/// `worker` was given one of the first `j` jobs of the run.
pub open spec fn taken_before(assigned: Seq<Option<EntityId>>, j: int, worker: EntityId) -> bool {
    exists|k: int| 0 <= k < j && assigned[k] == Some(worker)
}

/// `worker` may take job `j` of the run: it is eligible and not blacklisted for the job, it
/// is free, and no earlier job of the run went to it.
pub open spec fn open_for(offer: OfferV, free: Seq<EntityId>, assigned: Seq<Option<EntityId>>, j: int, worker: EntityId) -> bool {
    &&& available(worker, offer.1, offer.2)
    &&& free.contains(worker)
    &&& !taken_before(assigned, j, worker)
}

/// Candidate `i` of job `j` is the one to give the job to: it may take the job, no candidate
/// that may take it has a shorter path, and every one before it that may has a longer path.
pub open spec fn closest_open_at(offer: OfferV, free: Seq<EntityId>, assigned: Seq<Option<EntityId>>, j: int, i: int) -> bool {
    &&& 0 <= i < offer.0.len()
    &&& open_for(offer, free, assigned, j, offer.0[i].0)
    &&& forall|m: int| 0 <= m < offer.0.len() && #[trigger] open_for(offer, free, assigned, j, offer.0[m].0)
            ==> offer.0[i].1 <= offer.0[m].1
    &&& forall|m: int| 0 <= m < i && #[trigger] open_for(offer, free, assigned, j, offer.0[m].0)
            ==> offer.0[i].1 < offer.0[m].1
}

/// Job `j` of the run went to the closest worker that may take it, or to nobody when no
/// candidate may take it.
pub open spec fn assigned_right(offer: OfferV, free: Seq<EntityId>, assigned: Seq<Option<EntityId>>, j: int) -> bool {
    match assigned[j] {
        Some(worker) => exists|i: int| closest_open_at(offer, free, assigned, j, i) && offer.0[i].0 == worker,
        None => forall|m: int| 0 <= m < offer.0.len() ==> !#[trigger] open_for(offer, free, assigned, j, offer.0[m].0),
    }
}

/// Whether `worker` was given one of the jobs assigned so far.
fn already_assigned(assigned: &Vec<Option<EntityId>>, worker: EntityId) -> (found: bool)
    ensures
        found == taken_before(assigned@, assigned@.len() as int, worker),
{
    let mut k: usize = 0;
    while k < assigned.len()
        invariant
            k <= assigned@.len(),
            forall|m: int| 0 <= m < k ==> assigned@[m] != Some(worker),
        decreases assigned.len() - k,
    {
        if let Some(w) = assigned[k] {
            if w == worker {
                assert(assigned@[k as int] == Some(worker));
                return true;
            }
        }
        k = k + 1;
    }
    false
}

/// Adding a later assignment does not change who was given the first `j` jobs.
proof fn lemma_taken_before_push(assigned: Seq<Option<EntityId>>, next: Option<EntityId>, j: int)
    requires
        0 <= j <= assigned.len(),
    ensures
        forall|w: EntityId| taken_before(assigned.push(next), j, w) == taken_before(assigned, j, w),
{
    assert forall|w: EntityId| taken_before(assigned.push(next), j, w) == taken_before(assigned, j, w) by {
        if taken_before(assigned.push(next), j, w) {
            let k = choose|k: int| 0 <= k < j && assigned.push(next)[k] == Some(w);
            assert(assigned[k] == Some(w));
        }
        if taken_before(assigned, j, w) {
            let k = choose|k: int| 0 <= k < j && assigned[k] == Some(w);
            assert(assigned.push(next)[k] == Some(w));
        }
    }
}

/// Adding a later assignment keeps every earlier job assigned right.
proof fn lemma_assigned_right_push(offer: OfferV, free: Seq<EntityId>, assigned: Seq<Option<EntityId>>, next: Option<EntityId>, j: int)
    requires
        0 <= j < assigned.len(),
        assigned_right(offer, free, assigned, j),
    ensures
        assigned_right(offer, free, assigned.push(next), j),
{
    let longer = assigned.push(next);
    lemma_taken_before_push(assigned, next, j);
    assert(longer[j] == assigned[j]);
    assert forall|w: EntityId| open_for(offer, free, longer, j, w) == open_for(offer, free, assigned, j, w) by {}
    match assigned[j] {
        Some(worker) => {
            let i = choose|i: int| closest_open_at(offer, free, assigned, j, i) && offer.0[i].0 == worker;
            assert(closest_open_at(offer, free, longer, j, i));
        },
        None => {},
    }
}

/// The workers of `eligible` that are free and were not given a job of the run so far.
fn still_open(eligible: &Vec<EntityId>, free: &Vec<EntityId>, assigned: &Vec<Option<EntityId>>) -> (open: Vec<EntityId>)
    ensures
        forall|w: EntityId| #[trigger] open@.contains(w) <==> (eligible@.contains(w) && free@.contains(w)
            && !taken_before(assigned@, assigned@.len() as int, w)),
{
    let ghost done = assigned@.len() as int;
    let mut open: Vec<EntityId> = Vec::new();
    let mut i: usize = 0;
    while i < eligible.len()
        invariant
            i <= eligible@.len(),
            done == assigned@.len(),
            forall|w: EntityId| #[trigger] open@.contains(w) <==> (eligible@.take(i as int).contains(w) && free@.contains(w)
                && !taken_before(assigned@, done, w)),
        decreases eligible.len() - i,
    {
        let w = eligible[i];
        let ghost before = open@;
        let ghost seen = eligible@.take(i as int);
        let ghost now = eligible@.take(i + 1);
        proof {
            assert(now =~= seen.push(w));
            assert forall|v: EntityId| #[trigger] now.contains(v) <==> (seen.contains(v) || v == w) by {
                if now.contains(v) {
                    let k = choose|k: int| 0 <= k < now.len() && now[k] == v;
                    if k < seen.len() {
                        assert(seen[k] == v);
                    }
                }
                if seen.contains(v) {
                    let k = choose|k: int| 0 <= k < seen.len() && seen[k] == v;
                    assert(now[k] == v);
                }
                if v == w {
                    assert(now[seen.len() as int] == v);
                }
            }
        }
        if listed(free, w) && !already_assigned(assigned, w) {
            open.push(w);
            proof {
                assert forall|v: EntityId| #[trigger] open@.contains(v) <==> (before.contains(v) || v == w) by {
                    if open@.contains(v) {
                        let k = choose|k: int| 0 <= k < open@.len() && open@[k] == v;
                        if k < before.len() {
                            assert(before[k] == v);
                        }
                    }
                    if before.contains(v) {
                        let k = choose|k: int| 0 <= k < before.len() && before[k] == v;
                        assert(open@[k] == v);
                    }
                    if v == w {
                        assert(open@[before.len() as int] == v);
                    }
                }
            }
        }
        i = i + 1;
    }
    proof {
        assert(eligible@.take(eligible@.len() as int) =~= eligible@);
    }
    open
}

/// One run of handing out jobs, in order: each job goes to the closest worker that may take
/// it (eligible, not blacklisted, free, and not given an earlier job of the run), the first
/// of equally close ones, or to nobody. Returns the worker given each job.
pub fn assign_jobs(offers: &Vec<JobOffer>, free: &Vec<EntityId>) -> (assigned: Vec<Option<EntityId>>)
    ensures
        assigned@.len() == offers@.len(),
        forall|j: int| 0 <= j < offers@.len() ==> #[trigger] assigned_right(offers_view(offers@)[j], free@, assigned@, j),
        forall|j: int, k: int| 0 <= j < k < assigned@.len() && assigned@[j] is Some ==> assigned@[j] != assigned@[k],
{
    let ghost views = offers_view(offers@);
    let mut assigned: Vec<Option<EntityId>> = Vec::new();
    let mut j: usize = 0;
    while j < offers.len()
        invariant
            j <= offers@.len(),
            views == offers_view(offers@),
            views.len() == offers@.len(),
            assigned@.len() == j,
            forall|q: int| 0 <= q < j ==> #[trigger] assigned_right(views[q], free@, assigned@, q),
        decreases offers.len() - j,
    {
        let offer = &offers[j];
        let ghost ov = views[j as int];
        assert(ov == (offer.candidates@, offer.blacklisted@, offer.eligible@));
        let open = still_open(&offer.eligible, free, &assigned);
        let best = closest_available_worker(&offer.candidates, &offer.blacklisted, &open);
        proof {
            assert forall|w: EntityId| available(w, ov.1, open@) == open_for(ov, free@, assigned@, j as int, w) by {}
            match best {
                Some(b) => {
                    assert(open_for(ov, free@, assigned@, j as int, ov.0[b as int].0));
                    assert forall|m: int| 0 <= m < ov.0.len() && #[trigger] open_for(ov, free@, assigned@, j as int, ov.0[m].0)
                        implies ov.0[b as int].1 <= ov.0[m].1 by {
                        assert(available(ov.0[m].0, ov.1, open@));
                    }
                    assert forall|m: int| 0 <= m < b && #[trigger] open_for(ov, free@, assigned@, j as int, ov.0[m].0)
                        implies ov.0[b as int].1 < ov.0[m].1 by {
                        assert(available(ov.0[m].0, ov.1, open@));
                    }
                },
                None => {
                    assert forall|m: int| 0 <= m < ov.0.len() implies !#[trigger] open_for(ov, free@, assigned@, j as int, ov.0[m].0) by {
                        assert(!available(ov.0[m].0, ov.1, open@));
                    }
                },
            }
        }
        let choice = match best {
            Some(b) => Some(offer.candidates[b].0),
            None => None,
        };
        let ghost before = assigned@;
        assigned.push(choice);
        proof {
            lemma_taken_before_push(before, choice, j as int);
            assert forall|w: EntityId| open_for(ov, free@, assigned@, j as int, w) == open_for(ov, free@, before, j as int, w) by {}
            let now = assigned@;
            assert(now[j as int] == choice);
            match best {
                Some(b) => {
                    assert(closest_open_at(ov, free@, before, j as int, b as int));
                    assert(open_for(ov, free@, now, j as int, ov.0[b as int].0));
                    assert forall|m: int| 0 <= m < ov.0.len() && #[trigger] open_for(ov, free@, now, j as int, ov.0[m].0)
                        implies ov.0[b as int].1 <= ov.0[m].1 by {
                        assert(open_for(ov, free@, before, j as int, ov.0[m].0));
                    }
                    assert forall|m: int| 0 <= m < b && #[trigger] open_for(ov, free@, now, j as int, ov.0[m].0)
                        implies ov.0[b as int].1 < ov.0[m].1 by {
                        assert(open_for(ov, free@, before, j as int, ov.0[m].0));
                    }
                    assert(closest_open_at(ov, free@, now, j as int, b as int));
                },
                None => {
                    assert forall|m: int| 0 <= m < ov.0.len() implies !#[trigger] open_for(ov, free@, now, j as int, ov.0[m].0) by {
                        assert(!open_for(ov, free@, before, j as int, ov.0[m].0));
                    }
                },
            }
            assert(assigned_right(ov, free@, assigned@, j as int));
            assert forall|q: int| 0 <= q < j + 1 implies #[trigger] assigned_right(views[q], free@, assigned@, q) by {
                if q < j {
                    lemma_assigned_right_push(views[q], free@, before, choice, q);
                }
            }
        }
        j = j + 1;
    }
    proof {
        assert forall|p: int, k: int| 0 <= p < k < assigned@.len() && assigned@[p] is Some implies assigned@[p] != assigned@[k] by {
            if assigned@[p] == assigned@[k] {
                let w = assigned@[p].unwrap();
                assert(assigned_right(views[k], free@, assigned@, k));
                let i = choose|i: int| closest_open_at(views[k], free@, assigned@, k, i) && views[k].0[i].0 == w;
                assert(taken_before(assigned@, k, w));
            }
        }
    }
    assigned
}

/// What happens to a worker who has been given a job and has not reached the site.
pub enum CommuteStep {
    /// The worker already has a path: it is commuting.
    KeepCommuting,
    /// The job has no job site.
    NoJobSite,
    /// The worker is at the job site.
    Arrived,
    /// The worker follows this path, the shortest to a job site.
    Follow(Path),
    /// No job site can be reached: the worker's stuck timer starts.
    Stuck,
}

/// Decides a commuting worker's next step. `has_path` is whether the worker has a path,
/// `job_site_known` whether the job has a job site, `at_job_site` whether the worker is near
/// one of its positions, and `paths` the result of a path search towards each position.
pub fn commute_step(has_path: bool, job_site_known: bool, at_job_site: bool, paths: Vec<Option<Path>>) -> (step: CommuteStep)
    ensures
        has_path ==> step is KeepCommuting,
        !has_path && !job_site_known ==> step is NoJobSite,
        !has_path && job_site_known && at_job_site ==> step is Arrived,
        !has_path && job_site_known && !at_job_site ==> match step {
            CommuteStep::Follow(p) => exists|i: int| is_shortest_at(paths_view(paths@), i) && paths_view(paths@)[i] == Some(p.0@),
            CommuteStep::Stuck => forall|j: int| 0 <= j < paths@.len() ==> #[trigger] paths_view(paths@)[j] is None,
            _ => false,
        },
{
    if has_path {
        CommuteStep::KeepCommuting
    } else if !job_site_known {
        CommuteStep::NoJobSite
    } else if at_job_site {
        CommuteStep::Arrived
    } else {
        match shortest_path(paths) {
            Some(path) => CommuteStep::Follow(path),
            None => CommuteStep::Stuck,
        }
    }
}

/// What to do with a worker's stuck timer.
#[derive(Clone, Copy, Debug, PartialEq, Eq, Structural)]
pub enum StuckTimerChange {
    Remove,
    Start,
    Keep,
}

/// The stuck timer after the step: whether the worker has one.
pub open spec fn timer_after(has_timer: bool, change: StuckTimerChange) -> bool {
    match change {
        StuckTimerChange::Remove => false,
        StuckTimerChange::Start => true,
        StuckTimerChange::Keep => has_timer,
    }
}

/// The change to the stuck timer of a worker with a job: a worker without a path loses its
/// timer; one that moves loses it; one that stands still gets one if it has none.
pub open spec fn stuck_change(has_path: bool, has_timer: bool, standing_still: bool) -> StuckTimerChange {
    if !has_path && has_timer {
        StuckTimerChange::Remove
    } else if !standing_still && has_timer {
        StuckTimerChange::Remove
    } else if standing_still && !has_timer {
        StuckTimerChange::Start
    } else {
        StuckTimerChange::Keep
    }
}

/// Decides the stuck timer of a worker with a job; see `stuck_change`.
pub fn stuck_step(has_path: bool, has_timer: bool, standing_still: bool) -> (change: StuckTimerChange)
    ensures
        change == stuck_change(has_path, has_timer, standing_still),
{
    if !has_path && has_timer {
        StuckTimerChange::Remove
    } else if !standing_still && has_timer {
        StuckTimerChange::Remove
    } else if standing_still && !has_timer {
        StuckTimerChange::Start
    } else {
        StuckTimerChange::Keep
    }
}

/// A moving worker never keeps a stuck timer, and a worker standing still on a path always
/// has one after the step.
pub proof fn law_stuck_timer_tracks_standing_still(has_path: bool, has_timer: bool, standing_still: bool)
    ensures
        !standing_still ==> !timer_after(has_timer, stuck_change(has_path, has_timer, standing_still)),
        has_path && standing_still ==> timer_after(has_timer, stuck_change(has_path, has_timer, standing_still)),
{
}

} // verus!
