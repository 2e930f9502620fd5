//! Leasing ports: every variable gets a port that no other worktree holds and nothing listens on.

use vstd::prelude::*;

use crate::text;

verus! {

/// A variable that needs a port, the port it asks for, and whether processes read it.
pub struct Request {
    pub key: String,
    pub original: u16,
    pub process: bool,
}

/// A variable with the port that was leased for it.
pub struct Assignment {
    pub key: String,
    pub original: u16,
    pub assigned: u16,
    pub process: bool,
}

pub ghost struct RequestData {
    pub key: Seq<char>,
    pub original: u16,
    pub process: bool,
}

pub ghost struct AssignmentData {
    pub key: Seq<char>,
    pub original: u16,
    pub assigned: u16,
    pub process: bool,
}

impl View for Request {
    type V = RequestData;

    open spec fn view(&self) -> RequestData {
        RequestData { key: self.key@, original: self.original, process: self.process }
    }
}

impl View for Assignment {
    type V = AssignmentData;

    open spec fn view(&self) -> AssignmentData {
        AssignmentData {
            key: self.key@,
            original: self.original,
            assigned: self.assigned,
            process: self.process,
        }
    }
}

pub open spec fn request_views(list: Seq<Request>) -> Seq<RequestData> {
    list.map_values(|r: Request| r@)
}

pub open spec fn assignment_views(list: Seq<Assignment>) -> Seq<AssignmentData> {
    list.map_values(|a: Assignment| a@)
}

/// A request met with a port.
pub open spec fn granted(request: RequestData, port: u16) -> AssignmentData {
    AssignmentData { key: request.key, original: request.original, assigned: port, process: request.process }
}

/// The port already leased for the port asked for.
pub open spec fn shared(done: Seq<AssignmentData>, original: u16) -> Option<u16>
    decreases done.len(),
{
    if done.len() == 0 {
        None
    } else if done.last().original == original {
        Some(done.last().assigned)
    } else {
        shared(done.drop_last(), original)
    }
}

/// Whether a port is held by another worktree or was leased a moment ago.
pub open spec fn taken(used: Seq<u16>, done: Seq<AssignmentData>, port: u16) -> bool {
    used.contains(port) || exists|i: int| 0 <= i < done.len() && (#[trigger] done[i]).assigned == port
}

/// The first port from `from` on that is not taken.
pub open spec fn first_open(from: int, used: Seq<u16>, done: Seq<AssignmentData>) -> Option<u16>
    decreases 65536 - from,
{
    if from < 0 || from > 65535 {
        None
    } else if !taken(used, done, from as u16) {
        Some(from as u16)
    } else {
        first_open(from + 1, used, done)
    }
}

/// Requests for a port that was already asked for share its lease.
pub open spec fn settled(requests: Seq<RequestData>, done: Seq<AssignmentData>) -> Seq<AssignmentData>
    decreases requests.len() - done.len(),
{
    if done.len() >= requests.len() {
        done
    } else {
        match shared(done, requests[done.len() as int].original) {
            Some(port) => settled(requests, done.push(granted(requests[done.len() as int], port))),
            None => done,
        }
    }
}

/// How far leasing has come: what was leased, and the port to try for the next request.
pub ghost struct Progress {
    pub done: Seq<AssignmentData>,
    pub candidate: Option<u16>,
}

/// Looking for a port from `from` on, for the first request that is not met yet.
pub open spec fn searching(requests: Seq<RequestData>, used: Seq<u16>, done: Seq<AssignmentData>, from: int) -> Result<
    Progress,
    Seq<char>,
> {
    if done.len() >= requests.len() {
        Ok(Progress { done, candidate: None })
    } else {
        match first_open(from, used, done) {
            Some(port) => Ok(Progress { done, candidate: Some(port) }),
            None => Err("no free port at or above "@ + text::decimal(requests[done.len() as int].original as nat)),
        }
    }
}

/// The search for the first request that is not met yet, from the port it asks for on.
pub open spec fn searching_anew(requests: Seq<RequestData>, used: Seq<u16>, done: Seq<AssignmentData>) -> Result<
    Progress,
    Seq<char>,
> {
    let more = settled(requests, done);
    searching(
        requests,
        used,
        more,
        if more.len() < requests.len() {
            requests[more.len() as int].original as int
        } else {
            0
        },
    )
}

/// What an answer about the candidate leads to.
pub open spec fn answered(requests: Seq<RequestData>, used: Seq<u16>, progress: Progress, free: bool) -> Result<
    Progress,
    Seq<char>,
> {
    match progress.candidate {
        None => Ok(progress),
        Some(port) => if free {
            searching_anew(
                requests,
                used,
                progress.done.push(granted(requests[progress.done.len() as int], port)),
            )
        } else {
            searching(requests, used, progress.done, port + 1)
        },
    }
}

/// Every lease answers its request with a port from the one asked for on that no other worktree
/// holds, and two leases share a port exactly where the same port was asked for.
pub open spec fn well_leased(requests: Seq<RequestData>, used: Seq<u16>, done: Seq<AssignmentData>) -> bool {
    &&& done.len() <= requests.len()
    &&& forall|i: int|
        0 <= i < done.len() ==> {
            &&& #[trigger] done[i] == granted(requests[i], done[i].assigned)
            &&& done[i].original <= done[i].assigned
            &&& !used.contains(done[i].assigned)
        }
    &&& forall|i: int, j: int|
        0 <= i < done.len() && 0 <= j < done.len() ==> ((#[trigger] done[i]).original == (#[trigger] done[j]).original
            <==> done[i].assigned == done[j].assigned)
}

/// Leases are in order, and the candidate is a port that the next request may get.
pub open spec fn in_order(requests: Seq<RequestData>, used: Seq<u16>, progress: Progress) -> bool {
    &&& well_leased(requests, used, progress.done)
    &&& progress.candidate is Some <==> progress.done.len() < requests.len()
    &&& progress.candidate matches Some(port) ==> {
        &&& requests[progress.done.len() as int].original <= port
        &&& !taken(used, progress.done, port)
        &&& shared(progress.done, requests[progress.done.len() as int].original) is None
    }
}

proof fn lemma_shared(done: Seq<AssignmentData>, original: u16)
    ensures
        match shared(done, original) {
            Some(port) => exists|i: int|
                0 <= i < done.len() && (#[trigger] done[i]).original == original && done[i].assigned == port,
            None => forall|i: int| 0 <= i < done.len() ==> (#[trigger] done[i]).original != original,
        },
    decreases done.len(),
{
    if done.len() > 0 && done.last().original != original {
        lemma_shared(done.drop_last(), original);
        let init = done.drop_last();
        match shared(init, original) {
            Some(port) => {
                let i = choose|i: int|
                    0 <= i < init.len() && (#[trigger] init[i]).original == original && init[i].assigned == port;
                assert(done[i] == init[i]);
            },
            None => {
                assert forall|i: int| 0 <= i < done.len() implies (#[trigger] done[i]).original != original by {
                    if i < init.len() {
                        assert(done[i] == init[i]);
                    }
                }
            },
        }
    } else if done.len() > 0 {
        assert(done[done.len() - 1].original == original);
    }
}

proof fn lemma_first_open(from: int, used: Seq<u16>, done: Seq<AssignmentData>)
    requires
        0 <= from,
    ensures
        match first_open(from, used, done) {
            Some(port) => from <= port && !taken(used, done, port) && forall|p: int|
                from <= p < port ==> taken(used, done, #[trigger] (p as u16)),
            None => forall|p: int| from <= p <= 65535 ==> taken(used, done, #[trigger] (p as u16)),
        },
    decreases 65536 - from,
{
    if from <= 65535 && taken(used, done, from as u16) {
        lemma_first_open(from + 1, used, done);
    }
}

proof fn lemma_granting(requests: Seq<RequestData>, used: Seq<u16>, done: Seq<AssignmentData>, port: u16)
    requires
        well_leased(requests, used, done),
        done.len() < requests.len(),
        ({
            let original = requests[done.len() as int].original;
            ||| shared(done, original) == Some(port)
            ||| shared(done, original) is None && original <= port && !taken(used, done, port)
        }),
    ensures
        well_leased(requests, used, done.push(granted(requests[done.len() as int], port))),
{
    let request = requests[done.len() as int];
    let more = done.push(granted(request, port));
    lemma_shared(done, request.original);
    assert(granted(request, port).original <= port) by {
        if shared(done, request.original) == Some(port) {
            let i = choose|i: int|
                0 <= i < done.len() && (#[trigger] done[i]).original == request.original && done[i].assigned == port;
            assert(done[i].original <= done[i].assigned);
        }
    }
    assert(!used.contains(port)) by {
        if shared(done, request.original) == Some(port) {
            let i = choose|i: int|
                0 <= i < done.len() && (#[trigger] done[i]).original == request.original && done[i].assigned == port;
            assert(!used.contains(done[i].assigned));
        }
    }
    assert forall|i: int| 0 <= i < done.len() implies ((#[trigger] done[i]).original == request.original
        <==> done[i].assigned == port) by {
        if shared(done, request.original) == Some(port) {
            let k = choose|k: int|
                0 <= k < done.len() && (#[trigger] done[k]).original == request.original && done[k].assigned == port;
            assert(done[i].original == done[k].original <==> done[i].assigned == done[k].assigned);
        }
    }
    assert forall|i: int, j: int| 0 <= i < more.len() && 0 <= j < more.len() implies ((#[trigger] more[i]).original == (
    #[trigger] more[j]).original <==> more[i].assigned == more[j].assigned) by {
        if i < done.len() {
            assert(more[i] == done[i]);
        }
        if j < done.len() {
            assert(more[j] == done[j]);
        }
    }
    assert forall|i: int| 0 <= i < more.len() implies {
        &&& #[trigger] more[i] == granted(requests[i], more[i].assigned)
        &&& more[i].original <= more[i].assigned
        &&& !used.contains(more[i].assigned)
    } by {
        if i < done.len() {
            assert(more[i] == done[i]);
        }
    }
}

proof fn lemma_settled(requests: Seq<RequestData>, used: Seq<u16>, done: Seq<AssignmentData>)
    requires
        well_leased(requests, used, done),
    ensures
        well_leased(requests, used, settled(requests, done)),
        settled(requests, done).len() >= done.len(),
        settled(requests, done).len() < requests.len() ==> shared(
            settled(requests, done),
            requests[settled(requests, done).len() as int].original,
        ) is None,
    decreases requests.len() - done.len(),
{
    if done.len() < requests.len() {
        match shared(done, requests[done.len() as int].original) {
            Some(port) => {
                lemma_granting(requests, used, done, port);
                lemma_settled(requests, used, done.push(granted(requests[done.len() as int], port)));
            },
            None => {},
        }
    }
}

/// Leases stay in order from the start and from answer to answer.
pub proof fn leases_stay_in_order(requests: Seq<RequestData>, used: Seq<u16>, progress: Progress, free: bool)
    requires
        in_order(requests, used, progress),
    ensures
        answered(requests, used, progress, free) matches Ok(next) ==> in_order(requests, used, next),
{
    match progress.candidate {
        None => {},
        Some(port) => {
            if free {
                lemma_granting(requests, used, progress.done, port);
                lemma_anew(
                    requests,
                    used,
                    progress.done.push(granted(requests[progress.done.len() as int], port)),
                );
            } else {
                lemma_first_open(port + 1, used, progress.done);
            }
        },
    }
}

proof fn lemma_anew(requests: Seq<RequestData>, used: Seq<u16>, done: Seq<AssignmentData>)
    requires
        well_leased(requests, used, done),
    ensures
        searching_anew(requests, used, done) matches Ok(next) ==> in_order(requests, used, next),
{
    lemma_settled(requests, used, done);
    let more = settled(requests, done);
    if more.len() < requests.len() {
        lemma_first_open(requests[more.len() as int].original as int, used, more);
    }
}

/// Leasing starts in order.
pub proof fn leasing_starts_in_order(requests: Seq<RequestData>, used: Seq<u16>)
    ensures
        searching_anew(requests, used, Seq::empty()) matches Ok(next) ==> in_order(requests, used, next),
{
    lemma_anew(requests, used, Seq::empty());
}

/// Whether every port from the one asked for up to the candidate is taken or not free.
pub open spec fn searched(
    requests: Seq<RequestData>,
    used: Seq<u16>,
    progress: Progress,
    free: spec_fn(u16) -> bool,
) -> bool {
    progress.candidate matches Some(port) ==> forall|p: int|
        requests[progress.done.len() as int].original <= p < port ==> taken(used, progress.done, #[trigger] (p as u16))
            || !free(p as u16)
}

/// The port leased is the first one from the port asked for on that is neither taken nor in use:
/// whatever the candidate answers, no such port is passed over.
pub proof fn no_free_port_is_passed_over(
    requests: Seq<RequestData>,
    used: Seq<u16>,
    progress: Progress,
    free: spec_fn(u16) -> bool,
)
    requires
        in_order(requests, used, progress),
        progress.candidate is Some,
        searched(requests, used, progress, free),
    ensures
        answered(requests, used, progress, free(progress.candidate->0)) matches Ok(next) ==> searched(
            requests,
            used,
            next,
            free,
        ),
        answered(requests, used, progress, free(progress.candidate->0)) is Err && !free(progress.candidate->0)
            ==> forall|p: int|
            requests[progress.done.len() as int].original <= p <= 65535 ==> taken(
                used,
                progress.done,
                #[trigger] (p as u16),
            ) || !free(p as u16),
{
    let port = progress.candidate->0;
    if free(port) {
        let done = progress.done.push(granted(requests[progress.done.len() as int], port));
        lemma_granting(requests, used, progress.done, port);
        lemma_settled(requests, used, done);
        let more = settled(requests, done);
        if more.len() < requests.len() {
            lemma_first_open(requests[more.len() as int].original as int, used, more);
        }
    } else {
        lemma_first_open(port + 1, used, progress.done);
    }
}

// ---------------------------------------------------------------------------
// The leasing itself
// ---------------------------------------------------------------------------

/// Leasing ports one by one; the caller tries the candidate and answers whether it is free.
pub struct Leasing {
    pub requests: Vec<Request>,
    pub used: Vec<u16>,
    pub assignments: Vec<Assignment>,
    pub candidate: Option<u16>,
}

/// What a step of leasing came to.
pub open spec fn outcome_leasing(r: Result<Leasing, String>) -> Result<Progress, Seq<char>> {
    match r {
        Ok(leasing) => Ok(leasing.progress()),
        Err(message) => Err(message@),
    }
}

impl Leasing {
    pub open spec fn progress(&self) -> Progress {
        Progress { done: assignment_views(self.assignments@), candidate: self.candidate }
    }

    pub open spec fn well_formed(&self) -> bool {
        in_order(request_views(self.requests@), self.used@, self.progress())
    }

    /// Starts leasing for the requests, past the ports that other worktrees use.
    pub fn start(requests: Vec<Request>, used: Vec<u16>) -> (r: Result<Leasing, String>)
        ensures
            outcome_leasing(r) == searching_anew(request_views(requests@), used@, Seq::empty()),
            r matches Ok(leasing) ==> leasing.well_formed() && leasing.requests == requests && leasing.used == used,
    {
        let leasing = Leasing { requests, used, assignments: Vec::new(), candidate: None };
        proof {
            assert(assignment_views(leasing.assignments@) =~= Seq::empty());
            leasing_starts_in_order(request_views(requests@), used@);
        }
        leasing.search_anew()
    }

    /// Goes on with whether the candidate is free.
    pub fn answer(self, free: bool) -> (r: Result<Leasing, String>)
        requires
            self.well_formed(),
        ensures
            outcome_leasing(r) == answered(request_views(self.requests@), self.used@, self.progress(), free),
            r matches Ok(leasing) ==> leasing.well_formed() && leasing.requests == self.requests && leasing.used
                == self.used,
    {
        proof {
            leases_stay_in_order(request_views(self.requests@), self.used@, self.progress(), free);
        }
        let mut leasing = self;
        match leasing.candidate {
            None => Ok(leasing),
            Some(port) => {
                if free {
                    leasing.grant(port);
                    leasing.search_anew()
                } else {
                    leasing.search(port as u32 + 1)
                }
            },
        }
    }

    fn grant(&mut self, port: u16)
        requires
            old(self).assignments@.len() < old(self).requests@.len(),
        ensures
            final(self).requests == old(self).requests,
            final(self).used == old(self).used,
            assignment_views(final(self).assignments@) == assignment_views(old(self).assignments@).push(
                granted(request_views(old(self).requests@)[old(self).assignments@.len() as int], port),
            ),
    {
        let next: usize = self.assignments.len();
        let ghost before = assignment_views(self.assignments@);
        let assignment = Assignment {
            key: self.requests[next].key.clone(),
            original: self.requests[next].original,
            assigned: port,
            process: self.requests[next].process,
        };
        self.assignments.push(assignment);
        assert(assignment_views(self.assignments@) =~= before.push(assignment@));
    }

    fn lease_shared(&self, original: u16) -> (r: Option<u16>)
        ensures
            r == shared(assignment_views(self.assignments@), original),
    {
        let ghost all = assignment_views(self.assignments@);
        let mut n: usize = self.assignments.len();
        assert(all.take(n as int) =~= all);
        while n > 0
            invariant
                all == assignment_views(self.assignments@),
                n <= all.len(),
                shared(all, original) == shared(all.take(n as int), original),
            decreases n,
        {
            let ghost upto = all.take(n as int);
            assert(upto.last() == self.assignments@[n - 1]@);
            assert(upto.drop_last() =~= all.take(n - 1));
            if self.assignments[n - 1].original == original {
                return Some(self.assignments[n - 1].assigned);
            }
            n -= 1;
        }
        None
    }

    fn is_taken(&self, port: u16) -> (r: bool)
        ensures
            r == taken(self.used@, assignment_views(self.assignments@), port),
    {
        let ghost all = assignment_views(self.assignments@);
        for i in 0..self.used.len()
            invariant
                forall|k: int| 0 <= k < i ==> self.used@[k] != port,
        {
            if self.used[i] == port {
                return true;
            }
        }
        for i in 0..self.assignments.len()
            invariant
                all == assignment_views(self.assignments@),
                !self.used@.contains(port),
                forall|k: int| 0 <= k < i ==> (#[trigger] all[k]).assigned != port,
        {
            assert(all[i as int] == self.assignments@[i as int]@);
            if self.assignments[i].assigned == port {
                return true;
            }
        }
        false
    }

    fn search(self, from: u32) -> (r: Result<Leasing, String>)
        requires
            from <= 65536,
        ensures
            outcome_leasing(r) == searching(
                request_views(self.requests@),
                self.used@,
                assignment_views(self.assignments@),
                from as int,
            ),
            r matches Ok(leasing) ==> leasing.requests == self.requests && leasing.used == self.used,
    {
        let mut leasing = self;
        let next: usize = leasing.assignments.len();
        if next >= leasing.requests.len() {
            leasing.candidate = None;
            return Ok(leasing);
        }
        let ghost done = assignment_views(leasing.assignments@);
        let mut port: u32 = from;
        while port <= 65535
            invariant
                from <= port <= 65536,
                done == assignment_views(leasing.assignments@),
                next == done.len(),
                next < leasing.requests@.len(),
                leasing.requests == self.requests,
                leasing.used == self.used,
                leasing.assignments == self.assignments,
                first_open(from as int, leasing.used@, done) == first_open(port as int, leasing.used@, done),
            decreases 65536 - port,
        {
            let candidate: u16 = port as u16;
            if !leasing.is_taken(candidate) {
                leasing.candidate = Some(candidate);
                return Ok(leasing);
            }
            port += 1;
        }
        assert(request_views(leasing.requests@)[next as int] == leasing.requests@[next as int]@);
        Err(text::concat("no free port at or above ", &text::to_decimal(leasing.requests[next].original as u64)))
    }

    fn search_anew(self) -> (r: Result<Leasing, String>)
        ensures
            outcome_leasing(r) == searching_anew(
                request_views(self.requests@),
                self.used@,
                assignment_views(self.assignments@),
            ),
            r matches Ok(leasing) ==> leasing.requests == self.requests && leasing.used == self.used,
    {
        let mut leasing = self;
        let ghost requests = request_views(self.requests@);
        let ghost start = assignment_views(self.assignments@);
        loop
            invariant
                leasing.requests == self.requests,
                leasing.used == self.used,
                requests == request_views(self.requests@),
                start == assignment_views(self.assignments@),
                settled(requests, assignment_views(leasing.assignments@)) == settled(requests, start),
            ensures
                leasing.requests == self.requests,
                leasing.used == self.used,
                assignment_views(leasing.assignments@) == settled(requests, start),
            decreases requests.len() - leasing.assignments@.len(),
        {
            let next: usize = leasing.assignments.len();
            if next >= leasing.requests.len() {
                break;
            }
            assert(requests[next as int] == leasing.requests@[next as int]@);
            match leasing.lease_shared(leasing.requests[next].original) {
                Some(port) => {
                    leasing.grant(port);
                },
                None => {
                    break;
                },
            }
        }
        let next: usize = leasing.assignments.len();
        let from: u32 = if next < leasing.requests.len() {
            assert(requests[next as int] == leasing.requests@[next as int]@);
            leasing.requests[next].original as u32
        } else {
            0
        };
        leasing.search(from)
    }
}

} // verus!
