//! One pass over the registry, driven one query at a time, and the loop
//! that runs passes on an interval.
use crate::document::{build, document_fits};
use crate::model::{ports_agree, HealthyInstance, RenderDocument, TickError};
use crate::order::{names_sorted, views};
use crate::reconcile::{candidate_services, ExternalServiceMap};
use vstd::prelude::*;

verus! {

/// The services with healthy instances after the first `answers.len()`
/// candidates were asked about, each answer belonging to its candidate.
pub open spec fn answered_map(cands: Seq<Seq<char>>, answers: Seq<Seq<HealthyInstance>>) -> Map<
    Seq<char>,
    Seq<HealthyInstance>,
>
    decreases answers.len(),
{
    if answers.len() == 0 {
        Map::empty()
    } else {
        let prev = answered_map(cands, answers.drop_last());
        if answers.last().len() > 0 {
            prev.insert(cands[answers.len() - 1], answers.last())
        } else {
            prev
        }
    }
}

/// A candidate is kept exactly when its answer holds an instance, and it
/// keeps that answer.
pub proof fn lemma_answered_map(cands: Seq<Seq<char>>, answers: Seq<Seq<HealthyInstance>>)
    requires
        cands.no_duplicates(),
        answers.len() <= cands.len(),
    ensures
        forall|k: Seq<char>| #[trigger]
            answered_map(cands, answers).contains_key(k) <==> exists|j: int|
                0 <= j < answers.len() && cands[j] == k && answers[j].len() > 0,
        forall|j: int|
            0 <= j < answers.len() && answers[j].len() > 0 ==> #[trigger] answered_map(
                cands,
                answers,
            )[cands[j]] == answers[j],
    decreases answers.len(),
{
    if answers.len() > 0 {
        let n = answers.len() - 1;
        let prev = answers.drop_last();
        lemma_answered_map(cands, prev);
        assert forall|k: Seq<char>| #[trigger]
            answered_map(cands, answers).contains_key(k) <==> exists|j: int|
                0 <= j < answers.len() && cands[j] == k && answers[j].len() > 0 by {
            if answered_map(cands, prev).contains_key(k) {
                let j = choose|j: int| 0 <= j < prev.len() && cands[j] == k && prev[j].len() > 0;
                assert(answers[j] == prev[j]);
            }
            if exists|j: int| 0 <= j < answers.len() && cands[j] == k && answers[j].len() > 0 {
                let j = choose|j: int|
                    0 <= j < answers.len() && cands[j] == k && answers[j].len() > 0;
                if j < n {
                    assert(prev[j] == answers[j]);
                }
            }
        }
        assert forall|j: int|
            0 <= j < answers.len() && answers[j].len() > 0 implies #[trigger] answered_map(
            cands,
            answers,
        )[cands[j]] == answers[j] by {
            if j < n {
                assert(prev[j] == answers[j]);
                assert(cands[j] != cands[n]);
            }
        }
    }
}

/// One pass over the registry: the candidates to ask about, how many were
/// answered, and the services kept so far.
pub struct Pass {
    candidates: Vec<String>,
    next: usize,
    found: ExternalServiceMap,
    answers: Ghost<Seq<Seq<HealthyInstance>>>,
}

impl Pass {
    /// The candidates of the pass, in the order they are asked about.
    pub closed spec fn candidates(&self) -> Seq<Seq<char>> {
        views(self.candidates@)
    }

    /// The answers recorded so far, one per candidate asked about.
    pub closed spec fn answers(&self) -> Seq<Seq<HealthyInstance>> {
        self.answers@
    }

    /// The pass's consistency.
    pub closed spec fn wf(&self) -> bool {
        &&& self.found.wf()
        &&& self.next == self.answers@.len()
        &&& self.next <= self.candidates@.len()
        &&& views(self.candidates@).no_duplicates()
        &&& self.found@ == answered_map(views(self.candidates@), self.answers@)
    }

    /// Starts a pass from the catalog's service names and the names of the
    /// services that the local agent hosts.
    pub fn start(catalog: &Vec<String>, local: &Vec<String>) -> (r: Pass)
        ensures
            r.wf(),
            r.candidates().to_set() == views(catalog@).to_set().difference(views(local@).to_set()),
            r.candidates().no_duplicates(),
            names_sorted(r.candidates()),
            r.answers() == Seq::<Seq<HealthyInstance>>::empty(),
    {
        let candidates = candidate_services(catalog, local);
        Pass {
            candidates,
            next: 0,
            found: ExternalServiceMap::new(),
            answers: Ghost(Seq::empty()),
        }
    }

    /// The service to ask the registry about next, or `None` once every
    /// candidate was answered.
    pub fn next_query(&self) -> (r: Option<&String>)
        requires
            self.wf(),
        ensures
            r is None <==> self.answers().len() == self.candidates().len(),
            r is Some ==> r->0@ == self.candidates()[self.answers().len() as int],
    {
        if self.next < self.candidates.len() {
            Some(&self.candidates[self.next])
        } else {
            None
        }
    }

    /// Records the healthy instances that the registry gave for the service
    /// of `next_query`.
    pub fn record(&mut self, instances: Vec<HealthyInstance>)
        requires
            old(self).wf(),
            old(self).answers().len() < old(self).candidates().len(),
        ensures
            final(self).wf(),
            final(self).candidates() == old(self).candidates(),
            final(self).answers() == old(self).answers().push(instances@),
    {
        assert(views(self.candidates@).len() == self.candidates@.len());
        let count = self.candidates.len();
        assert(self.next < count);
        let ghost a = self.answers@.push(instances@);
        let n = self.next + 1;
        let name = self.candidates[self.next].clone();
        proof {
            assert(a.drop_last() =~= self.answers@);
        }
        self.found.insert_healthy(name, instances);
        self.answers = Ghost(a);
        self.next = n;
        proof {
            lemma_answered_map(views(self.candidates@), self.answers@.drop_last());
        }
    }

    /// Ends the pass: the services hosted elsewhere that have healthy
    /// instances, each with what the registry gave for it.
    pub fn finish(self) -> (r: ExternalServiceMap)
        requires
            self.wf(),
            self.answers().len() == self.candidates().len(),
        ensures
            r.wf(),
            r@ == answered_map(self.candidates(), self.answers()),
            forall|k: Seq<char>| #[trigger]
                r@.contains_key(k) <==> exists|j: int|
                    0 <= j < self.candidates().len() && self.candidates()[j] == k
                        && self.answers()[j].len() > 0,
    {
        proof {
            lemma_answered_map(views(self.candidates@), self.answers@);
        }
        self.found
    }
}

/// The document of a pass whose candidates were all answered.
pub fn pass_document(pass: Pass) -> (r: Result<RenderDocument, TickError>)
    requires
        pass.wf(),
        pass.answers().len() == pass.candidates().len(),
    ensures
        ({
            let m = answered_map(pass.candidates(), pass.answers());
            &&& r is Ok <==> forall|k: Seq<char>| #[trigger] m.contains_key(k) ==> ports_agree(m[k])
            &&& r is Ok ==> document_fits(r->Ok_0@, m)
            &&& r is Err ==> r->Err_0 is DataIntegrity && m.contains_key(r->Err_0->DataIntegrity_0@)
                && !ports_agree(m[r->Err_0->DataIntegrity_0@])
        }),
{
    let m = pass.finish();
    build(&m)
}

/// Whether the loop is between passes or in one.
#[derive(PartialEq, Eq, Structural, Clone, Copy, Debug)]
pub enum Phase {
    Idle,
    Running,
}

/// What happens to the loop.
#[derive(PartialEq, Eq, Structural, Clone, Copy, Debug)]
pub enum Event {
    /// The interval since the last pass ran out.
    IntervalElapsed,
    /// The pass ended, with a document or with an error.
    PassFinished { succeeded: bool },
}

/// What the loop does next.
#[derive(PartialEq, Eq, Structural, Clone, Copy, Debug)]
pub enum Action {
    /// Run one pass: query the registry, build, render.
    RunPass,
    /// Wait for the interval before the next pass.
    Sleep,
    /// Nothing: the event does not apply in this phase.
    Ignore,
}

/// The loop's transition. A pass starts when the interval runs out, and
/// every pass, failed or not, ends in a sleep before the next one.
pub fn step(phase: Phase, event: Event) -> (r: (Phase, Action))
    ensures
        phase == Phase::Idle && event == Event::IntervalElapsed ==> r == (
        Phase::Running,
        Action::RunPass,
        ),
        phase == Phase::Running && event is PassFinished ==> r == (Phase::Idle, Action::Sleep),
        phase == Phase::Idle && event is PassFinished ==> r == (phase, Action::Ignore),
        phase == Phase::Running && event == Event::IntervalElapsed ==> r == (phase, Action::Ignore),
{
    match (phase, event) {
        (Phase::Idle, Event::IntervalElapsed) => (Phase::Running, Action::RunPass),
        (Phase::Running, Event::PassFinished { .. }) => (Phase::Idle, Action::Sleep),
        _ => (phase, Action::Ignore),
    }
}

} // verus!
