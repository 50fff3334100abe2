use vstd::prelude::*;

verus! {

/// How many attempts a solve makes at most unless told otherwise.
pub const MAX_ITERATIONS: usize = 30;

/// Where a solve stands: the decisions of the bounded retry loop, apart
/// from the work of each attempt.
///
/// A solve starts with no attempt made. After each attempt it is told
/// whether the object accepted its move; it ends at the first acceptance,
/// or once the bound on attempts is reached.
#[derive(Clone, Copy, Debug, PartialEq, Eq, Structural)]
pub struct SolveState {
    /// The most attempts this solve makes.
    pub bound: usize,
    /// The attempts made so far.
    pub attempts: usize,
    /// Whether some attempt was rejected.
    pub collided_once: bool,
    /// Whether the last attempt was accepted.
    pub resolved: bool,
}

impl SolveState {
    /// Whether no further attempt is to be made.
    pub open spec fn spec_finished(self) -> bool {
        self.resolved || self.attempts >= self.bound
    }

    /// The state after an attempt that the object accepted or not.
    pub open spec fn spec_record(self, accepted: bool) -> SolveState {
        SolveState {
            bound: self.bound,
            attempts: (self.attempts + 1) as usize,
            collided_once: self.collided_once || !accepted,
            resolved: accepted,
        }
    }

    /// A solve that makes at most `bound` attempts, none made yet.
    pub fn new(bound: usize) -> (r: SolveState)
        ensures
            r == (SolveState { bound, attempts: 0, collided_once: false, resolved: false }),
    {
        SolveState { bound, attempts: 0, collided_once: false, resolved: false }
    }

    /// A solve bounded by [`MAX_ITERATIONS`].
    pub fn start() -> (r: SolveState)
        ensures
            r == SolveState::spec_new(MAX_ITERATIONS),
    {
        SolveState::new(MAX_ITERATIONS)
    }

    /// The state that `new(bound)` returns.
    pub open spec fn spec_new(bound: usize) -> SolveState {
        SolveState { bound, attempts: 0, collided_once: false, resolved: false }
    }

    /// Whether no further attempt is to be made: the last one was accepted,
    /// or the bound is reached.
    pub fn finished(&self) -> (r: bool)
        ensures
            r == self.spec_finished(),
    {
        self.resolved || self.attempts >= self.bound
    }

    /// Records the outcome of one more attempt.
    pub fn record(&mut self, accepted: bool)
        requires
            !old(self).spec_finished(),
        ensures
            *final(self) == old(self).spec_record(accepted),
    {
        self.attempts = self.attempts + 1;
        self.collided_once = self.collided_once || !accepted;
        self.resolved = accepted;
    }
}

/// The state a solve ends in when its attempts are answered by `answers`
/// in turn, from `s` on; the answers past its end are not used.
pub open spec fn run(s: SolveState, answers: Seq<bool>) -> SolveState
    decreases answers.len(),
{
    if s.spec_finished() || answers.len() == 0 {
        s
    } else {
        run(s.spec_record(answers[0]), answers.drop_first())
    }
}

/// Answering one more attempt of a run that has not finished takes one
/// more step of the state machine.
pub proof fn lemma_run_push(s: SolveState, answers: Seq<bool>, a: bool)
    requires
        !run(s, answers).spec_finished(),
    ensures
        run(s, answers.push(a)) == run(s, answers).spec_record(a),
    decreases answers.len(),
{
    if answers.len() == 0 {
        assert(answers.push(a).drop_first() =~= Seq::<bool>::empty());
        assert(answers.push(a)[0] == a);
        assert(run(s.spec_record(a), Seq::<bool>::empty()) == s.spec_record(a));
    } else {
        assert(answers.push(a).drop_first() =~= answers.drop_first().push(a));
        assert(answers.push(a)[0] == answers[0]);
        lemma_run_push(s.spec_record(answers[0]), answers.drop_first(), a);
    }
}

/// A solve whose attempts are all rejected ends after exactly its bound of
/// attempts, not resolved.
pub proof fn lemma_always_rejected(bound: usize, answers: Seq<bool>)
    requires
        answers.len() >= bound,
        forall|i: int| 0 <= i < bound ==> !#[trigger] answers[i],
    ensures
        run(SolveState::spec_new(bound), answers) == (SolveState {
            bound,
            attempts: bound,
            collided_once: bound > 0,
            resolved: false,
        }),
{
    lemma_rejected_from(SolveState::spec_new(bound), answers);
}

/// From a state with `n` attempts made and none accepted, rejections up to
/// the bound lead to the bound.
proof fn lemma_rejected_from(s: SolveState, answers: Seq<bool>)
    requires
        !s.resolved,
        s.attempts <= s.bound,
        s.collided_once == (s.attempts > 0),
        answers.len() >= s.bound - s.attempts,
        forall|i: int| 0 <= i < s.bound - s.attempts ==> !#[trigger] answers[i],
    ensures
        run(s, answers) == (SolveState {
            bound: s.bound,
            attempts: s.bound,
            collided_once: s.bound > 0,
            resolved: false,
        }),
    decreases answers.len(),
{
    if s.attempts < s.bound {
        let next = s.spec_record(answers[0]);
        assert forall|i: int| 0 <= i < next.bound - next.attempts implies !#[trigger] answers.drop_first()[i] by {
            assert(answers.drop_first()[i] == answers[i + 1]);
        }
        lemma_rejected_from(next, answers.drop_first());
    }
}

/// A solve whose `k`-th attempt is the first one accepted, `k` within the
/// bound, ends after `k` attempts, resolved, having collided once exactly
/// when `k > 1`.
pub proof fn lemma_accepted_at(bound: usize, answers: Seq<bool>, k: int)
    requires
        1 <= k <= bound,
        k <= answers.len(),
        answers[k - 1],
        forall|i: int| 0 <= i < k - 1 ==> !#[trigger] answers[i],
    ensures
        run(SolveState::spec_new(bound), answers) == (SolveState {
            bound,
            attempts: k as usize,
            collided_once: k > 1,
            resolved: true,
        }),
{
    lemma_accepted_from(SolveState::spec_new(bound), answers, k - 1);
}

/// From a state with no attempt accepted, an answer sequence whose first
/// acceptance is at `j` (within the bound) ends `j + 1` attempts later.
proof fn lemma_accepted_from(s: SolveState, answers: Seq<bool>, j: int)
    requires
        !s.resolved,
        0 <= j < answers.len(),
        s.attempts + j < s.bound,
        s.collided_once == (s.attempts > 0),
        answers[j],
        forall|i: int| 0 <= i < j ==> !#[trigger] answers[i],
    ensures
        run(s, answers) == (SolveState {
            bound: s.bound,
            attempts: (s.attempts + j + 1) as usize,
            collided_once: s.attempts + j > 0,
            resolved: true,
        }),
    decreases answers.len(),
{
    let next = s.spec_record(answers[0]);
    if j > 0 {
        assert forall|i: int| 0 <= i < j - 1 implies !#[trigger] answers.drop_first()[i] by {
            assert(answers.drop_first()[i] == answers[i + 1]);
        }
        assert(!answers[0]);
        lemma_accepted_from(next, answers.drop_first(), j - 1);
    } else {
        assert(run(next, answers.drop_first()) == next);
    }
}

} // verus!
