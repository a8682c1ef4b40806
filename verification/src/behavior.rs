//! The decisions of the computer players' behavior trees: how the control nodes combine
//! their children's results, and what the leaf nodes answer.
use vstd::prelude::*;

verus! {

/// How a player moves.
#[derive(Clone, Copy, Debug, PartialEq, Eq, Structural)]
pub enum Movement {
    Stopped,
    Forward,
    Backwards,
}

/// What a player is doing besides moving.
#[derive(Clone, Copy, Debug, PartialEq, Eq, Structural)]
pub enum PlayerActionState {
    Idle,
    Fire,
    FireRope,
    CutRope,
}

/// What a controller asks of its player after a frame: whether to fire, and a velocity
/// (the bits, as `f64::to_bits` gives them, of its three coordinates).
#[derive(Clone, Copy, Debug, PartialEq, Eq)]
pub struct ControllerAction {
    pub fire: bool,
    pub velocity: [u64; 3],
}

/// The result of ticking a node of a behavior tree, with the action it asks for, if any.
#[derive(Clone, Copy, Debug, PartialEq, Eq)]
pub enum ActionResult {
    Success(Option<ControllerAction>),
    Failure,
    Running(Option<ControllerAction>),
}

/// Where a control node stands after one more child: it goes on to the next child with
/// the result so far, or it stops and returns a result.
#[derive(Clone, Copy, Debug, PartialEq, Eq)]
pub enum ChildStep {
    Continue(ActionResult),
    Return(ActionResult),
}

/// The result a control node returns once its children are done.
pub open spec fn step_result(s: ChildStep) -> ActionResult {
    match s {
        ChildStep::Continue(r) => r,
        ChildStep::Return(r) => r,
    }
}

/// A sequence after one more child: a success goes on, keeping the last action asked
/// for (a success that asks for nothing keeps the action of an earlier success); any
/// other result stops the sequence with that result.
pub open spec fn sequence_step(so_far: ActionResult, child: ActionResult) -> ChildStep {
    match child {
        ActionResult::Success(Some(a)) => ChildStep::Continue(ActionResult::Success(Some(a))),
        ActionResult::Success(None) => match so_far {
            ActionResult::Success(prev) => ChildStep::Continue(ActionResult::Success(prev)),
            _ => ChildStep::Continue(ActionResult::Success(None)),
        },
        _ => ChildStep::Return(child),
    }
}

/// A sequence over the results of its children, left to right; it starts from a success
/// that asks for nothing, so a sequence with no children succeeds.
pub open spec fn sequence_run(rs: Seq<ActionResult>) -> ChildStep
    decreases rs.len(),
{
    if rs.len() == 0 {
        ChildStep::Continue(ActionResult::Success(None))
    } else {
        match sequence_run(rs.drop_last()) {
            ChildStep::Continue(so_far) => sequence_step(so_far, rs.last()),
            ChildStep::Return(r) => ChildStep::Return(r),
        }
    }
}

/// A fallback after one more child: a failure goes on, any other result stops the
/// fallback with that result.
pub open spec fn fallback_step(child: ActionResult) -> ChildStep {
    match child {
        ActionResult::Failure => ChildStep::Continue(ActionResult::Failure),
        _ => ChildStep::Return(child),
    }
}

/// A fallback over the results of its children, left to right.
pub open spec fn fallback_run(rs: Seq<ActionResult>) -> ChildStep
    decreases rs.len(),
{
    if rs.len() == 0 {
        ChildStep::Continue(ActionResult::Failure)
    } else {
        match fallback_run(rs.drop_last()) {
            ChildStep::Continue(_) => fallback_step(rs.last()),
            ChildStep::Return(r) => ChildStep::Return(r),
        }
    }
}

/// A parallel sequence after one more child: a success replaces the result so far, a
/// running child replaces a failure, anything else keeps the result so far.
pub open spec fn parallel_step(so_far: ActionResult, child: ActionResult) -> ActionResult {
    match child {
        ActionResult::Success(_) => child,
        ActionResult::Running(_) => if so_far is Failure {
            child
        } else {
            so_far
        },
        ActionResult::Failure => so_far,
    }
}

/// A parallel sequence over the results of all its children, left to right.
pub open spec fn parallel_run(rs: Seq<ActionResult>) -> ActionResult
    decreases rs.len(),
{
    if rs.len() == 0 {
        ActionResult::Failure
    } else {
        parallel_step(parallel_run(rs.drop_last()), rs.last())
    }
}

/// A node that succeeds if all of its children succeed, processed left to right.
/// If any child fails or is running, the sequence returns the status of the first
/// non-successful child. Later actions that are not `None` overwrite earlier ones.
pub struct Sequence {}

impl Sequence {
    /// Where a sequence stands before its first child: all of its (no) children have
    /// succeeded, and none asked for an action.
    pub fn start() -> (res: ActionResult)
        ensures
            res == ActionResult::Success(None),
    {
        ActionResult::Success(None)
    }

    /// Takes in the result of the next child.
    pub fn on_child(so_far: ActionResult, child: ActionResult) -> (res: ChildStep)
        ensures
            res == sequence_step(so_far, child),
    {
        match child {
            ActionResult::Success(Some(a)) => ChildStep::Continue(ActionResult::Success(Some(a))),
            ActionResult::Success(None) => match so_far {
                ActionResult::Success(prev) => ChildStep::Continue(ActionResult::Success(prev)),
                _ => ChildStep::Continue(ActionResult::Success(None)),
            },
            _ => ChildStep::Return(child),
        }
    }

    /// The result of a sequence whose children gave `results`; the children after the
    /// first one that does not succeed are not looked at.
    pub fn tick(results: &[ActionResult]) -> (res: ActionResult)
        ensures
            res == step_result(sequence_run(results@)),
    {
        let mut so_far = Self::start();
        let mut i: usize = 0;
        while i < results.len()
            invariant
                i <= results@.len(),
                sequence_run(results@.take(i as int)) == ChildStep::Continue(so_far),
            decreases results@.len() - i,
        {
            assert(results@.take(i + 1).drop_last() =~= results@.take(i as int));
            match Self::on_child(so_far, results[i]) {
                ChildStep::Continue(r) => {
                    so_far = r;
                },
                ChildStep::Return(r) => {
                    proof {
                        lemma_sequence_stops(results@, i + 1);
                    }
                    return r;
                },
            }
            i = i + 1;
        }
        assert(results@.take(i as int) =~= results@);
        so_far
    }
}

/// Once a sequence has stopped it stays stopped with the same result.
proof fn lemma_sequence_stops(rs: Seq<ActionResult>, k: int)
    requires
        0 <= k <= rs.len(),
        sequence_run(rs.take(k)) is Return,
    ensures
        sequence_run(rs) == sequence_run(rs.take(k)),
    decreases rs.len() - k,
{
    if k < rs.len() {
        assert(rs.take(k + 1).drop_last() =~= rs.take(k));
        lemma_sequence_stops(rs, k + 1);
    } else {
        assert(rs.take(k) =~= rs);
    }
}

/// A node that succeeds if any of its children succeed, processed left to right.
/// The fallback returns the status of the first non-failure child.
pub struct Fallback {}

impl Fallback {
    /// Takes in the result of the next child.
    pub fn on_child(child: ActionResult) -> (res: ChildStep)
        ensures
            res == fallback_step(child),
    {
        match child {
            ActionResult::Failure => ChildStep::Continue(ActionResult::Failure),
            _ => ChildStep::Return(child),
        }
    }

    /// The result of a fallback whose children gave `results`; the children after the
    /// first one that does not fail are not looked at.
    pub fn tick(results: &[ActionResult]) -> (res: ActionResult)
        ensures
            res == step_result(fallback_run(results@)),
    {
        let mut i: usize = 0;
        while i < results.len()
            invariant
                i <= results@.len(),
                fallback_run(results@.take(i as int)) == ChildStep::Continue(
                    ActionResult::Failure,
                ),
            decreases results@.len() - i,
        {
            assert(results@.take(i + 1).drop_last() =~= results@.take(i as int));
            match Self::on_child(results[i]) {
                ChildStep::Continue(_) => {},
                ChildStep::Return(r) => {
                    proof {
                        lemma_fallback_stops(results@, i + 1);
                    }
                    return r;
                },
            }
            i = i + 1;
        }
        assert(results@.take(i as int) =~= results@);
        ActionResult::Failure
    }
}

/// Once a fallback has stopped it stays stopped with the same result.
proof fn lemma_fallback_stops(rs: Seq<ActionResult>, k: int)
    requires
        0 <= k <= rs.len(),
        fallback_run(rs.take(k)) is Return,
    ensures
        fallback_run(rs) == fallback_run(rs.take(k)),
    decreases rs.len() - k,
{
    if k < rs.len() {
        assert(rs.take(k + 1).drop_last() =~= rs.take(k));
        lemma_fallback_stops(rs, k + 1);
    } else {
        assert(rs.take(k) =~= rs);
    }
}

/// A control node which runs all children and returns the last success, if any.
pub struct ParallelSequence {}

impl ParallelSequence {
    /// Takes in the result of the next child.
    pub fn on_child(so_far: ActionResult, child: ActionResult) -> (res: ActionResult)
        ensures
            res == parallel_step(so_far, child),
    {
        match child {
            ActionResult::Success(_) => child,
            ActionResult::Running(_) => match so_far {
                ActionResult::Failure => child,
                _ => so_far,
            },
            ActionResult::Failure => so_far,
        }
    }

    /// The result of a parallel sequence whose children gave `results`.
    pub fn tick(results: &[ActionResult]) -> (res: ActionResult)
        ensures
            res == parallel_run(results@),
    {
        let mut so_far = ActionResult::Failure;
        let mut i: usize = 0;
        while i < results.len()
            invariant
                i <= results@.len(),
                parallel_run(results@.take(i as int)) == so_far,
            decreases results@.len() - i,
        {
            assert(results@.take(i + 1).drop_last() =~= results@.take(i as int));
            so_far = Self::on_child(so_far, results[i]);
            i = i + 1;
        }
        assert(results@.take(i as int) =~= results@);
        so_far
    }
}

/// The last action that the successes in `rs` ask for, if any asks for one.
pub open spec fn last_action(rs: Seq<ActionResult>) -> Option<ControllerAction>
    decreases rs.len(),
{
    if rs.len() == 0 {
        None
    } else {
        match rs.last() {
            ActionResult::Success(Some(a)) => Some(a),
            _ => last_action(rs.drop_last()),
        }
    }
}

/// A sequence succeeds exactly when all of its children succeed (so also when it has
/// none), and then it asks for the last action any of them asked for; otherwise it
/// returns the result of the first child that did not succeed.
pub proof fn lemma_sequence_outcome(rs: Seq<ActionResult>, i: int)
    requires
        0 <= i <= rs.len(),
        forall|j: int| 0 <= j < i ==> #[trigger] rs[j] is Success,
        i < rs.len() ==> rs[i] !is Success,
    ensures
        i < rs.len() ==> step_result(sequence_run(rs)) == rs[i],
        i == rs.len() ==> step_result(sequence_run(rs)) == ActionResult::Success(
            last_action(rs),
        ),
        step_result(sequence_run(rs)) is Success <==> i == rs.len(),
{
    if i < rs.len() {
        lemma_sequence_stops_at(rs, i);
    } else {
        lemma_sequence_all_succeed(rs);
    }
}

/// A sequence stops at its first child that does not succeed.
proof fn lemma_sequence_stops_at(rs: Seq<ActionResult>, i: int)
    requires
        0 <= i < rs.len(),
        forall|j: int| 0 <= j < i ==> #[trigger] rs[j] is Success,
        rs[i] !is Success,
    ensures
        sequence_run(rs) == ChildStep::Return(rs[i]),
    decreases rs.len(),
{
    let init = rs.drop_last();
    if i < rs.len() - 1 {
        lemma_sequence_stops_at(init, i);
    } else {
        lemma_sequence_all_succeed(init);
    }
}

/// A sequence whose children all succeed goes on, with the last action asked for.
proof fn lemma_sequence_all_succeed(rs: Seq<ActionResult>)
    requires
        forall|j: int| 0 <= j < rs.len() ==> #[trigger] rs[j] is Success,
    ensures
        sequence_run(rs) == ChildStep::Continue(ActionResult::Success(last_action(rs))),
    decreases rs.len(),
{
    if rs.len() > 0 {
        let init = rs.drop_last();
        lemma_sequence_all_succeed(init);
        assert(rs.last() is Success);
    }
}

/// A fallback returns the result of its first child that does not fail, and fails when
/// every child fails (or it has none).
pub proof fn lemma_fallback_outcome(rs: Seq<ActionResult>, i: int)
    requires
        0 <= i <= rs.len(),
        forall|j: int| 0 <= j < i ==> #[trigger] rs[j] is Failure,
        i < rs.len() ==> rs[i] !is Failure,
    ensures
        i < rs.len() ==> step_result(fallback_run(rs)) == rs[i],
        i == rs.len() ==> step_result(fallback_run(rs)) == ActionResult::Failure,
{
    if i < rs.len() {
        lemma_fallback_stops_at(rs, i);
    } else {
        lemma_fallback_all_fail(rs);
    }
}

/// A fallback stops at its first child that does not fail.
proof fn lemma_fallback_stops_at(rs: Seq<ActionResult>, i: int)
    requires
        0 <= i < rs.len(),
        forall|j: int| 0 <= j < i ==> #[trigger] rs[j] is Failure,
        rs[i] !is Failure,
    ensures
        fallback_run(rs) == ChildStep::Return(rs[i]),
    decreases rs.len(),
{
    let init = rs.drop_last();
    if i < rs.len() - 1 {
        lemma_fallback_stops_at(init, i);
    } else {
        lemma_fallback_all_fail(init);
    }
}

/// A fallback whose children all fail goes on, failing.
proof fn lemma_fallback_all_fail(rs: Seq<ActionResult>)
    requires
        forall|j: int| 0 <= j < rs.len() ==> #[trigger] rs[j] is Failure,
    ensures
        fallback_run(rs) == ChildStep::Continue(ActionResult::Failure),
    decreases rs.len(),
{
    if rs.len() > 0 {
        lemma_fallback_all_fail(rs.drop_last());
    }
}

/// A parallel sequence whose child `i` succeeds and whose later children do not returns
/// that child's result: the last success.
pub proof fn lemma_parallel_last_success(rs: Seq<ActionResult>, i: int)
    requires
        0 <= i < rs.len(),
        rs[i] is Success,
        forall|j: int| i < j < rs.len() ==> #[trigger] rs[j] !is Success,
    ensures
        parallel_run(rs) == rs[i],
    decreases rs.len(),
{
    let init = rs.drop_last();
    if i < rs.len() - 1 {
        assert forall|j: int| i < j < init.len() implies #[trigger] init[j] !is Success by {
            assert(init[j] == rs[j]);
        }
        lemma_parallel_last_success(init, i);
        assert(rs[rs.len() - 1] !is Success);
    }
}

/// A parallel sequence none of whose children succeed returns the result of its first
/// running child.
pub proof fn lemma_parallel_first_running(rs: Seq<ActionResult>, i: int)
    requires
        0 <= i < rs.len(),
        rs[i] is Running,
        forall|j: int| 0 <= j < rs.len() ==> #[trigger] rs[j] !is Success,
        forall|j: int| 0 <= j < i ==> #[trigger] rs[j] !is Running,
    ensures
        parallel_run(rs) == rs[i],
    decreases rs.len(),
{
    let init = rs.drop_last();
    if i < rs.len() - 1 {
        assert forall|j: int| 0 <= j < init.len() implies #[trigger] init[j] !is Success by {
            assert(init[j] == rs[j]);
        }
        lemma_parallel_first_running(init, i);
        assert(rs[rs.len() - 1] !is Success);
    } else {
        assert forall|j: int| 0 <= j < init.len() implies #[trigger] init[j] is Failure by {
            assert(init[j] == rs[j]);
            assert(rs[j] !is Success);
            assert(rs[j] !is Running);
        }
        lemma_parallel_all_fail(init);
    }
}

/// A parallel sequence whose children all fail (or that has none) fails.
pub proof fn lemma_parallel_all_fail(rs: Seq<ActionResult>)
    requires
        forall|j: int| 0 <= j < rs.len() ==> #[trigger] rs[j] is Failure,
    ensures
        parallel_run(rs) is Failure,
    decreases rs.len(),
{
    if rs.len() > 0 {
        let init = rs.drop_last();
        assert forall|j: int| 0 <= j < init.len() implies #[trigger] init[j] is Failure by {
            assert(init[j] == rs[j]);
        }
        lemma_parallel_all_fail(init);
    }
}

/// A behavior tree node that always succeeds.
pub struct AlwaysSucceed {}

impl AlwaysSucceed {
    /// Succeeds, asking for nothing.
    pub fn tick(&self) -> (res: ActionResult)
        ensures
            res == ActionResult::Success(None),
    {
        ActionResult::Success(None)
    }
}

/// The least time, in milliseconds, between two shots of a computer player.
pub const SHOT_INTERVAL_MS: u64 = 500;

/// A node that succeeds if the player is looking near another player.
///
/// On success, it asks to fire a laser if the last time this node fired was more than
/// half a second ago. Times are milliseconds on one clock.
pub struct ShootIfAble {
    pub last_time: u64,
}

/// The action that fires a laser and asks for no velocity.
pub open spec fn fire_action() -> ControllerAction {
    ControllerAction { fire: true, velocity: [0u64, 0u64, 0u64] }
}

impl ShootIfAble {
    /// A node that last fired at `now`.
    pub fn new(now: u64) -> (res: ShootIfAble)
        ensures
            res.last_time == now,
    {
        ShootIfAble { last_time: now }
    }

    /// Ticks the node at time `now`, given whether the player is aimed at another
    /// player: it fails if not; it fires, and remembers `now`, if more than half a second
    /// passed since it last fired; otherwise it succeeds asking for nothing.
    pub fn tick(&mut self, is_aiming: bool, now: u64) -> (res: ActionResult)
        ensures
            !is_aiming ==> res == ActionResult::Failure && final(self).last_time == old(
                self,
            ).last_time,
            is_aiming && now > old(self).last_time + SHOT_INTERVAL_MS ==> res
                == ActionResult::Success(Some(fire_action())) && final(self).last_time == now,
            is_aiming && now <= old(self).last_time + SHOT_INTERVAL_MS ==> res
                == ActionResult::Success(None) && final(self).last_time == old(self).last_time,
    {
        if !is_aiming {
            return ActionResult::Failure;
        }
        if now > self.last_time && now - self.last_time > SHOT_INTERVAL_MS {
            self.last_time = now;
            ActionResult::Success(Some(ControllerAction { fire: true, velocity: [0u64, 0u64, 0u64] }))
        } else {
            ActionResult::Success(None)
        }
    }
}

/// A node that fails if the target location is too far from the target location used to
/// compute a path, or if a path has never been computed.
///
/// So it succeeds when a path exists, and fails when a path needs to be computed.
pub struct ShouldRecomputePath {}

impl ShouldRecomputePath {
    /// Ticks the node. `target_moved` is `None` when the blackboard lacks the target
    /// location or the location a path was computed for, and otherwise says whether the
    /// two are more than 10 units apart.
    pub fn tick(&self, target_moved: Option<bool>) -> (res: ActionResult)
        ensures
            res == (match target_moved {
                Some(false) => ActionResult::Success(None),
                _ => ActionResult::Failure,
            }),
    {
        match target_moved {
            Some(false) => ActionResult::Success(None),
            _ => ActionResult::Failure,
        }
    }
}

/// Forces a path to be recomputed. Always succeeds.
pub struct TriggerRecomputePath {}

impl TriggerRecomputePath {
    /// Forgets the location the path was computed for, and succeeds.
    pub fn tick<L>(&self, path_target_location: &mut Option<L>) -> (res: ActionResult)
        ensures
            *final(path_target_location) == None::<L>,
            res == ActionResult::Success(None),
    {
        *path_target_location = None;
        ActionResult::Success(None)
    }
}

/// What a computer player does after its behavior tree returned `result`: a success or a
/// running tree hands on the action it asks for, and the player fires exactly when that
/// action fires; a failure asks for nothing and leaves the player idle.
pub open spec fn frame_outcome(result: ActionResult) -> (PlayerActionState, Option<ControllerAction>) {
    match result {
        ActionResult::Success(a) | ActionResult::Running(a) => (
            if a matches Some(x) && x.fire {
                PlayerActionState::Fire
            } else {
                PlayerActionState::Idle
            },
            a,
        ),
        ActionResult::Failure => (PlayerActionState::Idle, None),
    }
}

/// The action state and the action of a computer player whose behavior tree returned
/// `result` this frame.
pub fn on_frame_update(result: ActionResult) -> (res: (PlayerActionState, Option<ControllerAction>))
    ensures
        res == frame_outcome(result),
{
    match result {
        ActionResult::Success(action) | ActionResult::Running(action) => {
            let fires = match action {
                Some(x) => x.fire,
                None => false,
            };
            if fires {
                (PlayerActionState::Fire, action)
            } else {
                (PlayerActionState::Idle, action)
            }
        },
        ActionResult::Failure => (PlayerActionState::Idle, None),
    }
}

/// A computer player fires exactly when its tree, succeeding or still running, asks for
/// an action that fires, and then hands that action on; otherwise it stays idle, handing
/// on the action asked for, if any (none after a failure).
pub proof fn lemma_frame_fires_on_fire(result: ActionResult)
    ensures
        result matches ActionResult::Success(Some(x)) ==> frame_outcome(result) == (
            if x.fire {
                PlayerActionState::Fire
            } else {
                PlayerActionState::Idle
            },
            Some(x),
        ),
        result matches ActionResult::Running(Some(x)) ==> frame_outcome(result) == (
            if x.fire {
                PlayerActionState::Fire
            } else {
                PlayerActionState::Idle
            },
            Some(x),
        ),
        result == ActionResult::Success(None) ==> frame_outcome(result) == (
            PlayerActionState::Idle,
            None::<ControllerAction>,
        ),
        result == ActionResult::Running(None) ==> frame_outcome(result) == (
            PlayerActionState::Idle,
            None::<ControllerAction>,
        ),
        result == ActionResult::Failure ==> frame_outcome(result) == (
            PlayerActionState::Idle,
            None::<ControllerAction>,
        ),
        frame_outcome(result).0 == PlayerActionState::Fire || frame_outcome(result).0
            == PlayerActionState::Idle,
{
}

/// A player whose tree returns what a shooting node returns when it fires (a success
/// asking to fire and move nowhere) is in the firing state and fires.
pub proof fn lemma_shot_fires(x: ControllerAction)
    requires
        x == fire_action(),
    ensures
        frame_outcome(ActionResult::Success(Some(x))) == (PlayerActionState::Fire, Some(x)),
        frame_outcome(ActionResult::Running(Some(x))) == (PlayerActionState::Fire, Some(x)),
{
}

} // verus!
