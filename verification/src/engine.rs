use vstd::prelude::*;

verus! {

/// A player's unique identifier within one game session.
pub type PlayerId = usize;

/// Game context managed by the framework: the full roster and the subset
/// of players that can currently take actions. Created at setup and
/// replaced, not mutated in place, whenever the active set changes.
#[derive(Debug, Clone)]
pub struct GameContext {
    /// All players in the game.
    pub players: Vec<PlayerId>,
    /// Players that can currently take actions.
    pub current_players: Vec<PlayerId>,
}

/// The full state of one game session, as an implementing game defines it.
pub trait GameState {

}

/// One discrete game move; nameable for logging and telemetry.
pub trait Action {
    fn name(&self) -> String;
}

/// An ordered sub-step of a turn with begin/end hooks and a continuation
/// predicate.
pub trait PhaseStructure {
    fn name(&self) -> String;

    fn before_begin(&self);

    fn before_end(&self);

    fn end_if(&self) -> bool;
}

/// One player's whole turn with begin/end hooks and a continuation
/// predicate.
pub trait TurnStructure {
    fn before_begin(&self);

    fn before_end(&self);

    fn end_if(&self) -> bool;
}

/// An ordered sub-step of a phase with begin/end hooks and a continuation
/// predicate.
pub trait StageStructure {
    fn name(&self) -> String;

    fn before_begin(&self);

    fn before_end(&self);

    fn end_if(&self) -> bool;
}

/// A cleanup hook to fire while advancing past an applied action.
#[derive(Clone, Copy, Debug, PartialEq, Eq, Structural)]
pub enum TurnHook {
    TurnEnd,
    PhaseEnd,
}

/// The hooks `advancement_hooks` schedules, in order.
pub open spec fn advancement_hooks_spec(phase_over: bool, turn_over: bool) -> Seq<TurnHook> {
    (if phase_over {
        seq![TurnHook::TurnEnd, TurnHook::PhaseEnd]
    } else {
        Seq::<TurnHook>::empty()
    }) + (if turn_over {
        seq![TurnHook::TurnEnd]
    } else {
        Seq::<TurnHook>::empty()
    })
}

/// The cleanup hooks to fire, in order, after an action was applied, given
/// the phase's continuation predicate and then the turn's (queried after
/// the phase hooks ran). When the phase is over, turn-end fires before
/// phase-end, so turn-scoped cleanup observes phase state before it is
/// torn down; when the turn is over as well, turn-end fires again, so
/// turn-end handlers must be idempotent.
pub fn advancement_hooks(phase_over: bool, turn_over: bool) -> (r: Vec<TurnHook>)
    ensures
        r@ == advancement_hooks_spec(phase_over, turn_over),
{
    let mut r: Vec<TurnHook> = Vec::new();
    if phase_over {
        r.push(TurnHook::TurnEnd);
        r.push(TurnHook::PhaseEnd);
    }
    if turn_over {
        r.push(TurnHook::TurnEnd);
    }
    proof {
        assert(r@ =~= advancement_hooks_spec(phase_over, turn_over));
    }
    r
}

} // verus!
