use tabua::engine::{advancement_hooks, GameContext, TurnHook};

#[test]
fn advancement_fires_turn_end_before_phase_end() {
    assert_eq!(
        advancement_hooks(true, false),
        vec![TurnHook::TurnEnd, TurnHook::PhaseEnd]
    );
}

#[test]
fn advancement_fires_turn_end_twice_when_both_end() {
    assert_eq!(
        advancement_hooks(true, true),
        vec![TurnHook::TurnEnd, TurnHook::PhaseEnd, TurnHook::TurnEnd]
    );
}

#[test]
fn advancement_fires_nothing_mid_phase() {
    assert_eq!(advancement_hooks(false, false), Vec::<TurnHook>::new());
    assert_eq!(advancement_hooks(false, true), vec![TurnHook::TurnEnd]);
}

#[test]
fn game_context_holds_roster_and_active_players() {
    let ctx = GameContext { players: vec![0, 1, 2], current_players: vec![1] };
    assert_eq!(ctx.players.len(), 3);
    assert_eq!(ctx.current_players, vec![1]);
    let copy = ctx.clone();
    assert_eq!(copy.players, ctx.players);
}
