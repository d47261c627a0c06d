use zapzap::bonus::{BonusDrop, FallingBonusKind};
use zapzap::components::{BonusType, GameMode, Marking, PowerUpType, SoundEvent};
use zapzap::grid::Tile;
use zapzap::state::{Advance, FallFrom, GameCore, GamePhase, RenderSlot, ScoreSpot, TapAction, TickEvent};

fn quiet_core(mode: GameMode) -> GameCore {
    // Every tile a vertical bar: nothing connects to the left pins.
    let mut core = GameCore::new_with_mode(42, mode);
    for x in 0..core.board.width {
        for y in 0..core.board.height {
            core.board.grid.set(x, y, Some(Tile::new(0b1010)));
        }
    }
    core.phase = GamePhase::WaitingForInput;
    core.left_score = 0;
    core.right_score = 0;
    core.pending_bonus = (0, 0, 0);
    core.board.multiplier_left = vec![1; 10];
    core.board.multiplier_right = vec![1; 10];
    core.begin_tick();
    core
}

fn set_row(core: &mut GameCore, y: usize, mask: u8) {
    for x in 0..core.board.width {
        core.board.grid.set(x, y, Some(Tile::new(mask)));
    }
}

#[test]
fn new_game_starts_waiting_or_zapped() {
    let core = GameCore::new(42);
    assert!(core.phase == GamePhase::WaitingForInput || core.phase == GamePhase::FreezeDuringZap);
    assert_eq!(core.board.width, 12);
    assert_eq!(core.board.height, 10);
}

#[test]
fn tap_off_the_board_is_ignored() {
    let mut core = quiet_core(GameMode::Zen);
    core.queue_tap(12, 0);
    assert_eq!(core.pending_tap, None);
    core.queue_tap(3, 4);
    core.queue_tap(5, 5);
    assert_eq!(core.pending_tap, Some((5, 5)));
}

#[test]
fn tap_rotates_the_tile_at_once() {
    let mut core = quiet_core(GameMode::Zen);
    core.queue_tap(5, 5);
    let action = core.take_tap();
    assert_eq!(action, TapAction::Rotated(5, 5));
    assert_eq!(core.board.grid.get(5, 5).unwrap().connections, 0b0101);
    assert_eq!(core.phase, GamePhase::RotatingTile);
    assert_eq!(core.sound_events, vec![SoundEvent::Rotate]);
    assert_eq!(core.take_tap(), TapAction::Idle);
}

#[test]
fn zap_scores_pins_and_freezes() {
    let mut core = quiet_core(GameMode::Zen);
    set_row(&mut core, 0, 0b0101);
    let kept = core.check_and_transition(&Vec::new());
    assert!(kept.is_empty());
    assert_eq!(core.phase, GamePhase::FreezeDuringZap);
    // Both pins of row 0 score their multiplier of 1, in Zen mode to both players.
    assert_eq!(core.left_score, 2);
    assert_eq!(core.right_score, 2);
    assert_eq!(core.board.multiplier_left[0], 2);
    assert_eq!(core.board.multiplier_right[0], 2);
    assert_eq!(core.score_events.len(), 2);
    assert_eq!(core.score_events[0].spot, ScoreSpot::LeftPin(0));
    assert_eq!(core.score_events[1].spot, ScoreSpot::RightPin(0));
    assert_eq!(core.pending_bonus, (2, 0, 0));
    assert_eq!(core.sound_events, vec![SoundEvent::Buzz]);
}

#[test]
fn vs_bot_game_ends_at_the_winning_score() {
    let mut core = quiet_core(GameMode::VsBot);
    core.left_score = 100;
    set_row(&mut core, 3, 0b0101);
    core.check_and_transition(&Vec::new());
    assert_eq!(core.phase, GamePhase::GameOver);
    // Against the bot each pin scores for its own side only.
    assert_eq!(core.left_score, 101);
    assert_eq!(core.right_score, 1);
}

#[test]
fn zen_game_never_ends() {
    let mut core = quiet_core(GameMode::Zen);
    core.left_score = 500;
    set_row(&mut core, 3, 0b0101);
    core.check_and_transition(&Vec::new());
    assert_eq!(core.phase, GamePhase::FreezeDuringZap);
}

#[test]
fn clearing_a_zap_refills_and_plans_falls() {
    let mut core = quiet_core(GameMode::Zen);
    set_row(&mut core, 9, 0b0101);
    core.check_and_transition(&Vec::new());
    core.begin_tick();
    let (moves, drops) = core.clear_zapped();
    assert_eq!(drops, (2, 0, 0));
    assert_eq!(core.pending_bonus, (0, 0, 0));
    assert_eq!(core.phase, GamePhase::FallingTiles);
    assert_eq!(core.sound_events, vec![SoundEvent::CoinDrop, SoundEvent::Explode]);
    // Every column loses its bottom tile: nine survivors fall one row, one new tile.
    assert_eq!(moves.len(), 12 * 10);
    assert_eq!(moves[0].x, 0);
    assert_eq!(moves[0].y, 9);
    assert_eq!(moves[0].from, FallFrom::Row(8));
    assert_eq!(moves[9].y, 0);
    assert_eq!(moves[9].from, FallFrom::Above(1));
    for x in 0..12 {
        for y in 0..10 {
            assert_eq!(core.board.get_marking(x, y), Marking::Unmarked);
        }
        for y in 1..10 {
            assert_eq!(core.board.grid.get(x, y).unwrap().connections, 0b1010);
        }
    }
}

#[test]
fn landed_bonuses_on_marked_cells_are_collected() {
    let mut core = quiet_core(GameMode::VsBot);
    // Row 0 reaches the left edge only, row 1 the right edge only.
    core.board.grid.set(0, 0, Some(Tile::new(0b0100)));
    core.board.grid.set(11, 1, Some(Tile::new(0b0001)));
    let landed = vec![
        BonusDrop { tile_x: 0, tile_y: 0, kind: FallingBonusKind::Coin(BonusType::Coin5) },
        BonusDrop { tile_x: 11, tile_y: 1, kind: FallingBonusKind::PowerUp(PowerUpType::Bomb) },
        BonusDrop { tile_x: 11, tile_y: 1, kind: FallingBonusKind::Coin(BonusType::Coin2) },
        BonusDrop { tile_x: 5, tile_y: 5, kind: FallingBonusKind::Coin(BonusType::Coin1) },
    ];
    let kept = core.check_and_transition(&landed);
    assert_eq!(kept, vec![3]);
    assert_eq!(core.left_score, 5);
    assert_eq!(core.right_score, 2);
    assert!(core.power_right.has_bomb);
    assert!(!core.power_left.has_bomb);
    assert_eq!(core.phase, GamePhase::WaitingForInput);
    assert_eq!(core.sound_events, vec![SoundEvent::CoinDrop, SoundEvent::PowerUp]);
    assert_eq!(core.score_events.len(), 2);
    assert_eq!(core.score_events[0].spot, ScoreSpot::Tile(0, 0));
    assert_eq!(core.score_events[0].value, 5);
    assert_eq!(core.score_events[1].side, 1);
}

#[test]
fn armed_bomb_is_spent_on_the_tap() {
    let mut core = quiet_core(GameMode::Zen);
    assert!(!core.arm_power(false, PowerUpType::Bomb));
    core.power_left.grant(PowerUpType::Bomb);
    assert!(core.arm_power(false, PowerUpType::Bomb));
    assert_eq!(core.power_state(), 1 | (1 << 6));
    core.queue_tap(4, 4);
    assert_eq!(core.take_tap(), TapAction::Blast(4, 4, 2, 2));
    assert_eq!(core.phase, GamePhase::FreezeDuringBomb);
    assert_eq!(core.power_state(), 0);
    assert!(core.is_pending_bomb_tile(2, 6));
    assert!(!core.is_pending_bomb_tile(1, 4));
    let positions = core.bomb_affected_positions(4, 4, 2, 2);
    assert_eq!(positions.len(), 25);
    let counts = core.apply_pending_bomb();
    assert_eq!(counts, vec![(2, 5), (3, 5), (4, 5), (5, 5), (6, 5)]);
    assert_eq!(core.phase, GamePhase::FallingTiles);
    assert_eq!(core.pending_bomb, None);
}

#[test]
fn armed_cross_fills_the_tile() {
    let mut core = quiet_core(GameMode::Zen);
    core.power_right.grant(PowerUpType::Cross);
    assert!(core.arm_power(true, PowerUpType::Cross));
    assert_eq!(core.power_state(), (2 << 3) | (2 << 9));
    core.queue_tap(0, 0);
    assert_eq!(core.take_tap(), TapAction::Crossed(0, 0));
    assert_eq!(core.board.grid.get(0, 0).unwrap().connections, 15);
    assert!(!core.power_right.has_cross);
}

#[test]
fn bot_plays_only_when_enabled_and_waiting() {
    let mut core = quiet_core(GameMode::VsBot);
    set_row(&mut core, 0, 0b0101);
    core.board.grid.set(6, 0, Some(Tile::new(0b1010)));
    core.phase = GamePhase::RotatingTile;
    assert_eq!(core.bot_move(), None);
    core.phase = GamePhase::WaitingForInput;
    let m = core.bot_move().unwrap();
    assert_eq!((m.x, m.y, m.rotation_count), (6, 0, 1));
    assert_eq!(core.board.grid.get(6, 0).unwrap().connections, 0b0101);
    assert_eq!(core.phase, GamePhase::RotatingTile);
}

#[test]
fn fresh_frame_has_tiles_and_pins() {
    let core = GameCore::new(42);
    let plan = core.render_plan(0, 0);
    assert_eq!(plan.len(), 12 * 10 + 2 * 10);
    assert_eq!(plan[0], RenderSlot::LeftPin(0));
    assert_eq!(plan[10], RenderSlot::Tile(0, 0));
    assert_eq!(plan[11], RenderSlot::Tile(0, 1));
    assert_eq!(plan[130], RenderSlot::RightPin(0));
    let with_bonus = core.render_plan(3, 2);
    assert_eq!(with_bonus.len(), 143);
    assert_eq!(with_bonus[140], RenderSlot::Bonus(0));
}

#[test]
fn rotation_arrows_show_while_turning() {
    let mut core = quiet_core(GameMode::Zen);
    core.queue_tap(1, 1);
    core.take_tap();
    let plan = core.render_plan(0, 1);
    assert_eq!(plan.len(), 141);
    assert_eq!(plan[140], RenderSlot::Arrow(0));
}

#[test]
fn timer_events_drive_the_phases() {
    let mut core = quiet_core(GameMode::Zen);
    // A freeze event while waiting does nothing.
    assert!(matches!(core.advance(TickEvent::FreezeExpired, &Vec::new()), Advance::Ignored));
    assert_eq!(core.phase, GamePhase::WaitingForInput);
    // A tap that completes row 2 zaps once its rotation ends.
    set_row(&mut core, 2, 0b0101);
    core.board.grid.set(4, 2, Some(Tile::new(0b1010)));
    core.queue_tap(4, 2);
    core.take_tap();
    assert_eq!(core.phase, GamePhase::RotatingTile);
    assert!(matches!(core.advance(TickEvent::RotationsFinished, &Vec::new()), Advance::Checked(_)));
    assert_eq!(core.phase, GamePhase::FreezeDuringZap);
    match core.advance(TickEvent::FreezeExpired, &Vec::new()) {
        Advance::Cleared(moves, drops) => {
            assert_eq!(drops, (2, 0, 0));
            assert!(!moves.is_empty());
        }
        _ => panic!("the zap should clear"),
    }
    assert_eq!(core.phase, GamePhase::FallingTiles);
    assert!(matches!(core.advance(TickEvent::FallsFinished, &Vec::new()), Advance::Checked(_)));
}

#[test]
fn cross_is_checked_at_once() {
    let mut core = quiet_core(GameMode::Zen);
    set_row(&mut core, 4, 0b0101);
    core.board.grid.set(7, 4, Some(Tile::new(0b0010)));
    core.power_left.grant(PowerUpType::Cross);
    core.arm_power(false, PowerUpType::Cross);
    core.queue_tap(7, 4);
    let (action, kept) = core.process_input(&Vec::new());
    assert_eq!(action, TapAction::Crossed(7, 4));
    assert!(kept.is_empty());
    assert_eq!(core.board.grid.get(7, 4).unwrap().connections, 15);
    assert_eq!(core.phase, GamePhase::FreezeDuringZap);
    assert_eq!(core.sound_events, vec![SoundEvent::PowerUp, SoundEvent::Buzz]);
}

#[test]
fn blast_off_the_tiles_rechecks_at_once() {
    let mut core = quiet_core(GameMode::Zen);
    for y in 0..10 {
        core.board.grid.set(3, y, None);
    }
    core.power_left.grant(PowerUpType::Arrow);
    core.arm_power(false, PowerUpType::Arrow);
    core.queue_tap(3, 5);
    assert_eq!(core.take_tap(), TapAction::Blast(3, 5, 0, 10));
    assert!(core.tile_hidden(3, 0));
    assert!(!core.tile_hidden(4, 0));
    assert!(core.bomb_affected_positions(3, 5, 0, 10).is_empty());
    match core.advance(TickEvent::FreezeExpired, &Vec::new()) {
        Advance::BlastRechecked(kept) => assert!(kept.is_empty()),
        _ => panic!("an empty blast should re-check"),
    }
    assert_eq!(core.phase, GamePhase::WaitingForInput);
}

#[test]
fn affected_positions_come_column_by_column() {
    let core = quiet_core(GameMode::Zen);
    let positions = core.bomb_affected_positions(0, 0, 1, 1);
    assert_eq!(positions, vec![(0, 0), (0, 1), (1, 0), (1, 1)]);
}
