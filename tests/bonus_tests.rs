use zapzap::bonus::{calculate_bonus_drops, pick_bonus_cells, FallingBonusKind};
use zapzap::components::{BonusType, PowerUpInventory, PowerUpType};
use zapzap::effects::SegmentColor;
use zapzap::rng::Rng;

#[test]
fn bonus_drop_calculation_base() {
    let (m1, m2, m5) = calculate_bonus_drops(0, 0);
    assert_eq!((m1, m2, m5), (2, 0, 0));
}

#[test]
fn bonus_drop_calculation_medium() {
    let (m1, m2, m5) = calculate_bonus_drops(5, 0);
    assert_eq!(m1, 3);
    assert_eq!(m2, 2);
    assert_eq!(m5, 0);
}

#[test]
fn bonus_drop_calculation_high() {
    let (m1, m2, m5) = calculate_bonus_drops(8, 9);
    assert_eq!(m1, 4);
    assert_eq!(m2, 6);
    assert_eq!(m5, 5);
}

#[test]
fn bonus_drop_thresholds() {
    assert_eq!(calculate_bonus_drops(3, 3), (2, 0, 0));
    assert_eq!(calculate_bonus_drops(4, 6), (4, 4, 0));
    assert_eq!(calculate_bonus_drops(7, 0), (3, 3, 1));
}

#[test]
fn coin_and_power_points() {
    assert_eq!(BonusType::Coin1.points(), 1);
    assert_eq!(BonusType::Coin2.points(), 2);
    assert_eq!(BonusType::Coin5.points(), 5);
    assert_eq!(FallingBonusKind::PowerUp(PowerUpType::Bomb).points(), 0);
    assert_eq!(PowerUpType::Bomb.drop_freq(), 5);
    assert_eq!(PowerUpType::Cross.drop_freq(), 3);
    assert_eq!(PowerUpType::Arrow.drop_freq(), 8);
}

#[test]
fn picked_cells_follow_the_counts() {
    let mut rng = Rng::new(123);
    let drops = pick_bonus_cells(&mut rng, 12, 10, 2, 1, 1);
    assert!(drops.len() >= 4 && drops.len() <= 7);
    assert_eq!(drops[0].kind, FallingBonusKind::Coin(BonusType::Coin1));
    assert_eq!(drops[1].kind, FallingBonusKind::Coin(BonusType::Coin1));
    assert_eq!(drops[2].kind, FallingBonusKind::Coin(BonusType::Coin2));
    assert_eq!(drops[3].kind, FallingBonusKind::Coin(BonusType::Coin5));
    for d in &drops {
        assert!(d.tile_x < 12 && d.tile_y < 10);
    }
    for (i, a) in drops.iter().enumerate() {
        for b in drops.iter().skip(i + 1) {
            assert!(a.tile_x != b.tile_x || a.tile_y != b.tile_y);
        }
    }
}

#[test]
fn toggle_arm_requires_a_held_power() {
    let mut inv = PowerUpInventory::empty();
    assert!(!inv.toggle_arm(PowerUpType::Bomb));
    assert_eq!(inv.armed, None);
    inv.grant(PowerUpType::Bomb);
    assert!(inv.toggle_arm(PowerUpType::Bomb));
    assert_eq!(inv.armed, Some(PowerUpType::Bomb));
    assert!(!inv.toggle_arm(PowerUpType::Bomb));
    assert_eq!(inv.armed, None);
}

#[test]
fn consume_armed_spends_the_power() {
    let mut inv = PowerUpInventory::empty();
    inv.grant(PowerUpType::Arrow);
    inv.grant(PowerUpType::Cross);
    assert!(inv.toggle_arm(PowerUpType::Arrow));
    assert_eq!(inv.consume_armed(), Some(PowerUpType::Arrow));
    assert!(!inv.has_arrow);
    assert!(inv.has_cross);
    assert_eq!(inv.armed, None);
    assert_eq!(inv.consume_armed(), None);
}

#[test]
fn random_colors_replay_from_a_seed() {
    let mut a = Rng::new(9);
    let mut b = Rng::new(9);
    for _ in 0..20 {
        let ca = SegmentColor::random(&mut a);
        assert_eq!(ca, SegmentColor::random(&mut b));
        assert!(ca.index() < 13);
    }
    assert_eq!(SegmentColor::from_index(7), SegmentColor::SkyBlue);
    assert_eq!(SegmentColor::Indigo.index(), 9);
}
