//! Hexes, maps, rankings, roles and formations on concrete values.
use tactical::formation::{
    adjacent_river, choose_echelon, defiladed, elevation_at, ground_terms, on_crest, profile_for,
    river_between, Echelon, Shape,
};
use tactical::grid::{Cell, HexGrid};
use tactical::hex::{HexCoord, HexDirection};
use tactical::pick::{find_least, rank, ranks_before, Key};
use tactical::role::{assign_role, pick_rearguard, select_objective, StrategicObjective, UnitRole};
use tactical::tactic::CombatTactic;
use tactical::unit::{offboard, BattalionUnit, Condition, Side, UnitKind, UnitState};

fn hex(q: i32, r: i32) -> HexCoord {
    HexCoord::new(q, r)
}

fn plain() -> Cell {
    Cell { passable: true, out_of_bounds: false, river: false, urban: false, elevation: 0, cover: 0 }
}

fn key(a: i128, b: i128) -> Key {
    Key { a, b, c: 0, d: 0 }
}

fn battalion(id: usize, h: HexCoord) -> BattalionUnit {
    BattalionUnit {
        id,
        division: 0,
        side: Side::Defender,
        position: h,
        state: UnitState::Active,
        fit: true,
        present: true,
        kind: UnitKind {
            hq: false,
            armor: false,
            recon: false,
            support_company: false,
            motorized: false,
            indirect_artillery: false,
            direct_gun: false,
            rocket: false,
            anti_tank: false,
            anti_air: false,
            gun: false,
            towed: false,
        },
        attack_range: 1,
        min_attack_range: 1,
        org: 60.0f32.to_bits(),
        org_ratio: 1.0f32.to_bits(),
        strength: 25.0f32.to_bits(),
        org_cents: 6000,
        strength_cents: 2500,
        acted: false,
        shocked: false,
        is_holding: false,
        is_emplaced: false,
        manual_override: false,
        undeployed: false,
        can_assault: true,
        can_attack_order: true,
        fire_support: false,
        fire_cooldown: 0,
        oob_turns: 0,
        move_to: None,
    }
}

fn with_ratio(mut u: BattalionUnit, ratio: f32) -> BattalionUnit {
    u.org_ratio = ratio.to_bits();
    u
}

// Hexes.

#[test]
fn distances_are_counted_in_steps() {
    assert_eq!(hex(0, 0).distance(hex(0, 0)), 0);
    assert_eq!(hex(0, 0).distance(hex(3, 0)), 3);
    assert_eq!(hex(0, 0).distance(hex(3, -3)), 3);
    assert_eq!(hex(0, 0).distance(hex(3, 3)), 6);
    assert_eq!(hex(1, 1).distance(hex(5, 5)), hex(5, 5).distance(hex(1, 1)));
    assert!(hex(0, 0).distance(hex(9, 9)) <= hex(0, 0).distance(hex(4, 7)) + hex(4, 7).distance(hex(9, 9)));
    assert_eq!(hex(i32::MIN, i32::MIN).distance(hex(i32::MAX, i32::MAX)), 0x1_ffff_fffe);
}

#[test]
fn every_direction_is_one_step() {
    let all = [
        (HexDirection::E, hex(6, 5)),
        (HexDirection::NE, hex(6, 4)),
        (HexDirection::NW, hex(5, 4)),
        (HexDirection::W, hex(4, 5)),
        (HexDirection::SW, hex(4, 6)),
        (HexDirection::SE, hex(5, 6)),
    ];
    for (d, n) in all {
        assert_eq!(hex(5, 5).step(d), Some(n));
        assert_eq!(hex(5, 5).distance(n), 1);
    }
    assert_eq!(hex(i32::MAX, 0).step(HexDirection::E), None);
    assert_eq!(hex(0, i32::MIN).step(HexDirection::NW), None);
}

#[test]
fn a_disc_holds_all_hexes_within_its_radius() {
    assert_eq!(hex(4, 4).hexes_in_range(0), vec![hex(4, 4)]);
    for n in 1..5u8 {
        let disc = hex(4, 4).hexes_in_range(n);
        let m = n as usize;
        assert_eq!(disc.len(), 1 + 3 * m * (m + 1));
        assert!(disc.iter().all(|h| h.distance(hex(4, 4)) <= n as i64));
    }
    assert_eq!(hex(i32::MAX, i32::MAX).hexes_in_range(1).len(), 3);
}

// Maps.

#[test]
fn a_map_ends_at_its_edges() {
    let g = HexGrid::new(3, 2, plain());
    assert_eq!((g.width(), g.height()), (3, 2));
    assert_eq!(g.cell(hex(2, 1)), Some(plain()));
    assert_eq!(g.cell(hex(3, 1)), None);
    assert_eq!(g.cell(hex(2, 2)), None);
    assert_eq!(g.cell(hex(-1, 0)), None);
    assert_eq!(g.passable_neighbors(hex(0, 0)), vec![hex(1, 0), hex(0, 1)]);
    assert_eq!(HexGrid::new(0, 0, plain()).cell(hex(0, 0)), None);
    let long = HexGrid::new(100_000, 2, plain());
    assert_eq!(long.cell(hex(99_999, 1)), Some(plain()));
    assert_eq!(long.cell(hex(100_000, 1)), None);
}

#[test]
fn exits_are_the_passable_neighbours() {
    let water = Cell { passable: false, ..plain() };
    let g = HexGrid::new(5, 5, plain()).with_cell(hex(3, 2), water).with_cell(hex(2, 3), water);
    assert_eq!(g.passable_neighbors(hex(2, 2)), vec![hex(3, 1), hex(2, 1), hex(1, 2), hex(1, 3)]);
    assert_eq!(g.neighbors(hex(2, 2)).len(), 6);
    assert!(!g.is_open(hex(3, 2)) && g.is_open(hex(2, 2)) && !g.is_open(hex(9, 9)));
}

#[test]
fn neighbours_are_listed_in_the_order_of_the_map() {
    let mut g = HexGrid::new(5, 5, plain());
    let turned = vec![
        HexDirection::SE,
        HexDirection::SW,
        HexDirection::W,
        HexDirection::NW,
        HexDirection::NE,
        HexDirection::E,
    ];
    assert!(g.set_order(turned));
    assert_eq!(g.neighbors(hex(2, 2))[0], hex(2, 3));
    assert_eq!(g.neighbors(hex(2, 2))[5], hex(3, 2));
    let short = vec![HexDirection::E, HexDirection::E];
    assert!(!g.set_order(short));
    assert_eq!(g.neighbors(hex(2, 2))[0], hex(2, 3));
    g.set_attack_dirs(vec![HexDirection::W]);
    assert_eq!(g.attack_dirs(), &vec![HexDirection::W]);
}

#[test]
fn ground_is_told_apart() {
    let g = HexGrid::new(4, 4, plain())
        .with_cell(hex(1, 1), Cell { river: true, elevation: -1, ..plain() })
        .with_cell(hex(2, 1), Cell { urban: true, ..plain() })
        .with_cell(hex(3, 1), Cell { out_of_bounds: true, ..plain() });
    assert!(g.is_river(hex(1, 1)) && !g.is_river(hex(2, 1)));
    assert!(g.is_urban(hex(2, 1)) && !g.is_urban(hex(1, 1)));
    assert!(g.is_out_of_bounds(hex(3, 1)) && !g.is_out_of_bounds(hex(9, 9)));
    assert_eq!(elevation_at(&g, hex(1, 1)), -1);
    assert_eq!(elevation_at(&g, hex(9, 9)), 0);
}

// Rankings.

#[test]
fn keys_rank_field_by_field() {
    assert!(ranks_before(key(1, 9), key(2, 0)));
    assert!(ranks_before(key(1, 2), key(1, 3)));
    assert!(!ranks_before(key(1, 2), key(1, 2)));
    assert!(ranks_before(Key { d: -1, ..key(0, 0) }, key(0, 0)));
}

#[test]
fn the_least_key_is_found_first() {
    assert_eq!(find_least(&vec![]), None);
    assert_eq!(find_least(&vec![None, None]), None);
    assert_eq!(find_least(&vec![None, Some(key(3, 0)), Some(key(2, 0)), Some(key(2, 0))]), Some(2));
}

#[test]
fn a_ranking_is_stable() {
    assert_eq!(rank(&vec![]), Vec::<usize>::new());
    assert_eq!(rank(&vec![key(3, 0), key(1, 0), key(3, 0), key(2, 0)]), vec![1, 3, 0, 2]);
}

// Roles.

#[test]
fn only_pushes_are_called_off() {
    let pushes = [
        (CombatTactic::Blitz, StrategicObjective::DeepPenetration),
        (CombatTactic::InfiltrationAssault, StrategicObjective::ExploitGaps),
        (CombatTactic::MassCharge, StrategicObjective::PushCenter),
        (CombatTactic::Encirclement, StrategicObjective::Pincer),
        (CombatTactic::Assault, StrategicObjective::PushCenter),
        (CombatTactic::RiverAssault, StrategicObjective::PushCenter),
    ];
    for (card, aim) in pushes {
        assert_eq!(select_objective(card, false), aim);
        assert_eq!(select_objective(card, true), StrategicObjective::Hold);
    }
    let others = [
        (CombatTactic::ElasticDefense, StrategicObjective::Delay),
        (CombatTactic::OverwhelmingFire, StrategicObjective::Attrition),
        (CombatTactic::GuerrillaTactics, StrategicObjective::HitAndRun),
        (CombatTactic::TacticalWithdrawal, StrategicObjective::Delay),
        (CombatTactic::Default, StrategicObjective::Hold),
        (CombatTactic::Counterattack, StrategicObjective::Delay),
        (CombatTactic::Ambush, StrategicObjective::Hold),
        (CombatTactic::RiverDefense, StrategicObjective::Delay),
        (CombatTactic::UrbanDefense, StrategicObjective::Hold),
        (CombatTactic::Delay, StrategicObjective::Delay),
    ];
    for (card, aim) in others {
        assert_eq!(select_objective(card, false), aim);
        assert_eq!(select_objective(card, true), aim);
    }
}

#[test]
fn roles_follow_condition() {
    let mut hq = battalion(1, hex(0, 0));
    hq.kind.hq = true;
    assert_eq!(assign_role(CombatTactic::Blitz, &with_ratio(hq, 0.1), None), UnitRole::Headquarters);
    let worn = with_ratio(battalion(2, hex(0, 0)), 0.29);
    assert_eq!(assign_role(CombatTactic::Blitz, &worn, None), UnitRole::Reserve);
    let fair = with_ratio(battalion(3, hex(0, 0)), 0.30);
    assert_eq!(assign_role(CombatTactic::Assault, &fair, None), UnitRole::Assault);
    assert_eq!(assign_role(CombatTactic::TacticalWithdrawal, &fair, Some(3)), UnitRole::Rearguard);
    let mut company = battalion(4, hex(0, 0));
    company.kind.support_company = true;
    assert_eq!(assign_role(CombatTactic::Default, &company, None), UnitRole::Attached);
}

#[test]
fn the_rearguard_is_the_fit_battalion_nearest_to_the_enemy() {
    let mut gun = battalion(1, hex(4, 4));
    gun.attack_range = 9;
    let own = vec![
        gun,
        with_ratio(battalion(2, hex(4, 5)), 0.2),
        battalion(4, hex(6, 4)),
        battalion(3, hex(4, 6)),
    ];
    let enemy = vec![battalion(9, hex(4, 4))];
    assert_eq!(pick_rearguard(&own, &enemy), Some(3));
    assert_eq!(pick_rearguard(&vec![gun], &enemy), None);
}

// Battalions.

#[test]
fn only_an_active_battalion_fights_and_a_remnant_is_a_target() {
    let u = battalion(1, hex(0, 0));
    assert!(u.is_combat_effective() && u.is_on_board() && u.is_targetable());
    let remnant = u.with_state(UnitState::Withdrawn);
    assert!(!remnant.is_combat_effective() && remnant.is_targetable());
    for gone in [UnitState::Surrendered, UnitState::Eliminated, UnitState::LeftBattle] {
        assert!(!u.with_state(gone).is_on_board() && !u.with_state(gone).is_targetable());
    }
    assert_eq!(u.with_position(offboard()).position, hex(i32::MIN, i32::MIN));
    let spent = BattalionUnit { is_holding: true, move_to: Some(hex(1, 1)), ..u }.spent();
    assert!(spent.acted && !spent.is_holding && spent.move_to.is_none());
}

#[test]
fn a_condition_changes_nothing_else() {
    let u = battalion(7, hex(2, 3));
    let c = Condition {
        org: 1,
        org_ratio: 2,
        strength: 3,
        org_cents: 4,
        strength_cents: 5,
        fit: false,
        present: false,
    };
    let v = u.with_condition(c);
    assert_eq!((v.org, v.org_ratio, v.strength), (1, 2, 3));
    assert_eq!((v.org_cents, v.strength_cents), (4, 5));
    assert!(!v.fit && !v.present);
    assert_eq!((v.id, v.position, v.state), (u.id, u.position, u.state));
}

// Formations.

#[test]
fn formations_follow_the_cards() {
    let blitz = profile_for(false, CombatTactic::Blitz);
    assert_eq!(blitz.shape, Shape::CenterFocus(70));
    assert_eq!((blitz.band, blitz.loose, blitz.armor_reserve), (7, false, false));
    assert_eq!(blitz.echelons, vec![Echelon { offset: 0, share: 60 }, Echelon { offset: 2, share: 40 }]);
    let gaps = profile_for(false, CombatTactic::InfiltrationAssault);
    assert_eq!((gaps.band, gaps.loose), (9, true));
    let pincer = profile_for(false, CombatTactic::Encirclement);
    assert_eq!(pincer.shape, Shape::TwoWings(30));
    let shoulders = profile_for(true, CombatTactic::Encirclement);
    assert_eq!(shoulders.shape, Shape::TwoWings(35));
    let back = profile_for(true, CombatTactic::TacticalWithdrawal);
    assert_eq!(back.echelons.iter().map(|e| e.offset).collect::<Vec<_>>(), vec![0, 3, 6]);
    assert_eq!(back.echelons.iter().map(|e| e.share).collect::<Vec<_>>(), vec![35, 35, 30]);
    assert!(profile_for(true, CombatTactic::Counterattack).armor_reserve);
    let lurk = profile_for(true, CombatTactic::Ambush);
    assert_eq!((lurk.band, lurk.loose), (8, true));
    assert_eq!(profile_for(true, CombatTactic::Blitz), profile_for(true, CombatTactic::Default));
}

#[test]
fn shares_make_up_the_whole_division() {
    for defending in [false, true] {
        for card in [
            CombatTactic::Blitz,
            CombatTactic::MassCharge,
            CombatTactic::Delay,
            CombatTactic::OverwhelmingFire,
            CombatTactic::ElasticDefense,
            CombatTactic::TacticalWithdrawal,
        ] {
            let p = profile_for(defending, card);
            assert_eq!(p.echelons.iter().map(|e| e.share).sum::<i64>(), 100);
        }
    }
}

#[test]
fn battalions_fill_the_echelons_in_order() {
    let p = profile_for(true, CombatTactic::TacticalWithdrawal);
    let chosen: Vec<usize> = (0..10).map(|i| choose_echelon(&p.echelons, i, 10)).collect();
    assert_eq!(chosen, vec![0, 0, 0, 0, 1, 1, 1, 2, 2, 2]);
    assert_eq!(choose_echelon(&p.echelons, 0, 1), 1);
    let q = profile_for(true, CombatTactic::Default);
    assert_eq!(choose_echelon(&q.echelons, 0, 1), 0);
}

#[test]
fn ground_counts_by_side_and_card() {
    let g = HexGrid::new(8, 3, plain())
        .with_cell(hex(3, 1), Cell { river: true, elevation: -1, ..plain() })
        .with_cell(hex(5, 1), Cell { urban: true, ..plain() })
        .with_cell(hex(6, 1), Cell { elevation: 2, ..plain() });
    let line = vec![hex(4, 1), hex(3, 1), hex(2, 1)];
    let held = ground_terms(&g, true, CombatTactic::RiverDefense, hex(5, 1), &line, Some(hex(4, 1)));
    assert!(held.city && held.shield && held.double_shield && !held.bank && !held.lurk);
    assert!(!held.defilade);
    let bank = ground_terms(&g, true, CombatTactic::RiverDefense, hex(4, 1), &vec![], None);
    assert!(bank.bank && !bank.shield && !bank.city);
    let plainly = ground_terms(&g, false, CombatTactic::Ambush, hex(5, 1), &line, Some(hex(6, 1)));
    assert!(!plainly.lurk && !plainly.city && plainly.shield && plainly.defilade);
    assert!(ground_terms(&g, true, CombatTactic::Ambush, hex(5, 1), &line, None).lurk);
    assert!(river_between(&g, &line) && !river_between(&g, &vec![hex(4, 1)]));
    assert!(adjacent_river(&g, hex(4, 1)) && !adjacent_river(&g, hex(6, 1)));
    assert!(defiladed(&g, hex(5, 1), Some(hex(6, 1))) && !defiladed(&g, hex(6, 1), Some(hex(5, 1))));
}

#[test]
fn a_crest_looks_down_on_the_approach() {
    let g = HexGrid::new(9, 1, plain())
        .with_cell(hex(5, 0), Cell { elevation: 2, ..plain() })
        .with_cell(hex(3, 0), Cell { elevation: 2, ..plain() });
    let far = vec![hex(4, 0)];
    assert!(on_crest(&g, hex(5, 0), &far));
    assert!(!on_crest(&g, hex(5, 0), &vec![hex(4, 0), hex(3, 0)]));
    assert!(!on_crest(&g, hex(6, 0), &far));
    assert!(!on_crest(&g, hex(5, 0), &vec![]));
    let behind = vec![hex(4, 0), hex(4, 0), hex(4, 0), hex(4, 0), hex(3, 0)];
    assert!(on_crest(&g, hex(5, 0), &behind));
}
