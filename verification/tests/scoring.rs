use osp_core::player::{Grade, Player, PointAdjustment};
use osp_core::round::{
    AbsenceKind, Board, CupStage, Forfeit, Outcome, PairingSource, Round, Sitout, SitoutKind,
    SitoutValue, Winner,
};
use osp_core::scoring::{compute_scores, PlayerScore, Scores};
use osp_core::settings::{EloEstimator, MacMahonSource, MacMahonThreshold, PairingMode, TournamentSettings};
use osp_core::units::TournamentId;

fn player(tid: u32, rating: Option<u32>) -> Player {
    Player {
        id: uuid::Uuid::new_v4(),
        tournament_id: Some(TournamentId(tid)),
        last_name: format!("P{tid}"),
        first_name: String::new(),
        rating,
        pairing_rating: None,
        grade: None,
        fesa_games: None,
        nationality: None,
        club: None,
        eligible: false,
        categories: Vec::new(),
        adjustments: Vec::new(),
    }
}

fn of<'s>(scores: &'s Scores, p: &Player) -> &'s PlayerScore {
    scores.get_tid(p.tournament_id.unwrap())
}

fn one_board(board: Board) -> Round {
    Round {
        number: 1,
        boards: vec![board],
        sitouts: Vec::new(),
        completed: true,
    }
}

fn one_sitout(player: TournamentId, kind: SitoutKind, value: SitoutValue) -> Round {
    Round {
        number: 1,
        boards: Vec::new(),
        sitouts: vec![Sitout { player, kind, value }],
        completed: true,
    }
}

#[test]
fn float_direction_follows_the_frozen_diff_not_live_points() {
    let a = player(1, None);
    let b = player(2, None);
    let round = one_board(Board {
        outcome: Outcome::won(Winner::Player1),
        ..Board::pending(TournamentId(1), TournamentId(2), 2, PairingSource::Swiss)
    });
    let scores = compute_scores(&[a.clone(), b.clone()], &TournamentSettings::default(), &[round], None);
    assert_eq!(of(&scores, &a).last_descended, Some(1));
    assert_eq!(of(&scores, &a).last_ascended, None);
    assert_eq!(of(&scores, &b).last_ascended, Some(1));
    assert_eq!(of(&scores, &b).last_descended, None);
}

#[test]
fn no_show_scores_like_a_bye_for_the_present_player_and_an_absence_for_the_absentee() {
    let a = player(1, None);
    let b = player(2, None);
    let round = one_board(Board {
        outcome: Outcome::Forfeit {
            absent: Forfeit::Player2(AbsenceKind::NoShow),
        },
        ..Board::pending(TournamentId(1), TournamentId(2), 0, PairingSource::Swiss)
    });
    let scores = compute_scores(&[a.clone(), b.clone()], &TournamentSettings::default(), &[round], None);
    assert_eq!(of(&scores, &a).points().0, 2);
    assert_eq!(of(&scores, &a).victories.0, 2);
    assert!(of(&scores, &a).had_bye);
    assert_eq!(of(&scores, &a).last_descended, Some(1));
    assert!(of(&scores, &a).opponents.is_empty());
    assert_eq!(of(&scores, &b).points().0, 0);
    assert_eq!(of(&scores, &b).victories.0, 0);
    assert!(!of(&scores, &b).had_bye);
    assert!(of(&scores, &b).opponents.is_empty());
}

#[test]
fn double_no_show_scores_nothing_for_either_player() {
    let a = player(1, None);
    let b = player(2, None);
    let round = one_board(Board {
        outcome: Outcome::Forfeit {
            absent: Forfeit::Both(AbsenceKind::NoShow, AbsenceKind::NoShow),
        },
        ..Board::pending(TournamentId(1), TournamentId(2), 0, PairingSource::Swiss)
    });
    let scores = compute_scores(&[a.clone(), b.clone()], &TournamentSettings::default(), &[round], None);
    for p in [&a, &b] {
        assert_eq!(of(&scores, p).points().0, 0);
        assert_eq!(of(&scores, p).victories.0, 0);
        assert!(!of(&scores, p).had_bye);
        assert!(of(&scores, p).opponents.is_empty());
    }
}

#[test]
fn a_cup_bye_scores_like_any_other_bye() {
    let a = player(1, None);
    let round = one_sitout(TournamentId(1), SitoutKind::CupBye { stage: CupStage::Final }, SitoutValue::Full);
    let scores = compute_scores(std::slice::from_ref(&a), &TournamentSettings::default(), &[round], None);
    assert_eq!(of(&scores, &a).points().0, 2);
    assert_eq!(of(&scores, &a).victories.0, 2);
    assert!(of(&scores, &a).had_bye);
}

#[test]
fn a_sitout_scores_exactly_what_its_cell_says() {
    let a = player(1, None);
    let expected = [
        (SitoutValue::Zero, 0, 0),
        (SitoutValue::Half, 1, 1),
        (SitoutValue::Full, 2, 2),
    ];
    for (value, points, victories) in expected {
        let rounds = [one_sitout(TournamentId(1), SitoutKind::Absent, value)];
        let scores = compute_scores(std::slice::from_ref(&a), &TournamentSettings::default(), &rounds, None);
        assert_eq!(of(&scores, &a).points().0, points, "points for {value:?}");
        assert_eq!(of(&scores, &a).victories.0, victories, "victories for {value:?}");
    }
}

#[test]
fn re_scoring_a_bye_leaves_its_pairing_effects_alone() {
    let a = player(1, None);
    let round = one_sitout(TournamentId(1), SitoutKind::Bye, SitoutValue::Zero);
    let scores = compute_scores(std::slice::from_ref(&a), &TournamentSettings::default(), &[round], None);
    assert_eq!(of(&scores, &a).points().0, 0);
    assert_eq!(of(&scores, &a).victories.0, 0);
    assert!(of(&scores, &a).had_bye);
    assert_eq!(of(&scores, &a).last_descended, Some(1));
}

#[test]
fn long_board_scores_two_points_two_victories_and_counts_twice_for_tiebreaks() {
    let a = player(1, None);
    let b = player(2, None);
    let round = one_board(Board {
        outcome: Outcome::won(Winner::Player1),
        long: true,
        ..Board::pending(TournamentId(1), TournamentId(2), 0, PairingSource::Swiss)
    });
    let scores = compute_scores(&[a.clone(), b.clone()], &TournamentSettings::default(), &[round], None);
    assert_eq!(of(&scores, &a).points().0, 4);
    assert_eq!(of(&scores, &a).victories.0, 4);
    let (atid, btid) = (TournamentId(1), TournamentId(2));
    assert_eq!(of(&scores, &a).defeated, vec![btid, btid]);
    assert_eq!(of(&scores, &a).opponents, vec![btid, btid]);
    assert_eq!(of(&scores, &b).opponents, vec![atid, atid]);
    assert_eq!(of(&scores, &b).points().0, 0);
    assert_eq!(of(&scores, &b).victories.0, 0);
}

#[test]
fn pending_long_board_records_the_opponent_but_awards_no_points() {
    let a = player(1, None);
    let b = player(2, None);
    let round = one_board(Board {
        long: true,
        ..Board::pending(TournamentId(1), TournamentId(2), 0, PairingSource::Swiss)
    });
    let scores = compute_scores(&[a.clone(), b.clone()], &TournamentSettings::default(), &[round], None);
    assert_eq!(of(&scores, &a).points().0, 0);
    assert_eq!(of(&scores, &a).victories.0, 0);
    assert_eq!(of(&scores, &a).opponents, vec![TournamentId(2), TournamentId(2)]);
    assert!(of(&scores, &a).defeated.is_empty());
}

#[test]
fn long_board_resolved_by_forfeit_scores_the_long_weight() {
    let a = player(1, None);
    let b = player(2, None);
    let round = one_board(Board {
        outcome: Outcome::Forfeit {
            absent: Forfeit::Player2(AbsenceKind::NoShow),
        },
        long: true,
        ..Board::pending(TournamentId(1), TournamentId(2), 0, PairingSource::Swiss)
    });
    let scores = compute_scores(&[a.clone(), b.clone()], &TournamentSettings::default(), &[round], None);
    assert_eq!(of(&scores, &a).points().0, 4);
    assert_eq!(of(&scores, &a).victories.0, 4);
    assert_eq!(of(&scores, &b).points().0, 0);
}

#[test]
fn manual_adjustments_feed_into_points_and_floor_at_zero() {
    let mut a = player(1, None);
    a.adjustments.push(PointAdjustment {
        id: uuid::Uuid::new_v4(),
        delta: 2,
        reason: "fair-play bonus".into(),
    });
    let mut b = player(2, None);
    b.adjustments.push(PointAdjustment {
        id: uuid::Uuid::new_v4(),
        delta: -5,
        reason: "penalty".into(),
    });
    let scores = compute_scores(&[a.clone(), b.clone()], &TournamentSettings::default(), &[], None);
    assert_eq!(of(&scores, &a).points().0, 4);
    assert_eq!(of(&scores, &b).points().0, 0);
}

#[test]
fn cup_boards_count_points_opponents_and_floats() {
    let a = player(1, None);
    let b = player(2, None);
    let round = one_board(Board {
        outcome: Outcome::won(Winner::Player1),
        ..Board::pending(TournamentId(1), TournamentId(2), 5, PairingSource::Cup { stage: CupStage::Final })
    });
    let scores = compute_scores(&[a.clone(), b.clone()], &TournamentSettings::default(), &[round], None);
    assert_eq!(of(&scores, &a).points().0, 2);
    assert_eq!(of(&scores, &a).opponents, vec![TournamentId(2)]);
    assert_eq!(of(&scores, &b).opponents, vec![TournamentId(1)]);
    assert_eq!(of(&scores, &a).last_descended, Some(1));
    assert_eq!(of(&scores, &b).last_ascended, Some(1));
}

#[test]
fn estimate_based_macmahon_is_inert_without_an_elo_threshold() {
    let mut a = player(1, Some(1400));
    a.grade = Some(Grade::dan(1));
    let mut settings = TournamentSettings::default();
    if let PairingMode::Swiss { macmahon, .. } = &mut settings.pairing {
        macmahon.thresholds = vec![MacMahonThreshold::grade(Grade::dan(1))];
        macmahon.source = MacMahonSource::FromEstimate {
            estimator: EloEstimator::default(),
        };
    }
    let scores = compute_scores(std::slice::from_ref(&a), &settings, &[], None);
    assert_eq!(of(&scores, &a).macmahon.0, 2);
}

#[test]
fn an_estimate_above_the_threshold_earns_the_macmahon_point() {
    // With estimate-based MacMahon the start is read off the estimate handed
    // in, not the registration rating.
    let a = player(1, Some(1400));
    let mut settings = TournamentSettings::default();
    if let PairingMode::Swiss { macmahon, .. } = &mut settings.pairing {
        macmahon.thresholds = vec![MacMahonThreshold::elo(1450)];
    }
    let off = compute_scores(std::slice::from_ref(&a), &settings, &[], None);
    assert_eq!(of(&off, &a).macmahon.0, 0);
    if let PairingMode::Swiss { macmahon, .. } = &mut settings.pairing {
        macmahon.source = MacMahonSource::FromEstimate {
            estimator: EloEstimator::default(),
        };
    }
    let on = compute_scores(std::slice::from_ref(&a), &settings, &[], Some(&[1500]));
    assert_eq!(of(&on, &a).macmahon.0, 2);
}

#[test]
fn points_are_always_the_start_plus_the_wins() {
    let mut a = player(1, Some(2000));
    a.adjustments.push(PointAdjustment {
        id: uuid::Uuid::new_v4(),
        delta: 1,
        reason: "bonus".into(),
    });
    let b = player(2, None);
    let mut settings = TournamentSettings::default();
    if let PairingMode::Swiss { macmahon, .. } = &mut settings.pairing {
        macmahon.thresholds = vec![MacMahonThreshold::elo(1500)];
    }
    let rounds = [one_board(Board {
        outcome: Outcome::won(Winner::Player1),
        ..Board::pending(TournamentId(1), TournamentId(2), 0, PairingSource::Swiss)
    })];
    let scores = compute_scores(&[a.clone(), b.clone()], &settings, &rounds, None);
    for p in [&a, &b] {
        let s = of(&scores, p);
        assert_eq!(s.points().0, s.macmahon.0 + s.victories.0);
    }
    assert_eq!(of(&scores, &a).points().0, 2 + 2 + 2);
    assert_eq!(of(&scores, &a).running_points.last().map(|h| h.0), Some(6));
}
