use osp_core::player::{Player, PointAdjustment};
use osp_core::round::{Board, Outcome, PairingSource, Round, Sitout, SitoutKind, SitoutValue, Winner};
use osp_core::settings::{
    EloEstimator, MacMahonThreshold, PairingMode, ThresholdCriterion, Tiebreak, TournamentSettings,
};
use osp_core::standings::{compute_standings, Standing};
use osp_core::units::TournamentId;
use uuid::Uuid;

fn player(tid: u32, rating: Option<u32>) -> Player {
    Player {
        id: Uuid::new_v4(),
        tournament_id: Some(TournamentId(tid)),
        last_name: format!("P{tid}"),
        first_name: String::new(),
        rating,
        pairing_rating: None,
        grade: None,
        fesa_games: None,
        nationality: None,
        club: None,
        eligible: false,
        categories: Vec::new(),
        adjustments: Vec::new(),
    }
}

fn board(a: u32, b: u32, winner: Winner) -> Board {
    Board {
        outcome: Outcome::won(winner),
        ..Board::pending(TournamentId(a), TournamentId(b), 0, PairingSource::Swiss)
    }
}

fn round(number: u32, boards: Vec<Board>) -> Round {
    Round {
        number,
        boards,
        sitouts: Vec::new(),
        completed: true,
    }
}

fn standings(players: &[Player], settings: &TournamentSettings, rounds: &[Round]) -> Vec<Standing> {
    compute_standings(players, settings, rounds, None, None)
}

fn of(st: &[Standing], id: Uuid) -> &Standing {
    st.iter().find(|s| s.player_id == id).unwrap()
}

fn pos(st: &[Standing], id: Uuid) -> usize {
    st.iter().position(|s| s.player_id == id).unwrap()
}

fn with_thresholds(thresholds: Vec<MacMahonThreshold>) -> TournamentSettings {
    let mut s = TournamentSettings::default();
    if let PairingMode::Swiss { macmahon, .. } = &mut s.pairing {
        macmahon.thresholds = thresholds;
    }
    s
}

#[test]
fn long_board_opponent_counts_twice_in_sos_and_sodos() {
    let (a, b, c, d) = (player(1, None), player(2, None), player(3, None), player(4, None));
    let long_ab = Board {
        long: true,
        ..board(1, 2, Winner::Player1)
    };
    let rounds = vec![
        round(1, vec![long_ab, board(3, 4, Winner::Player1)]),
        round(2, vec![board(2, 3, Winner::Player1)]),
    ];
    let st = standings(&[a.clone(), b.clone(), c, d], &TournamentSettings::default(), &rounds);
    assert_eq!((of(&st, a.id).points.0, of(&st, a.id).victories.0), (4, 4));
    assert_eq!(of(&st, b.id).points.0, 2);
    assert_eq!(of(&st, a.id).tiebreaks.sosm.0, 4);
    assert_eq!(of(&st, a.id).tiebreaks.sodosm.0, 4);
    assert_eq!(of(&st, a.id).tiebreaks.sosw.0, 4);
}

#[test]
fn sos_breaks_a_points_tie() {
    let a = player(1, Some(2000));
    let b = player(2, Some(1900));
    let c = player(3, Some(1800));
    let d = player(4, Some(1700));
    let rounds = vec![
        round(1, vec![board(1, 3, Winner::Player1), board(2, 4, Winner::Player2)]),
        round(2, vec![board(1, 4, Winner::Player1), board(2, 3, Winner::Player1)]),
    ];
    let st = standings(&[a.clone(), b.clone(), c.clone(), d.clone()], &TournamentSettings::default(), &rounds);
    let order: Vec<Uuid> = st.iter().map(|s| s.player_id).collect();
    assert_eq!(order, vec![a.id, d.id, b.id, c.id]);
    assert_eq!((of(&st, a.id).points.0, of(&st, a.id).tiebreaks.sosm.0), (4, 2));
    assert_eq!((of(&st, d.id).points.0, of(&st, d.id).tiebreaks.sosm.0), (2, 6));
    assert_eq!((of(&st, b.id).points.0, of(&st, b.id).tiebreaks.sosm.0), (2, 2));
    assert_eq!(of(&st, c.id).points.0, 0);
}

#[test]
fn macmahon_points_feed_into_scores_and_sos() {
    let a = player(1, Some(2000));
    let b = player(2, Some(1600));
    let rounds = vec![round(1, vec![board(1, 2, Winner::Player1)])];
    let st = standings(&[a.clone(), b.clone()], &with_thresholds(vec![MacMahonThreshold::elo(1500)]), &rounds);
    assert_eq!((of(&st, a.id).macmahon.0, of(&st, a.id).victories.0, of(&st, a.id).points.0), (2, 2, 4));
    assert_eq!((of(&st, b.id).macmahon.0, of(&st, b.id).victories.0, of(&st, b.id).points.0), (2, 0, 2));
    assert_eq!(of(&st, a.id).tiebreaks.sosm.0, 2);
    assert_eq!(of(&st, a.id).tiebreaks.sodosm.0, 2);
    assert_eq!(st[0].player_id, a.id);
}

#[test]
fn degressive_macmahon_drops_the_head_start_after_the_scheduled_round() {
    let a = player(1, Some(2000));
    let b = player(2, Some(1000));
    let rounds = vec![round(1, vec![board(1, 2, Winner::Player1)])];
    let settings = with_thresholds(vec![MacMahonThreshold {
        criterion: ThresholdCriterion::Elo { value: 1500 },
        drops_after_round: Some(1),
    }]);
    let st = standings(&[a.clone(), b.clone()], &settings, &rounds);
    assert_eq!((of(&st, a.id).macmahon.0, of(&st, a.id).victories.0, of(&st, a.id).points.0), (0, 2, 2));
    assert_eq!((of(&st, b.id).macmahon.0, of(&st, b.id).victories.0, of(&st, b.id).points.0), (0, 0, 0));
}

#[test]
fn wins_only_tiebreaks_ignore_macmahon_start() {
    let a = player(1, Some(2000));
    let b = player(2, Some(1800));
    let c = player(3, Some(1700));
    let rounds = vec![
        round(1, vec![board(1, 2, Winner::Player1)]),
        round(2, vec![board(1, 3, Winner::Player1)]),
    ];
    let st = standings(&[a.clone(), b, c], &with_thresholds(vec![MacMahonThreshold::elo(1500)]), &rounds);
    assert_eq!((of(&st, a.id).tiebreaks.sosm.0, of(&st, a.id).tiebreaks.sosw.0), (4, 0));
    assert_eq!((of(&st, a.id).tiebreaks.sodosm.0, of(&st, a.id).tiebreaks.sodosw.0), (4, 0));
}

#[test]
fn a_half_point_sitout_is_half_a_win_here_and_in_every_sum_built_on_wins() {
    let a = player(1, Some(1600));
    let b = player(2, Some(1600));
    let half_bye = |tid| Sitout {
        player: TournamentId(tid),
        kind: SitoutKind::Bye,
        value: SitoutValue::Half,
    };
    let rounds = vec![
        round(1, vec![board(1, 2, Winner::Player2)]),
        Round {
            number: 2,
            boards: Vec::new(),
            sitouts: vec![half_bye(1), half_bye(2)],
            completed: true,
        },
    ];
    let st = standings(&[a.clone(), b.clone()], &TournamentSettings::default(), &rounds);
    assert_eq!(of(&st, a.id).points.0, 1);
    assert_eq!(of(&st, a.id).victories.0, 1);
    assert_eq!(of(&st, b.id).points.0, 3);
    assert_eq!(of(&st, b.id).victories.0, 3);
    assert_eq!(of(&st, a.id).tiebreaks.sosw.0, 3);
    assert_eq!(of(&st, b.id).tiebreaks.sosw.0, 1);
    assert_eq!(of(&st, b.id).tiebreaks.sodosw.0, 1);
    assert_eq!(of(&st, a.id).tiebreaks.sodosw.0, 0);
}

#[test]
fn points_are_the_starting_score_plus_the_wins_even_with_an_adjustment() {
    let mut a = player(1, Some(1600));
    a.adjustments.push(PointAdjustment {
        id: Uuid::new_v4(),
        delta: 1,
        reason: "fair play".into(),
    });
    let b = player(2, Some(1600));
    let rounds = vec![round(1, vec![board(1, 2, Winner::Player1)])];
    let st = standings(&[a.clone(), b.clone()], &TournamentSettings::default(), &rounds);
    assert_eq!(of(&st, a.id).macmahon.0, 2);
    assert_eq!(of(&st, a.id).victories.0, 2);
    assert_eq!(of(&st, a.id).points.0, 4);
    for s in &st {
        assert_eq!(s.points.0, s.macmahon.0 + s.victories.0, "points must be MacMahon + wins for {:?}", s.player_id);
    }
}

#[test]
fn buchholz_cut_drops_the_lowest_opponents() {
    let ps: Vec<Player> = (1..=4).map(|i| player(i, None)).collect();
    let rounds = vec![
        round(1, vec![board(1, 2, Winner::Player1), board(3, 4, Winner::Player1)]),
        round(2, vec![board(1, 3, Winner::Player1), board(2, 4, Winner::Player1)]),
        round(3, vec![board(1, 4, Winner::Player1), board(2, 3, Winner::Player1)]),
    ];
    let st = standings(&ps, &TournamentSettings::default(), &rounds);
    let a = of(&st, ps[0].id);
    assert_eq!(a.tiebreaks.sosw.0, 6);
    assert_eq!(a.tiebreaks.sosw1.0, 6);
    assert_eq!(a.tiebreaks.sosw2.0, 4);
}

#[test]
fn cumulative_sums_running_totals_over_rounds() {
    let ps: Vec<Player> = (1..=4).map(|i| player(i, None)).collect();
    let rounds = vec![
        round(1, vec![board(1, 2, Winner::Player1), board(3, 4, Winner::Player1)]),
        round(2, vec![board(1, 3, Winner::Player2), board(2, 4, Winner::Player1)]),
        round(3, vec![board(1, 4, Winner::Player1), board(2, 3, Winner::Player2)]),
    ];
    let st = standings(&ps, &TournamentSettings::default(), &rounds);
    assert_eq!(of(&st, ps[0].id).tiebreaks.cussw.0, 8);
    assert_eq!(of(&st, ps[1].id).tiebreaks.cussw.0, 4);
    assert_eq!(of(&st, ps[0].id).tiebreaks.cussm.0, 8);
}

#[test]
fn est_elo_tiebreak_is_ignored_without_elo_mode() {
    // No games, so each estimate sits at its registration rating.
    let a = player(1, Some(1400));
    let b = player(2, Some(1800));
    let players = vec![a.clone(), b.clone()];
    let off = standings(
        &players,
        &TournamentSettings {
            tiebreaks: vec![Tiebreak::EstElo],
            ..Default::default()
        },
        &[],
    );
    assert!(pos(&off, a.id) < pos(&off, b.id));
    let on = compute_standings(
        &players,
        &TournamentSettings {
            tiebreaks: vec![Tiebreak::EstElo],
            pairing: PairingMode::Elo {
                estimator: EloEstimator::default(),
            },
            ..Default::default()
        },
        &[],
        None,
        Some(&[1400, 1800]),
    );
    assert!(pos(&on, b.id) < pos(&on, a.id));
    assert_eq!(of(&on, b.id).estimated_elo, Some(1800));
}

#[test]
fn configured_tiebreak_order_decides_the_ranking() {
    let ratings = [2000, 2000, 1000, 1000, 1000, 1000];
    let ps: Vec<Player> = ratings.iter().enumerate().map(|(i, &r)| player(i as u32 + 1, Some(r))).collect();
    let (e, f) = (5, 6);
    let rounds = vec![
        round(1, vec![board(e, 1, Winner::Player1), board(f, 3, Winner::Player2), board(2, 4, Winner::Player2)]),
        round(2, vec![board(e, 2, Winner::Player2), board(f, 4, Winner::Player1), board(1, 3, Winner::Player2)]),
    ];
    let base = with_thresholds(vec![MacMahonThreshold::elo(1500)]);
    let by_m = standings(
        &ps,
        &TournamentSettings {
            tiebreaks: vec![Tiebreak::SosM],
            ..base.clone()
        },
        &rounds,
    );
    assert!(pos(&by_m, ps[4].id) < pos(&by_m, ps[5].id));
    let by_w = standings(
        &ps,
        &TournamentSettings {
            tiebreaks: vec![Tiebreak::SosW],
            ..base
        },
        &rounds,
    );
    assert!(pos(&by_w, ps[5].id) < pos(&by_w, ps[4].id));
}

#[test]
fn direct_confrontation_breaks_a_tie_within_a_complete_subgraph() {
    let a = player(3, None);
    let b = player(2, None);
    let c = player(1, None);
    let d = player(4, None);
    let e = player(5, None);
    let rounds = vec![
        round(1, vec![board(3, 2, Winner::Player1), board(1, 4, Winner::Player1)]),
        round(2, vec![board(3, 1, Winner::Player1), board(2, 4, Winner::Player1)]),
        round(3, vec![board(2, 1, Winner::Player1)]),
        round(4, vec![board(1, 5, Winner::Player1)]),
    ];
    let settings = TournamentSettings {
        tiebreaks: vec![Tiebreak::Points, Tiebreak::Dc],
        ..Default::default()
    };
    let st = standings(&[a.clone(), b.clone(), c.clone(), d, e], &settings, &rounds);
    assert_eq!((of(&st, a.id).points.0, of(&st, b.id).points.0, of(&st, c.id).points.0), (4, 4, 4));
    assert_eq!(
        (of(&st, a.id).tiebreaks.dc.0, of(&st, b.id).tiebreaks.dc.0, of(&st, c.id).tiebreaks.dc.0),
        (4, 2, 0)
    );
    assert!(pos(&st, a.id) < pos(&st, b.id));
    assert!(pos(&st, b.id) < pos(&st, c.id));
}

#[test]
fn direct_confrontation_does_nothing_without_a_complete_subgraph() {
    let ps: Vec<Player> = (1..=4).map(|i| player(i, None)).collect();
    let rounds = vec![
        round(1, vec![board(1, 3, Winner::Player1), board(2, 4, Winner::Player1)]),
        round(2, vec![board(1, 4, Winner::Player2), board(2, 3, Winner::Player2)]),
    ];
    let settings = TournamentSettings {
        tiebreaks: vec![Tiebreak::Points, Tiebreak::Dc],
        ..Default::default()
    };
    let st = standings(&ps, &settings, &rounds);
    for p in &ps {
        assert_eq!(of(&st, p.id).points.0, 2);
        assert_eq!(of(&st, p.id).tiebreaks.dc.0, 0);
    }
    let order: Vec<Uuid> = st.iter().map(|s| s.player_id).collect();
    assert_eq!(order, ps.iter().map(|p| p.id).collect::<Vec<_>>());
}

#[test]
fn the_ranking_is_ordered_by_the_configured_criteria() {
    // Law on concrete values: every neighbouring pair in the table is in
    // order of (points, then the configured tie-breaks).
    let ps: Vec<Player> = (1..=6).map(|i| player(i, Some(2100 - i * 100))).collect();
    let rounds = vec![
        round(1, vec![board(1, 4, Winner::Player2), board(2, 5, Winner::Player1), board(3, 6, Winner::Player1)]),
        round(2, vec![board(4, 2, Winner::Player1), board(1, 3, Winner::Player1), board(5, 6, Winner::Player2)]),
    ];
    let settings = TournamentSettings::default();
    let st = standings(&ps, &settings, &rounds);
    for w in st.windows(2) {
        let key = |s: &Standing| settings.tiebreaks.iter().map(|&tb| s.tiebreak(tb)).collect::<Vec<_>>();
        assert!(key(&w[0]) >= key(&w[1]));
    }
}
