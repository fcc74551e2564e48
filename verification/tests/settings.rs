use osp_core::player::Grade;
use osp_core::settings::{
    ClubProtection, DateError, EloEstimator, HandicapDisplay, HandicapPolicy, IsoDate,
    MacMahonSource, MacMahonThreshold, NationalityProtection, PairingMode, Ratio, RoundLimit,
    TeamModeConflict, TeamSettings, ThresholdCriterion, Tiebreak, TournamentDates,
    TournamentSettings,
};

fn mmt(value: u32) -> MacMahonThreshold {
    MacMahonThreshold::elo(value)
}

fn mmt_drops(value: u32, round: u32) -> MacMahonThreshold {
    MacMahonThreshold {
        criterion: ThresholdCriterion::Elo { value },
        drops_after_round: Some(round),
    }
}

fn elo(value: u32) -> ThresholdCriterion {
    ThresholdCriterion::Elo { value }
}

/// Swiss settings with the given static MacMahon thresholds.
fn with_thresholds(mut s: TournamentSettings, thresholds: Vec<MacMahonThreshold>) -> TournamentSettings {
    if let PairingMode::Swiss { macmahon, .. } = &mut s.pairing {
        macmahon.thresholds = thresholds;
    }
    s
}

fn with_estimate(mut s: TournamentSettings) -> TournamentSettings {
    if let PairingMode::Swiss { macmahon, .. } = &mut s.pairing {
        macmahon.source = MacMahonSource::FromEstimate {
            estimator: EloEstimator::default(),
        };
    }
    s
}

fn with_club(mut s: TournamentSettings, protection: ClubProtection) -> TournamentSettings {
    if let PairingMode::Swiss { club_protection, .. } = &mut s.pairing {
        *club_protection = protection;
    }
    s
}

fn with_nationality(mut s: TournamentSettings, protection: NationalityProtection) -> TournamentSettings {
    if let PairingMode::Swiss { nationality_protection, .. } = &mut s.pairing {
        *nationality_protection = protection;
    }
    s
}

fn with_airtight(mut s: TournamentSettings, rounds: Option<RoundLimit>) -> TournamentSettings {
    if let PairingMode::Swiss { airtight_groups, .. } = &mut s.pairing {
        *airtight_groups = rounds;
    }
    s
}

fn elo_pairing() -> TournamentSettings {
    TournamentSettings {
        pairing: PairingMode::Elo {
            estimator: EloEstimator::default(),
        },
        ..Default::default()
    }
}

fn team_settings() -> TournamentSettings {
    TournamentSettings {
        teams: Some(TeamSettings::default()),
        ..TournamentSettings::default()
    }
}

#[test]
fn iso_date_accepts_real_calendar_dates_only() {
    assert_eq!(IsoDate::parse("2026-07-04").unwrap().as_str(), "2026-07-04");
    assert_eq!(IsoDate::parse("2024-02-29").unwrap().as_str(), "2024-02-29"); // leap year
    for bad in [
        "",
        "2026-7-4",      // not zero-padded
        "04/07/2026",    // not ISO
        "2026-07-04 ",   // stray space
        "2026-13-01",    // month out of range
        "2026-00-10",    // month 0
        "2026-02-30",    // no such day
        "2025-02-29",    // 2025 isn't a leap year
        "1900-02-29",    // nor is 1900
        "+026-07-04",    // a sign is not a digit
        "2026-07-04T12", // longer than a date
    ] {
        assert_eq!(
            IsoDate::parse(bad),
            Err(DateError::Malformed(bad.to_string())),
            "should have been rejected: {bad:?}"
        );
    }
    // 2000 is a leap year (multiple of 400).
    assert!(IsoDate::parse("2000-02-29").is_ok());
}

#[test]
fn iso_dates_order_chronologically() {
    assert!(IsoDate::parse("2026-01-31").unwrap() < IsoDate::parse("2026-02-01").unwrap());
    assert!(IsoDate::parse("2025-12-31").unwrap() < IsoDate::parse("2026-01-01").unwrap());
}

#[test]
fn tournament_dates_reject_a_backwards_range() {
    let first = IsoDate::parse("2026-07-05").unwrap();
    let last = IsoDate::parse("2026-07-04").unwrap();
    assert_eq!(
        TournamentDates::new(first.clone(), last.clone()),
        Err(DateError::Backwards { first, last })
    );
    // A one-day event (first == last) is fine, and knows it.
    let day = IsoDate::parse("2026-07-04").unwrap();
    let dates = TournamentDates::new(day.clone(), day).unwrap();
    assert!(dates.single_day());
}

#[test]
fn macmahon_points_count_thresholds_met() {
    let s = with_thresholds(TournamentSettings::default(), vec![mmt(1200), mmt(1700)]);
    assert_eq!(s.macmahon_points(Some(1000), None), 0);
    assert_eq!(s.macmahon_points(Some(1200), None), 1); // inclusive lower bound
    assert_eq!(s.macmahon_points(Some(1699), None), 1);
    assert_eq!(s.macmahon_points(Some(1700), None), 2);
    assert_eq!(s.macmahon_points(Some(2500), None), 2);
    assert_eq!(s.macmahon_points(None, None), 0); // unrated → below every threshold
}

#[test]
fn grade_thresholds_count_independently_of_elo_thresholds() {
    let s = with_thresholds(
        TournamentSettings::default(),
        vec![MacMahonThreshold::elo(1500), MacMahonThreshold::grade(Grade::dan(1))],
    );
    assert_eq!(s.macmahon_points(Some(1000), Some(Grade::kyu(5))), 0);
    assert_eq!(s.macmahon_points(Some(1000), Some(Grade::dan(3))), 1);
    assert_eq!(s.macmahon_points(Some(2000), Some(Grade::kyu(5))), 1);
    assert_eq!(s.macmahon_points(Some(2000), Some(Grade::dan(3))), 2);
    assert_eq!(s.macmahon_points(Some(2000), None), 1);
}

#[test]
fn no_thresholds_means_zero_points() {
    let s = TournamentSettings::default();
    assert_eq!(s.macmahon_points(Some(9000), None), 0);
    assert_eq!(s.macmahon_points(None, None), 0);
}

#[test]
fn normalize_sorts_and_dedups() {
    assert_eq!(
        TournamentSettings::normalize_thresholds(vec![mmt(1700), mmt(1200), mmt(1200), mmt(1500)]),
        vec![mmt(1200), mmt(1500), mmt(1700)]
    );
}

#[test]
fn normalize_sorts_grade_thresholds_after_elo_ones_by_strength() {
    let grade_1d = MacMahonThreshold::grade(Grade::dan(1));
    let grade_5d = MacMahonThreshold::grade(Grade::dan(5));
    let grade_5k = MacMahonThreshold::grade(Grade::kyu(5));
    let elo_1500 = mmt(1500);
    assert_eq!(
        TournamentSettings::normalize_thresholds(vec![grade_5d, elo_1500, grade_1d, grade_5k]),
        vec![elo_1500, grade_5k, grade_1d, grade_5d]
    );
}

#[test]
fn normalizing_thresholds_twice_changes_nothing() {
    let once = TournamentSettings::normalize_thresholds(vec![
        mmt(1800),
        mmt_drops(1200, 0),
        MacMahonThreshold::grade(Grade::kyu(2)),
        mmt(1200),
        mmt_drops(1500, 4),
    ]);
    assert_eq!(
        once,
        vec![
            mmt(1200),
            mmt_drops(1500, 4),
            mmt(1800),
            MacMahonThreshold::grade(Grade::kyu(2))
        ]
    );
    assert_eq!(TournamentSettings::normalize_thresholds(once.clone()), once);
}

#[test]
fn degressive_drops_thresholds_at_their_own_scheduled_round() {
    let s = with_thresholds(
        TournamentSettings::default(),
        vec![mmt_drops(1200, 2), mmt_drops(1500, 2), mmt(1800)],
    );
    assert_eq!(s.effective_macmahon_thresholds(0), vec![elo(1200), elo(1500), elo(1800)]);
    assert_eq!(s.effective_macmahon_thresholds(1), vec![elo(1200), elo(1500), elo(1800)]);
    assert_eq!(s.effective_macmahon_thresholds(2), vec![elo(1800)]);
    assert_eq!(s.effective_macmahon_thresholds(3), vec![elo(1800)]);
    assert_eq!(s.macmahon_points_at(Some(2000), None, 1), 3);
    assert_eq!(s.macmahon_points_at(Some(2000), None, 2), 1);
    assert_eq!(s.macmahon_points_at(Some(2000), None, 4), 1);
}

#[test]
fn normalized_sorts_by_value_and_zeroes_a_zero_drop_round() {
    let s = with_thresholds(
        TournamentSettings::default(),
        vec![
            mmt_drops(1500, 3),
            mmt(1200),
            mmt_drops(1200, 0), // duplicate value dropped, first kept
            mmt_drops(1800, 0), // a drop round of 0 can't fire, normalized away
        ],
    )
    .normalized();
    assert_eq!(
        s.macmahon_thresholds(),
        &[mmt(1200), mmt_drops(1500, 3), mmt(1800)]
    );
}

#[test]
fn club_protection_active_respects_toggle_and_round_window() {
    let off = TournamentSettings::default();
    assert!(!off.club_protection_active(1));

    let all = with_club(
        TournamentSettings::default(),
        ClubProtection::On {
            rounds: None,
            exempt_clubs: Vec::new(),
        },
    );
    assert!(all.club_protection_active(1));
    assert!(all.club_protection_active(99));

    let limited = with_club(
        TournamentSettings::default(),
        ClubProtection::On {
            rounds: RoundLimit::new(2),
            exempt_clubs: Vec::new(),
        },
    );
    assert!(limited.club_protection_active(1));
    assert!(limited.club_protection_active(2));
    assert!(!limited.club_protection_active(3));
}

#[test]
fn airtight_groups_active_respects_its_round_window() {
    let off = TournamentSettings::default();
    assert!(!off.airtight_groups_active(1));

    let s = with_airtight(TournamentSettings::default(), RoundLimit::new(2));
    assert!(s.airtight_groups_active(1));
    assert!(s.airtight_groups_active(2));
    assert!(!s.airtight_groups_active(3));
}

#[test]
fn normalized_drops_the_airtight_window_without_thresholds() {
    let window = |s: &TournamentSettings| match &s.pairing {
        PairingMode::Swiss { airtight_groups, .. } => *airtight_groups,
        PairingMode::Elo { .. } => None,
    };

    let bare = with_airtight(TournamentSettings::default(), RoundLimit::new(2)).normalized();
    assert_eq!(window(&bare), None);
    assert!(!bare.airtight_groups_active(1));

    let with_threshold = with_airtight(
        with_thresholds(TournamentSettings::default(), vec![mmt(1500)]),
        RoundLimit::new(2),
    )
    .normalized();
    assert_eq!(window(&with_threshold), RoundLimit::new(2));
}

#[test]
fn a_zero_round_limit_is_unrepresentable() {
    assert_eq!(RoundLimit::new(0), None);
    assert_eq!(RoundLimit::new(3).map(|r| r.get()), Some(3));
}

#[test]
fn normalized_trims_and_dedups_exempt_clubs_case_insensitively() {
    let s = with_club(
        TournamentSettings::default(),
        ClubProtection::On {
            rounds: None,
            exempt_clubs: vec!["  Paris  ".into(), "paris".into(), "   ".into(), "Lyon".into()],
        },
    )
    .normalized();
    let PairingMode::Swiss {
        club_protection: ClubProtection::On { exempt_clubs, .. },
        ..
    } = &s.pairing
    else {
        panic!("still on");
    };
    assert_eq!(exempt_clubs, &["Paris", "Lyon"]);
    assert!(s.exempt_clubs_normalized().iter().any(|c| c == "paris"));
}

#[test]
fn nationality_protection_active_respects_toggle_and_round_window() {
    let off = TournamentSettings::default();
    assert!(!off.nationality_protection_active(1));

    let all = with_nationality(
        TournamentSettings::default(),
        NationalityProtection::On {
            rounds: None,
            exempt_nationalities: Vec::new(),
        },
    );
    assert!(all.nationality_protection_active(1));
    assert!(all.nationality_protection_active(99));

    let limited = with_nationality(
        TournamentSettings::default(),
        NationalityProtection::On {
            rounds: RoundLimit::new(2),
            exempt_nationalities: Vec::new(),
        },
    );
    assert!(limited.nationality_protection_active(1));
    assert!(limited.nationality_protection_active(2));
    assert!(!limited.nationality_protection_active(3));
}

#[test]
fn nationality_protection_is_independent_of_club_protection() {
    let s = with_nationality(
        TournamentSettings::default(),
        NationalityProtection::On {
            rounds: None,
            exempt_nationalities: vec!["JP".into()],
        },
    );
    assert!(s.nationality_protection_active(1));
    assert!(!s.club_protection_active(1));
    assert!(s.exempt_clubs_normalized().is_empty());
    assert!(s.exempt_nationalities_normalized().iter().any(|n| n == "jp"));
}

#[test]
fn normalized_trims_and_dedups_exempt_nationalities_case_insensitively() {
    let s = with_nationality(
        TournamentSettings::default(),
        NationalityProtection::On {
            rounds: None,
            exempt_nationalities: vec!["  JP  ".into(), "jp".into(), "   ".into(), "FR".into()],
        },
    )
    .normalized();
    let PairingMode::Swiss {
        nationality_protection: NationalityProtection::On {
            exempt_nationalities,
            ..
        },
        ..
    } = &s.pairing
    else {
        panic!("still on");
    };
    assert_eq!(exempt_nationalities, &["JP", "FR"]);
    assert!(s.exempt_nationalities_normalized().iter().any(|n| n == "jp"));
}

#[test]
fn wiel_rule_cannot_be_on_without_handicaps_and_defaults_off() {
    assert!(!TournamentSettings::default().handicap_wiel_rule());
    let off = TournamentSettings {
        handicap_policy: HandicapPolicy::Disabled,
        ..Default::default()
    };
    assert!(!off.handicap_wiel_rule());
    let wiel = TournamentSettings {
        handicap_policy: HandicapPolicy::Enabled {
            display: HandicapDisplay::Allowed,
            wiel_rule: true,
        },
        ..Default::default()
    };
    assert!(wiel.handicap_wiel_rule());
}

#[test]
fn normalizing_drops_board_wins_tiebreak_outside_team_mode() {
    let individual = TournamentSettings {
        tiebreaks: vec![Tiebreak::Points, Tiebreak::BoardWins, Tiebreak::SosM],
        ..Default::default()
    }
    .normalized();
    assert_eq!(individual.tiebreaks, vec![Tiebreak::Points, Tiebreak::SosM]);

    let teamed = TournamentSettings {
        tiebreaks: vec![Tiebreak::Points, Tiebreak::BoardWins, Tiebreak::SosM],
        teams: Some(TeamSettings::default()),
        ..Default::default()
    }
    .normalized();
    assert_eq!(
        teamed.tiebreaks,
        vec![Tiebreak::Points, Tiebreak::BoardWins, Tiebreak::SosM]
    );

    let defaults = TournamentSettings {
        tiebreaks: Tiebreak::default_team_order(),
        teams: Some(TeamSettings::default()),
        ..Default::default()
    }
    .normalized();
    assert!(defaults.tiebreaks.contains(&Tiebreak::BoardWins));
}

#[test]
fn normalizing_drops_est_elo_tiebreak_when_elo_mode_off() {
    let off = TournamentSettings {
        tiebreaks: vec![Tiebreak::Points, Tiebreak::EstElo, Tiebreak::SosM],
        ..Default::default()
    }
    .normalized();
    assert_eq!(off.tiebreaks, vec![Tiebreak::Points, Tiebreak::SosM]);

    let on = TournamentSettings {
        tiebreaks: vec![Tiebreak::Points, Tiebreak::EstElo, Tiebreak::SosM],
        ..elo_pairing()
    }
    .normalized();
    assert_eq!(on.tiebreaks, vec![Tiebreak::Points, Tiebreak::EstElo, Tiebreak::SosM]);
}

#[test]
fn normalizing_drops_est_elo_tiebreak_when_only_unrated_are_estimated() {
    let mut estimator = EloEstimator::default();
    estimator.k_multiplier = Ratio::from_percent(0);
    let pinned = TournamentSettings {
        tiebreaks: vec![Tiebreak::Points, Tiebreak::EstElo, Tiebreak::SosM],
        pairing: PairingMode::Elo { estimator },
        ..Default::default()
    };
    assert!(pinned.elo_estimate_live(), "the estimate is still computed");
    assert!(pinned.elo_estimate_rated_pinned());
    assert!(!pinned.est_elo_ranks());
    assert_eq!(pinned.normalized().tiebreaks, vec![Tiebreak::Points, Tiebreak::SosM]);

    let estimated = TournamentSettings {
        tiebreaks: vec![Tiebreak::Points, Tiebreak::EstElo, Tiebreak::SosM],
        ..elo_pairing()
    };
    assert!(estimated.est_elo_ranks());
    assert_eq!(estimated.normalized().tiebreaks.len(), 3);
}

#[test]
fn normalizing_keeps_the_first_of_a_repeated_tiebreak() {
    let s = TournamentSettings {
        tiebreaks: vec![Tiebreak::SosM, Tiebreak::Points, Tiebreak::SosM, Tiebreak::Points],
        ..Default::default()
    }
    .normalized();
    assert_eq!(s.tiebreaks, vec![Tiebreak::SosM, Tiebreak::Points]);
}

#[test]
fn macmahon_from_estimate_active_needs_the_toggle_and_an_elo_threshold() {
    let off = with_thresholds(TournamentSettings::default(), vec![mmt(1500)]);
    assert!(!off.macmahon_from_estimate_active());

    let grade_only = with_estimate(with_thresholds(
        TournamentSettings::default(),
        vec![MacMahonThreshold::grade(Grade::dan(1))],
    ));
    assert!(!grade_only.macmahon_from_estimate_active());

    let none = with_estimate(TournamentSettings::default());
    assert!(!none.macmahon_from_estimate_active());

    let on = with_estimate(with_thresholds(
        TournamentSettings::default(),
        vec![mmt(1500), MacMahonThreshold::grade(Grade::dan(1))],
    ));
    assert!(on.macmahon_from_estimate_active());
}

#[test]
fn estimate_based_macmahon_does_not_make_est_elo_a_tiebreak() {
    let s = TournamentSettings {
        tiebreaks: vec![Tiebreak::Points, Tiebreak::EstElo],
        ..with_estimate(with_thresholds(TournamentSettings::default(), vec![mmt(1500)]))
    };
    assert!(s.elo_estimate_live(), "the estimate is still computed");
    assert!(!s.est_elo_ranks());
    assert_eq!(s.normalized().tiebreaks, vec![Tiebreak::Points]);
}

#[test]
fn elo_estimate_needed_is_true_for_elo_pairing() {
    assert!(elo_pairing().elo_estimate_needed());
    assert!(!TournamentSettings::default().elo_estimate_needed());
}

#[test]
fn team_mode_names_the_feature_it_conflicts_with() {
    let cases: Vec<(TournamentSettings, TeamModeConflict)> = vec![
        (
            TournamentSettings {
                cup_enabled: true,
                ..team_settings()
            },
            TeamModeConflict::Cup,
        ),
        (
            TournamentSettings {
                long_boards_enabled: true,
                ..team_settings()
            },
            TeamModeConflict::LongGames,
        ),
        (
            TournamentSettings {
                pairing: PairingMode::Elo {
                    estimator: EloEstimator::default(),
                },
                ..team_settings()
            },
            TeamModeConflict::EloPairing,
        ),
        (
            with_thresholds(
                team_settings(),
                vec![MacMahonThreshold {
                    criterion: ThresholdCriterion::Grade {
                        grade: Grade::dan(1),
                    },
                    drops_after_round: None,
                }],
            ),
            TeamModeConflict::GradeThresholds,
        ),
        (
            TournamentSettings {
                tiebreaks: vec![Tiebreak::Points, Tiebreak::EstElo],
                ..team_settings()
            },
            TeamModeConflict::EstEloTiebreak,
        ),
    ];
    for (settings, expected) in cases {
        assert_eq!(settings.team_mode_conflict(), Some(expected));
    }
}

#[test]
fn no_conflict_outside_team_mode_or_without_the_feature() {
    let cup = TournamentSettings {
        cup_enabled: true,
        long_boards_enabled: true,
        ..TournamentSettings::default()
    };
    assert_eq!(cup.team_mode_conflict(), None);
    assert_eq!(team_settings().team_mode_conflict(), None);
    assert_eq!(
        with_thresholds(team_settings(), vec![mmt(1500)]).team_mode_conflict(),
        None
    );
}

#[test]
fn team_size_is_one_outside_team_mode_and_the_configured_size_within() {
    assert!(!TournamentSettings::default().team_mode());
    assert_eq!(TournamentSettings::default().team_size(), 1);
    assert!(team_settings().team_mode());
    assert_eq!(team_settings().team_size(), 3);
}

#[test]
fn normalized_trims_the_header_text_and_drops_blank_entries() {
    let trimmed = TournamentSettings {
        city: Some(" Ludwigshafen ".into()),
        country: Some("Germany\t".into()),
        time_control: Some("  40min + 30sec  ".into()),
        ..Default::default()
    }
    .normalized();
    assert_eq!(trimmed.city.as_deref(), Some("Ludwigshafen"));
    assert_eq!(trimmed.country.as_deref(), Some("Germany"));
    assert_eq!(trimmed.time_control.as_deref(), Some("40min + 30sec"));

    let blank = TournamentSettings {
        city: Some("".into()),
        country: Some(" ".into()),
        time_control: Some("   ".into()),
        ..Default::default()
    }
    .normalized();
    assert_eq!(blank.city, None);
    assert_eq!(blank.country, None);
    assert_eq!(blank.time_control, None);
}

#[test]
fn normalizing_settings_twice_changes_nothing() {
    let s = TournamentSettings {
        city: Some("  Lyon ".into()),
        tiebreaks: vec![Tiebreak::SosM, Tiebreak::BoardWins, Tiebreak::Points, Tiebreak::SosM],
        ..with_club(
            with_thresholds(TournamentSettings::default(), vec![mmt(1800), mmt_drops(1200, 0), mmt(1200)]),
            ClubProtection::On {
                rounds: RoundLimit::new(3),
                exempt_clubs: vec![" Home".into(), "HOME ".into(), "".into(), "Away".into()],
            },
        )
    };
    let once = s.normalized();
    let twice = once.clone().normalized();
    assert_eq!(once, twice);
    assert_eq!(once.city.as_deref(), Some("Lyon"));
    assert_eq!(once.tiebreaks, vec![Tiebreak::SosM, Tiebreak::Points]);
}

#[test]
fn normalizing_twice_changes_nothing_more() {
    let messy = with_club(
        with_thresholds(
            TournamentSettings::default(),
            vec![mmt_drops(1500, 3), mmt(1200), mmt_drops(1200, 0), mmt_drops(1800, 0)],
        ),
        ClubProtection::On {
            rounds: None,
            exempt_clubs: vec!["  Paris  ".into(), "paris".into(), "   ".into(), "Lyon".into()],
        },
    );
    let once = messy.clone().normalized();
    assert_ne!(once, messy);
    assert_eq!(once.clone().normalized(), once);
}
