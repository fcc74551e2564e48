use osp_core::player::Player;
use std::cmp::Ordering;

use osp_core::team::{
    average_pairing_rating, board_order, by_pairing_rating, is_board_order, mean, newcomer_board,
    pairing_rating, Team,
};
use uuid::Uuid;

fn player(rating: Option<u32>, pairing: Option<u32>) -> Player {
    Player {
        id: uuid::Uuid::new_v4(),
        tournament_id: None,
        last_name: "X".to_string(),
        first_name: String::new(),
        rating,
        pairing_rating: pairing,
        grade: None,
        fesa_games: None,
        nationality: None,
        club: None,
        eligible: false,
        categories: Vec::new(),
        adjustments: Vec::new(),
    }
}

#[test]
fn the_pairing_rating_prefers_the_real_one() {
    assert_eq!(pairing_rating(&player(Some(1800), Some(1200))), Some(1800));
    assert_eq!(pairing_rating(&player(None, Some(1200))), Some(1200));
    assert_eq!(pairing_rating(&player(None, None)), None);
}

#[test]
fn the_team_average_needs_every_member_and_rounds_to_nearest() {
    let a = player(Some(2000), None);
    let b = player(Some(1801), None);
    // (2000 + 1801) / 2 = 1900.5 → 1901.
    assert_eq!(average_pairing_rating(&[&a, &b]), Some(1901));
    // A referee-assigned pairing rating counts like a real one.
    let d = player(None, Some(1600));
    assert_eq!(average_pairing_rating(&[&a, &d]), Some(1800));
    // One unrated member and there is no team average.
    let c = player(None, None);
    assert_eq!(average_pairing_rating(&[&a, &b, &c]), None);
    assert_eq!(average_pairing_rating(&[&c]), None);
    assert_eq!(average_pairing_rating(&[]), None);
}

#[test]
fn names_collide_ignoring_case_and_surrounding_space() {
    assert!(Team::same_name("Paris", " paris "));
    assert!(!Team::same_name("Paris", "Paris 2"));
}

#[test]
fn the_mean_rounds_halves_up_and_stays_within_the_values() {
    assert_eq!(mean(&[]), None);
    assert_eq!(mean(&[7]), Some(7));
    assert_eq!(mean(&[1, 2]), Some(2));
    assert_eq!(mean(&[1, 2, 2]), Some(2));
    assert_eq!(mean(&[u32::MAX, u32::MAX]), Some(u32::MAX));
}

#[test]
fn a_new_team_starts_empty() {
    let t = Team::new("Lyon".to_string());
    assert_eq!(t.name, "Lyon");
    assert!(t.members.is_empty());
    assert!(t.adjustments.is_empty());
    assert_eq!(t.tournament_id, None);
    // Each team gets its own identity.
    assert_ne!(Team::new("Lyon".to_string()).id, t.id);
}

#[test]
fn board_order_puts_the_stronger_first_and_the_unrated_last() {
    assert_eq!(by_pairing_rating(Some(2000), Some(1900)), Ordering::Less);
    assert_eq!(by_pairing_rating(Some(1900), Some(2000)), Ordering::Greater);
    assert_eq!(by_pairing_rating(Some(1900), Some(1900)), Ordering::Equal);
    assert_eq!(by_pairing_rating(None, Some(1)), Ordering::Greater);
    assert_eq!(by_pairing_rating(Some(1), None), Ordering::Less);
    assert_eq!(by_pairing_rating(None, None), Ordering::Equal);
}

#[test]
fn a_new_member_takes_the_board_their_rating_calls_for() {
    // Registered in no particular order, inserted one at a time: the roster
    // comes out in board order without anyone sorting it.
    let ratings = [Some(1980), Some(2000), Some(1970), Some(1990)];
    let mut roster: Vec<Option<u32>> = Vec::new();
    for r in ratings {
        let at = newcomer_board(&roster, r);
        roster.insert(at, r);
    }
    assert_eq!(roster, vec![Some(2000), Some(1990), Some(1980), Some(1970)]);
}

#[test]
fn adding_a_member_leaves_the_boards_below_them_alone() {
    // A hand-picked order, the weaker first: a stronger newcomer takes board
    // 1 and the others keep their order; an unrated newcomer goes last.
    let roster = vec![Some(1980), Some(2000)];
    assert_eq!(newcomer_board(&roster, Some(1990)), 0);
    let roster = vec![Some(1990), Some(1980), Some(2000)];
    assert_eq!(newcomer_board(&roster, None), 3);
    // Equal ratings keep arrival order.
    assert_eq!(newcomer_board(&[Some(1500)].to_vec(), Some(1500)), 1);
}

#[test]
fn a_board_order_must_be_a_permutation_of_the_roster() {
    let ids: Vec<Uuid> = (0..4).map(|_| Uuid::new_v4()).collect();
    let members = vec![ids[0], ids[1], ids[2]];
    for bad in [
        vec![ids[0], ids[1], ids[3]],
        vec![ids[0], ids[1]],
        vec![ids[0], ids[1], ids[0]],
    ] {
        assert!(!is_board_order(&bad, &members));
    }
    assert!(is_board_order(&vec![ids[2], ids[0], ids[1]], &members));
}

#[test]
fn sorting_a_roster_by_rating_is_stable_and_puts_the_unrated_last() {
    let ids: Vec<Uuid> = (0..5).map(|_| Uuid::new_v4()).collect();
    let ranked = vec![
        (ids[0], None),
        (ids[1], Some(1800)),
        (ids[2], Some(2000)),
        (ids[3], None),
        (ids[4], Some(1800)),
    ];
    assert_eq!(board_order(&ranked), vec![ids[2], ids[1], ids[4], ids[0], ids[3]]);
}
