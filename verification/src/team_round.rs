//! Checking a team round's draft before it is paired: who is absent, which
//! teams are present, and whether the referee's forced matches and byes can
//! hold — the team-level pairing inputs, as plain keys.

use vstd::prelude::*;

use crate::round::{
    AbsenceKind, Board, ForcedMatch, Forfeit, Outcome, RoundDraft, Sitout, SitoutKind, SitoutValue,
};
use crate::units::{TeamId, TournamentId, UnitKey};

verus! {

/// Why a team round's draft cannot be paired.
#[derive(Debug, Clone, Copy, PartialEq, Eq)]
pub enum TeamDraftError {
    /// A player is marked absent twice.
    PlayerTwiceInRound { round: u32, player: TournamentId },
    /// The draft forces players rather than teams.
    PlayerLevelDraftInTeamMode,
    /// Too few teams have anyone present.
    NotEnoughPresentTeams { needed: usize, have: usize },
    /// A forced match puts a team against itself.
    SelfMatch,
    /// A forced match names a team with nobody present.
    MatchOfAbsentTeam(TeamId),
    /// A team is in two forced matches, or also forced onto a bye.
    TeamInTwoMatches(TeamId),
    /// A forced bye names a team with nobody present.
    ByeOfAbsentTeam(TeamId),
    /// A team is forced onto a bye twice, or also in a forced match.
    TeamForcedTwice(TeamId),
}

/// What a checked draft hands the pairing engine: the present teams in
/// roster order, the forced matches and the forced byes, as unit keys.
#[derive(Debug, Clone, PartialEq, Eq)]
pub struct TeamDraftPlan {
    pub present: Vec<UnitKey>,
    pub forced_pairs: Vec<(UnitKey, UnitKey)>,
    pub forced_byes: Vec<UnitKey>,
}

/// The pairing key of team number `t`.
pub open spec fn team_key(t: TeamId) -> UnitKey {
    UnitKey(t.0)
}

/// The position of the first entry of `s` that repeats an earlier one, among
/// the first `n`.
pub open spec fn first_repeat_at(s: Seq<TournamentId>, n: int) -> Option<int>
    decreases n,
{
    if n <= 0 {
        None
    } else {
        match first_repeat_at(s, n - 1) {
            Some(j) => Some(j),
            None => if s.subrange(0, n - 1).contains(s[n - 1]) {
                Some(n - 1)
            } else {
                None
            },
        }
    }
}

/// A team is present when it has members and not all of them are absent.
pub open spec fn team_present(members: Seq<TournamentId>, absent: Seq<TournamentId>) -> bool {
    members.len() > 0 && exists|i: int| 0 <= i < members.len() && !absent.contains(#[trigger] members[i])
}

/// The keys of the present teams among the first `n` rosters, in order.
pub open spec fn present_teams(rosters: Seq<(TeamId, Seq<TournamentId>)>, absent: Seq<TournamentId>, n: int) -> Seq<UnitKey>
    decreases n,
{
    if n <= 0 {
        Seq::empty()
    } else {
        let rest = present_teams(rosters, absent, n - 1);
        if team_present(rosters[n - 1].1, absent) {
            rest.push(team_key(rosters[n - 1].0))
        } else {
            rest
        }
    }
}

/// The forced matches' checks over the first `n` matches: the teams placed so
/// far, or the first problem.
pub open spec fn match_scan(ms: Seq<ForcedMatch>, present: Seq<UnitKey>, n: int) -> Result<Seq<UnitKey>, TeamDraftError>
    decreases n,
{
    if n <= 0 {
        Ok(Seq::empty())
    } else {
        match match_scan(ms, present, n - 1) {
            Err(e) => Err(e),
            Ok(placed) => {
                let m = ms[n - 1];
                let (k1, k2) = (team_key(m.team1), team_key(m.team2));
                if m.team1 == m.team2 {
                    Err(TeamDraftError::SelfMatch)
                } else if !present.contains(k1) {
                    Err(TeamDraftError::MatchOfAbsentTeam(m.team1))
                } else if placed.contains(k1) {
                    Err(TeamDraftError::TeamInTwoMatches(m.team1))
                } else if !present.contains(k2) {
                    Err(TeamDraftError::MatchOfAbsentTeam(m.team2))
                } else if placed.push(k1).contains(k2) {
                    Err(TeamDraftError::TeamInTwoMatches(m.team2))
                } else {
                    Ok(placed.push(k1).push(k2))
                }
            },
        }
    }
}

/// The forced byes' checks over the first `n` byes, after the matches placed
/// `placed`: the teams placed so far, or the first problem.
pub open spec fn bye_scan(byes: Seq<TeamId>, present: Seq<UnitKey>, placed: Seq<UnitKey>, n: int) -> Result<Seq<UnitKey>, TeamDraftError>
    decreases n,
{
    if n <= 0 {
        Ok(placed)
    } else {
        match bye_scan(byes, present, placed, n - 1) {
            Err(e) => Err(e),
            Ok(now) => {
                let k = team_key(byes[n - 1]);
                if !present.contains(k) {
                    Err(TeamDraftError::ByeOfAbsentTeam(byes[n - 1]))
                } else if now.contains(k) {
                    Err(TeamDraftError::TeamForcedTwice(byes[n - 1]))
                } else {
                    Ok(now.push(k))
                }
            },
        }
    }
}

/// The matches as pairs of keys.
pub open spec fn match_pairs(ms: Seq<ForcedMatch>) -> Seq<(UnitKey, UnitKey)> {
    ms.map_values(|m: ForcedMatch| (team_key(m.team1), team_key(m.team2)))
}

/// The byes as keys.
pub open spec fn bye_keys(byes: Seq<TeamId>) -> Seq<UnitKey> {
    byes.map_values(|t: TeamId| team_key(t))
}

/// What checking a draft comes to, in the order the checks are made: a
/// repeated absentee, then player-level forcing, then too few present teams,
/// then the forced matches and byes in turn.
pub open spec fn draft_outcome(
    draft: RoundDraft,
    rosters: Seq<(TeamId, Seq<TournamentId>)>,
    min_teams: usize,
) -> Result<(Seq<UnitKey>, Seq<(UnitKey, UnitKey)>, Seq<UnitKey>), TeamDraftError> {
    let absent = draft.absent@;
    match first_repeat_at(absent, absent.len() as int) {
        Some(j) => Err(TeamDraftError::PlayerTwiceInRound { round: draft.number, player: absent[j] }),
        None => if draft.forced_boards@.len() > 0 || draft.forced_byes@.len() > 0 {
            Err(TeamDraftError::PlayerLevelDraftInTeamMode)
        } else {
            forcing_outcome(draft, present_teams(rosters, absent, rosters.len() as int), min_teams)
        },
    }
}

/// The last checks of a draft, once its present teams are known: enough of
/// them, then the forced matches and byes in turn.
pub open spec fn forcing_outcome(
    draft: RoundDraft,
    present: Seq<UnitKey>,
    min_teams: usize,
) -> Result<(Seq<UnitKey>, Seq<(UnitKey, UnitKey)>, Seq<UnitKey>), TeamDraftError> {
    if present.len() < min_teams {
        Err(TeamDraftError::NotEnoughPresentTeams { needed: min_teams, have: present.len() as usize })
    } else {
        match match_scan(draft.forced_matches@, present, draft.forced_matches@.len() as int) {
            Err(e) => Err(e),
            Ok(placed) => match bye_scan(draft.forced_team_byes@, present, placed, draft.forced_team_byes@.len() as int) {
                Err(e) => Err(e),
                Ok(_) => Ok((present, match_pairs(draft.forced_matches@), bye_keys(draft.forced_team_byes@))),
            },
        }
    }
}

/// Whether `k` is in `v`.
fn contains_key(v: &Vec<UnitKey>, k: UnitKey) -> (r: bool)
    ensures
        r == v@.contains(k),
{
    let mut i: usize = 0;
    while i < v.len()
        invariant
            i <= v@.len(),
            forall|j: int| 0 <= j < i ==> v@[j] != k,
        decreases v@.len() - i,
    {
        if v[i] == k {
            assert(v@[i as int] == k);
            return true;
        }
        i += 1;
    }
    false
}

/// Whether `t` is among the first `n` entries of `v`.
fn contains_player(v: &Vec<TournamentId>, t: TournamentId, n: usize) -> (r: bool)
    requires
        n <= v@.len(),
    ensures
        r == v@.subrange(0, n as int).contains(t),
{
    let mut i: usize = 0;
    while i < n
        invariant
            i <= n,
            n <= v@.len(),
            forall|j: int| 0 <= j < i ==> v@[j] != t,
        decreases n - i,
    {
        if v[i] == t {
            assert(v@.subrange(0, n as int)[i as int] == t);
            return true;
        }
        i += 1;
    }
    proof {
        if v@.subrange(0, n as int).contains(t) {
            let j = choose|j: int| 0 <= j < n && v@.subrange(0, n as int)[j] == t;
            assert(v@[j] == t);
        }
    }
    false
}

/// The rosters with each member list taken by its view.
pub open spec fn roster_views(rosters: Seq<(TeamId, Vec<TournamentId>)>) -> Seq<(TeamId, Seq<TournamentId>)> {
    rosters.map_values(|r: (TeamId, Vec<TournamentId>)| (r.0, r.1@))
}

/// Whether a team with `members` has anyone present.
fn is_team_present(members: &Vec<TournamentId>, absent: &Vec<TournamentId>) -> (r: bool)
    ensures
        r == team_present(members@, absent@),
{
    let mut i: usize = 0;
    while i < members.len()
        invariant
            i <= members@.len(),
            forall|j: int| 0 <= j < i ==> absent@.contains(#[trigger] members@[j]),
        decreases members@.len() - i,
    {
        let here = !contains_player(absent, members[i], absent.len());
        proof {
            assert(absent@.subrange(0, absent@.len() as int) =~= absent@);
        }
        if here {
            return true;
        }
        i += 1;
    }
    false
}

/// Check a team round's draft, in order: no player marked absent twice, no
/// player-level forcing, at least `min_teams` teams with someone present
/// (`rosters` lists each numbered team with its members), and forced matches
/// and byes that name present teams, each team at most once. On success, the
/// pairing engine's inputs: the present teams in roster order, the forced
/// matches and the forced byes, as unit keys.
pub fn check_team_draft(
    draft: &RoundDraft,
    rosters: &Vec<(TeamId, Vec<TournamentId>)>,
    min_teams: usize,
) -> (r: Result<TeamDraftPlan, TeamDraftError>)
    ensures
        match r {
            Ok(plan) => draft_outcome(*draft, roster_views(rosters@), min_teams) == Ok::<
                (Seq<UnitKey>, Seq<(UnitKey, UnitKey)>, Seq<UnitKey>),
                TeamDraftError,
            >((plan.present@, plan.forced_pairs@, plan.forced_byes@)),
            Err(e) => draft_outcome(*draft, roster_views(rosters@), min_teams) == Err::<
                (Seq<UnitKey>, Seq<(UnitKey, UnitKey)>, Seq<UnitKey>),
                TeamDraftError,
            >(e),
        },
{
    let absent = &draft.absent;
    let ghost rv = roster_views(rosters@);
    let mut j: usize = 0;
    while j < absent.len()
        invariant
            j <= absent@.len(),
            absent@ == draft.absent@,
            first_repeat_at(absent@, j as int) is None,
        decreases absent@.len() - j,
    {
        if contains_player(absent, absent[j], j) {
            proof {
                assert(first_repeat_at(absent@, j as int + 1) == Some(j as int));
                lemma_repeat_persists(absent@, j as int + 1, absent@.len() as int);
            }
            return Err(TeamDraftError::PlayerTwiceInRound { round: draft.number, player: absent[j] });
        }
        j += 1;
    }
    if draft.forced_boards.len() > 0 || draft.forced_byes.len() > 0 {
        return Err(TeamDraftError::PlayerLevelDraftInTeamMode);
    }
    let mut present: Vec<UnitKey> = Vec::new();
    let mut i: usize = 0;
    while i < rosters.len()
        invariant
            i <= rosters@.len(),
            absent@ == draft.absent@,
            rv == roster_views(rosters@),
            present@ == present_teams(rv, absent@, i as int),
        decreases rosters@.len() - i,
    {
        let (team, members) = (rosters[i].0, &rosters[i].1);
        assert(rv[i as int] == (team, members@));
        if is_team_present(members, absent) {
            present.push(UnitKey::from_team(team));
        }
        i += 1;
    }
    let ghost ps = present@;
    assert(draft_outcome(*draft, roster_views(rosters@), min_teams) == forcing_outcome(*draft, ps, min_teams));
    if present.len() < min_teams {
        return Err(TeamDraftError::NotEnoughPresentTeams { needed: min_teams, have: present.len() });
    }
    let ms = &draft.forced_matches;
    let mut placed: Vec<UnitKey> = Vec::new();
    let mut pairs: Vec<(UnitKey, UnitKey)> = Vec::new();
    let mut i: usize = 0;
    while i < ms.len()
        invariant
            i <= ms@.len(),
            present@ == ps,
            ms@ == draft.forced_matches@,
            draft_outcome(*draft, roster_views(rosters@), min_teams) == forcing_outcome(*draft, ps, min_teams),
            ps.len() >= min_teams,
            match_scan(ms@, ps, i as int) == Ok::<Seq<UnitKey>, TeamDraftError>(placed@),
            pairs@ == match_pairs(ms@).subrange(0, i as int),
        decreases ms@.len() - i,
    {
        let m = ms[i];
        let (k1, k2) = (UnitKey::from_team(m.team1), UnitKey::from_team(m.team2));
        if m.team1 == m.team2 {
            proof {
                lemma_match_problem_persists(ms@, ps, i as int + 1, ms@.len() as int);
            }
            return Err(TeamDraftError::SelfMatch);
        }
        if !contains_key(&present, k1) {
            proof {
                lemma_match_problem_persists(ms@, ps, i as int + 1, ms@.len() as int);
            }
            return Err(TeamDraftError::MatchOfAbsentTeam(m.team1));
        }
        if contains_key(&placed, k1) {
            proof {
                lemma_match_problem_persists(ms@, ps, i as int + 1, ms@.len() as int);
            }
            return Err(TeamDraftError::TeamInTwoMatches(m.team1));
        }
        if !contains_key(&present, k2) {
            proof {
                lemma_match_problem_persists(ms@, ps, i as int + 1, ms@.len() as int);
            }
            return Err(TeamDraftError::MatchOfAbsentTeam(m.team2));
        }
        placed.push(k1);
        if contains_key(&placed, k2) {
            proof {
                lemma_match_problem_persists(ms@, ps, i as int + 1, ms@.len() as int);
            }
            return Err(TeamDraftError::TeamInTwoMatches(m.team2));
        }
        placed.push(k2);
        pairs.push((k1, k2));
        proof {
            assert(pairs@ =~= match_pairs(ms@).subrange(0, i as int + 1));
        }
        i += 1;
    }
    let ghost matched = placed@;
    let byes = &draft.forced_team_byes;
    let mut keys: Vec<UnitKey> = Vec::new();
    let mut i: usize = 0;
    while i < byes.len()
        invariant
            i <= byes@.len(),
            present@ == ps,
            byes@ == draft.forced_team_byes@,
            draft_outcome(*draft, roster_views(rosters@), min_teams) == forcing_outcome(*draft, ps, min_teams),
            ps.len() >= min_teams,
            match_scan(draft.forced_matches@, ps, draft.forced_matches@.len() as int) == Ok::<Seq<UnitKey>, TeamDraftError>(matched),
            bye_scan(byes@, ps, matched, i as int) == Ok::<Seq<UnitKey>, TeamDraftError>(placed@),
            keys@ == bye_keys(byes@).subrange(0, i as int),
        decreases byes@.len() - i,
    {
        let k = UnitKey::from_team(byes[i]);
        if !contains_key(&present, k) {
            proof {
                lemma_bye_problem_persists(byes@, ps, matched, i as int + 1, byes@.len() as int);
            }
            return Err(TeamDraftError::ByeOfAbsentTeam(byes[i]));
        }
        if contains_key(&placed, k) {
            proof {
                lemma_bye_problem_persists(byes@, ps, matched, i as int + 1, byes@.len() as int);
            }
            return Err(TeamDraftError::TeamForcedTwice(byes[i]));
        }
        placed.push(k);
        keys.push(k);
        proof {
            assert(keys@ =~= bye_keys(byes@).subrange(0, i as int + 1));
        }
        i += 1;
    }
    proof {
        assert(pairs@ =~= match_pairs(ms@));
        assert(keys@ =~= bye_keys(byes@));
    }
    Ok(TeamDraftPlan { present, forced_pairs: pairs, forced_byes: keys })
}

/// A repeat found among the first `a` entries is the one found among more.
proof fn lemma_repeat_persists(s: Seq<TournamentId>, a: int, b: int)
    requires
        0 <= a <= b,
        first_repeat_at(s, a) is Some,
    ensures
        first_repeat_at(s, b) == first_repeat_at(s, a),
    decreases b - a,
{
    if b > a {
        lemma_repeat_persists(s, a, b - 1);
    }
}

/// A problem found among the first `a` forced matches stands.
proof fn lemma_match_problem_persists(ms: Seq<ForcedMatch>, present: Seq<UnitKey>, a: int, b: int)
    requires
        0 <= a <= b,
        match_scan(ms, present, a) is Err,
    ensures
        match_scan(ms, present, b) == match_scan(ms, present, a),
    decreases b - a,
{
    if b > a {
        lemma_match_problem_persists(ms, present, a, b - 1);
    }
}

/// A problem found among the first `a` forced byes stands.
proof fn lemma_bye_problem_persists(byes: Seq<TeamId>, present: Seq<UnitKey>, placed: Seq<UnitKey>, a: int, b: int)
    requires
        0 <= a <= b,
        bye_scan(byes, present, placed, a) is Err,
    ensures
        bye_scan(byes, present, placed, b) == bye_scan(byes, present, placed, a),
    decreases b - a,
{
    if b > a {
        lemma_bye_problem_persists(byes, present, placed, a, b - 1);
    }
}

/// The members of team `t`: those of the first roster numbered `t`, none when
/// no roster is.
pub open spec fn members_of(rosters: Seq<(TeamId, Seq<TournamentId>)>, t: TeamId, n: int) -> Seq<TournamentId>
    decreases n,
{
    if n <= 0 {
        Seq::empty()
    } else if rosters[rosters.len() - n].0 == t {
        rosters[rosters.len() - n].1
    } else {
        members_of(rosters, t, n - 1)
    }
}

/// One full-point sit-out of `kind` per member.
pub open spec fn member_sitouts(members: Seq<TournamentId>, kind: SitoutKind) -> Seq<Sitout> {
    members.map_values(|p: TournamentId| Sitout { player: p, kind, value: SitoutValue::Full })
}

/// The sit-outs of the first `n` byed teams, in order.
pub open spec fn bye_sitouts(rosters: Seq<(TeamId, Seq<TournamentId>)>, byes: Seq<(UnitKey, SitoutKind)>, n: int) -> Seq<Sitout>
    decreases n,
{
    if n <= 0 {
        Seq::empty()
    } else {
        bye_sitouts(rosters, byes, n - 1) + member_sitouts(
            members_of(rosters, TeamId(byes[n - 1].0.0), rosters.len() as int),
            byes[n - 1].1,
        )
    }
}

/// The byed teams: the forced ones, then the engine's.
pub open spec fn byed_teams(forced: Seq<UnitKey>, swiss: Option<UnitKey>) -> Seq<(UnitKey, SitoutKind)> {
    let f = forced.map_values(|k: UnitKey| (k, SitoutKind::ForcedBye));
    match swiss {
        Some(k) => f.push((k, SitoutKind::Bye)),
        None => f,
    }
}

/// Whether `p` sits on one of `boards`.
pub open spec fn on_a_board(boards: Seq<Board>, p: TournamentId) -> bool {
    exists|i: int| 0 <= i < boards.len() && ((#[trigger] boards[i]).player1 == p || boards[i].player2 == p)
}

/// Whether `p` already has one of `rows`.
pub open spec fn has_sitout(rows: Seq<Sitout>, p: TournamentId) -> bool {
    exists|i: int| 0 <= i < rows.len() && (#[trigger] rows[i]).player == p
}

/// The absentees among the first `n` who neither play nor already sit out,
/// each with the absence's value.
pub open spec fn absent_sitouts(
    absent: Seq<TournamentId>,
    boards: Seq<Board>,
    already: Seq<Sitout>,
    value: SitoutValue,
    n: int,
) -> Seq<Sitout>
    decreases n,
{
    if n <= 0 {
        Seq::empty()
    } else {
        let rest = absent_sitouts(absent, boards, already, value, n - 1);
        let p = absent[n - 1];
        if !on_a_board(boards, p) && !has_sitout(already, p) {
            rest.push(Sitout { player: p, kind: SitoutKind::Absent, value })
        } else {
            rest
        }
    }
}

/// The members of team `t` in `rosters` (none when no roster is numbered `t`).
fn roster_of(rosters: &Vec<(TeamId, Vec<TournamentId>)>, t: TeamId) -> (r: Vec<TournamentId>)
    ensures
        r@ == members_of(roster_views(rosters@), t, rosters@.len() as int),
{
    let ghost rv = roster_views(rosters@);
    let mut i: usize = 0;
    while i < rosters.len()
        invariant
            i <= rosters@.len(),
            rv == roster_views(rosters@),
            members_of(rv, t, rosters@.len() as int) == members_of(rv, t, (rosters@.len() - i) as int),
        decreases rosters@.len() - i,
    {
        if rosters[i].0 == t {
            assert(rv[i as int] == (rosters@[i as int].0, rosters@[i as int].1@));
            return rosters[i].1.clone();
        }
        i += 1;
    }
    Vec::new()
}

/// Whether `p` plays on one of `boards`.
fn plays(boards: &Vec<Board>, p: TournamentId) -> (r: bool)
    ensures
        r == on_a_board(boards@, p),
{
    let mut i: usize = 0;
    while i < boards.len()
        invariant
            i <= boards@.len(),
            forall|j: int| 0 <= j < i ==> (#[trigger] boards@[j]).player1 != p && boards@[j].player2 != p,
        decreases boards@.len() - i,
    {
        if boards[i].player1 == p || boards[i].player2 == p {
            return true;
        }
        i += 1;
    }
    false
}

/// A team round's sit-outs: one full-point row per member of each byed team
/// (the forced byes as `ForcedBye`, then the engine's as `Bye`), then one row
/// of `absent_value` per absentee who neither plays a board nor already has
/// a row — an absent member of a playing team keeps the forfeited board.
pub fn team_round_sitouts(
    rosters: &Vec<(TeamId, Vec<TournamentId>)>,
    forced_byes: &Vec<UnitKey>,
    swiss_bye: Option<UnitKey>,
    boards: &Vec<Board>,
    absent: &Vec<TournamentId>,
    absent_value: SitoutValue,
) -> (r: Vec<Sitout>)
    ensures
        ({
            let byed = bye_sitouts(
                roster_views(rosters@),
                byed_teams(forced_byes@, swiss_bye),
                byed_teams(forced_byes@, swiss_bye).len() as int,
            );
            r@ == byed + absent_sitouts(absent@, boards@, byed, absent_value, absent@.len() as int)
        }),
{
    let ghost rv = roster_views(rosters@);
    let ghost byed = byed_teams(forced_byes@, swiss_bye);
    let mut keys: Vec<(UnitKey, SitoutKind)> = Vec::new();
    let mut i: usize = 0;
    while i < forced_byes.len()
        invariant
            i <= forced_byes@.len(),
            keys@ == forced_byes@.subrange(0, i as int).map_values(|k: UnitKey| (k, SitoutKind::ForcedBye)),
        decreases forced_byes@.len() - i,
    {
        keys.push((forced_byes[i], SitoutKind::ForcedBye));
        proof {
            assert(keys@ =~= forced_byes@.subrange(0, i as int + 1).map_values(|k: UnitKey| (k, SitoutKind::ForcedBye)));
        }
        i += 1;
    }
    proof {
        assert(forced_byes@.subrange(0, forced_byes@.len() as int) =~= forced_byes@);
    }
    if let Some(k) = swiss_bye {
        keys.push((k, SitoutKind::Bye));
    }
    assert(keys@ =~= byed);
    let mut rows: Vec<Sitout> = Vec::new();
    let mut t: usize = 0;
    while t < keys.len()
        invariant
            t <= keys@.len(),
            keys@ == byed,
            rv == roster_views(rosters@),
            rows@ == bye_sitouts(rv, byed, t as int),
        decreases keys@.len() - t,
    {
        let (key, kind) = keys[t];
        let members = roster_of(rosters, TeamId(key.0));
        let ghost before = rows@;
        let mut m: usize = 0;
        while m < members.len()
            invariant
                m <= members@.len(),
                rows@ == before + member_sitouts(members@.subrange(0, m as int), kind),
            decreases members@.len() - m,
        {
            rows.push(Sitout { player: members[m], kind, value: SitoutValue::Full });
            proof {
                assert(rows@ =~= before + member_sitouts(members@.subrange(0, m as int + 1), kind));
            }
            m += 1;
        }
        proof {
            assert(members@.subrange(0, members@.len() as int) =~= members@);
        }
        t += 1;
    }
    let ghost already = rows@;
    let base = rows.len();
    let mut a: usize = 0;
    while a < absent.len()
        invariant
            a <= absent@.len(),
            base == already.len(),
            already.len() <= rows@.len(),
            rows@.subrange(0, already.len() as int) == already,
            rows@ == already + absent_sitouts(absent@, boards@, already, absent_value, a as int),
        decreases absent@.len() - a,
    {
        let p = absent[a];
        let free = !plays(boards, p) && !sits_out_among(&rows, p, base);
        if free {
            rows.push(Sitout { player: p, kind: SitoutKind::Absent, value: absent_value });
        }
        proof {
            let next = absent_sitouts(absent@, boards@, already, absent_value, a as int + 1);
            if free {
                assert(rows@ =~= already + next);
            } else {
                assert(next == absent_sitouts(absent@, boards@, already, absent_value, a as int));
            }
            assert(rows@.subrange(0, already.len() as int) =~= already);
        }
        a += 1;
    }
    rows
}

/// Whether `p` has one of the first `n` of `rows`.
fn sits_out_among(rows: &Vec<Sitout>, p: TournamentId, n: usize) -> (r: bool)
    requires
        n <= rows@.len(),
    ensures
        r == has_sitout(rows@.subrange(0, n as int), p),
{
    let mut i: usize = 0;
    while i < n
        invariant
            i <= n,
            n <= rows@.len(),
            forall|j: int| 0 <= j < i ==> (#[trigger] rows@[j]).player != p,
        decreases n - i,
    {
        if rows[i].player == p {
            assert(rows@.subrange(0, n as int)[i as int].player == p);
            return true;
        }
        i += 1;
    }
    proof {
        if has_sitout(rows@.subrange(0, n as int), p) {
            let j = choose|j: int| 0 <= j < n && (#[trigger] rows@.subrange(0, n as int)[j]).player == p;
            assert(rows@[j].player == p);
        }
    }
    false
}

/// A side's absence when its player is marked absent: justified, since an
/// absentee of a playing team is excused rather than a no-show.
pub open spec fn absence_of(absent: Seq<TournamentId>, p: TournamentId) -> Option<AbsenceKind> {
    if absent.contains(p) {
        Some(AbsenceKind::Justified)
    } else {
        None
    }
}

/// Board `b` once its absent sides are recorded: forfeited, naming each
/// absent side, where either side is absent; unchanged otherwise.
pub open spec fn with_absences(b: Board, absent: Seq<TournamentId>) -> Board {
    match (absence_of(absent, b.player1), absence_of(absent, b.player2)) {
        (None, None) => b,
        (Some(x), None) => Board { outcome: Outcome::Forfeit { absent: Forfeit::Player1(x) }, ..b },
        (None, Some(y)) => Board { outcome: Outcome::Forfeit { absent: Forfeit::Player2(y) }, ..b },
        (Some(x), Some(y)) => Board { outcome: Outcome::Forfeit { absent: Forfeit::Both(x, y) }, ..b },
    }
}

/// Whether `p` is in `absent`.
fn is_absent(absent: &Vec<TournamentId>, p: TournamentId) -> (r: Option<AbsenceKind>)
    ensures
        r == absence_of(absent@, p),
{
    let mut i: usize = 0;
    while i < absent.len()
        invariant
            i <= absent@.len(),
            forall|j: int| 0 <= j < i ==> absent@[j] != p,
        decreases absent@.len() - i,
    {
        if absent[i] == p {
            assert(absent@.contains(absent@[i as int]));
            return Some(AbsenceKind::Justified);
        }
        i += 1;
    }
    None
}

/// Record the absent members of the playing teams: each board with an absent
/// side is created already forfeited, the absence justified — the opponent
/// wins the board and the cell says why.
pub fn forfeit_absent_boards(boards: &mut Vec<Board>, absent: &Vec<TournamentId>)
    ensures
        final(boards)@.len() == old(boards)@.len(),
        forall|i: int| 0 <= i < old(boards)@.len() ==> #[trigger] final(boards)@[i] == with_absences(old(boards)@[i], absent@),
{
    let ghost start = boards@;
    let mut i: usize = 0;
    while i < boards.len()
        invariant
            i <= boards@.len(),
            boards@.len() == start.len(),
            forall|j: int| 0 <= j < i ==> #[trigger] boards@[j] == with_absences(start[j], absent@),
            forall|j: int| i <= j < boards@.len() ==> #[trigger] boards@[j] == start[j],
        decreases boards@.len() - i,
    {
        let b = &boards[i];
        let forfeit = Forfeit::of(is_absent(absent, b.player1), is_absent(absent, b.player2));
        if let Some(f) = forfeit {
            let nb = Board {
                player1: b.player1,
                player2: b.player2,
                outcome: Outcome::Forfeit { absent: f },
                handicap: b.handicap,
                points_diff: b.points_diff,
                source: b.source,
                long: b.long,
            };
            boards.set(i, nb);
        }
        proof {
            assert(boards@[i as int] == with_absences(start[i as int], absent@));
        }
        i += 1;
    }
}

} // verus!
