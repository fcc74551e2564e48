//! Teams: the unit of pairing and ranking in a team tournament — the roster
//! record, and the rating arithmetic team averages are built on.

use vstd::prelude::*;

use std::cmp::Ordering;

use uuid::Uuid;

use crate::player::{Player, PointAdjustment};
use crate::text::{ascii_lower_seq, trim};
use crate::units::TeamId;

verus! {

/// A registered team.
#[derive(Debug, Clone, PartialEq, Eq)]
pub struct Team {
    /// Stable identity — survives a rename or a roster edit.
    pub id: Uuid,
    /// Dense 1-based team number, assigned at finalization.
    pub tournament_id: Option<TeamId>,
    /// Non-empty, and unique among the tournament's teams case-insensitively.
    pub name: String,
    /// The members in board order (index 0 = board 1).
    pub members: Vec<Uuid>,
    /// Manual point bonuses/maluses applied to this team.
    pub adjustments: Vec<PointAdjustment>,
}

impl Team {
    /// A new team with no members yet, under a fresh random id.
    pub fn new(name: String) -> (r: Self)
        ensures
            r.tournament_id is None,
            r.name@ == name@,
            r.members@.len() == 0,
            r.adjustments@.len() == 0,
    {
        Team {
            id: crate::ids::new_id(),
            tournament_id: None,
            name,
            members: Vec::new(),
            adjustments: Vec::new(),
        }
    }

    /// Two team names collide when they are equal ignoring ASCII case and
    /// surrounding space.
    pub fn same_name(a: &str, b: &str) -> (r: bool)
        ensures
            r == (ascii_lower_seq(trim(a@)) == ascii_lower_seq(trim(b@))),
    {
        let ta = crate::text::trimmed(a);
        let tb = crate::text::trimmed(b);
        let ca = crate::text::chars_of(ta.as_str());
        let cb = crate::text::chars_of(tb.as_str());
        let la = crate::text::lower_ascii_chars(ca.as_slice());
        let lb = crate::text::lower_ascii_chars(cb.as_slice());
        crate::text::chars_equal(la.as_slice(), lb.as_slice())
    }
}

/// A player's pairing rating: their real rating, else the referee-assigned
/// stand-in for an unrated team member.
pub open spec fn pairing_rating_of(p: Player) -> Option<u32> {
    match p.rating {
        Some(r) => Some(r),
        None => p.pairing_rating,
    }
}

/// A player's **pairing rating**: their real rating, or the referee-assigned
/// stand-in for an unrated team member.
pub fn pairing_rating(player: &Player) -> (r: Option<u32>)
    ensures
        r == pairing_rating_of(*player),
{
    match player.rating {
        Some(r) => Some(r),
        None => player.pairing_rating,
    }
}

/// The sum of `s`.
pub open spec fn total(s: Seq<u32>) -> int
    decreases s.len(),
{
    if s.len() == 0 {
        0
    } else {
        total(s.drop_last()) + s.last()
    }
}

/// The mean of `s` rounded to nearest (halves up); `None` when empty.
pub open spec fn rounded_mean(s: Seq<u32>) -> Option<int> {
    if s.len() == 0 {
        None
    } else {
        Some((total(s) + s.len() / 2) / (s.len() as int))
    }
}

proof fn lemma_total_bound(s: Seq<u32>)
    ensures
        0 <= total(s) <= s.len() * (u32::MAX as int),
    decreases s.len(),
{
    if s.len() > 0 {
        lemma_total_bound(s.drop_last());
    }
}

/// Integer mean, rounded to nearest; `None` for an empty slice.
pub fn mean(values: &[u32]) -> (r: Option<u32>)
    requires
        values@.len() <= u32::MAX,
    ensures
        r matches Some(m) ==> rounded_mean(values@) == Some(m as int),
        r is None <==> rounded_mean(values@) is None,
{
    if values.len() == 0 {
        return None;
    }
    let mut sum: u64 = 0;
    let mut i: usize = 0;
    while i < values.len()
        invariant
            i <= values@.len(),
            values@.len() <= u32::MAX,
            sum == total(values@.subrange(0, i as int)),
        decreases values@.len() - i,
    {
        proof {
            assert(values@.subrange(0, i as int + 1).drop_last() =~= values@.subrange(0, i as int));
            lemma_total_bound(values@.subrange(0, i as int + 1));
            assert((i + 1) * (u32::MAX as int) <= (u32::MAX as int) * (u32::MAX as int)) by (nonlinear_arith)
                requires
                    i + 1 <= u32::MAX,
            ;
        }
        sum = sum + values[i] as u64;
        i += 1;
    }
    let n: u64 = values.len() as u64;
    proof {
        assert(values@.subrange(0, values@.len() as int) =~= values@);
        lemma_total_bound(values@);
        let t = total(values@);
        assert(t <= n * (u32::MAX as int));
        assert(t + n / 2 <= (u32::MAX as int) * (u32::MAX as int) + (u32::MAX as int)) by (nonlinear_arith)
            requires
                t <= n * (u32::MAX as int),
                n <= u32::MAX,
        ;
        assert((t + n / 2) / (n as int) <= u32::MAX) by (nonlinear_arith)
            requires
                t <= n * (u32::MAX as int),
                n >= 1,
        ;
    }
    let m = (sum + n / 2) / n;
    Some(m as u32)
}

/// The average pairing rating over a roster: `None` for an empty roster and
/// unless every member has one.
pub open spec fn roster_average(members: Seq<Player>) -> Option<int> {
    if members.len() == 0 || exists|i: int| 0 <= i < members.len() && pairing_rating_of(
        #[trigger] members[i],
    ) is None {
        None
    } else {
        rounded_mean(members.map_values(|p: Player| pairing_rating_of(p).unwrap()))
    }
}

/// The average pairing rating over a roster — `None` unless *every* member
/// has one, and for an empty roster.
pub fn average_pairing_rating(members: &[&Player]) -> (r: Option<u32>)
    requires
        members@.len() <= u32::MAX,
    ensures
        r matches Some(m) ==> roster_average(members@.map_values(|p: &Player| *p)) == Some(m as int),
        r is None <==> roster_average(members@.map_values(|p: &Player| *p)) is None,
{
    let ghost ps = members@.map_values(|p: &Player| *p);
    if members.len() == 0 {
        return None;
    }
    let mut rated: Vec<u32> = Vec::new();
    let mut i: usize = 0;
    while i < members.len()
        invariant
            i <= members@.len(),
            ps == members@.map_values(|p: &Player| *p),
            rated@.len() == i,
            forall|j: int| 0 <= j < i ==> pairing_rating_of(#[trigger] ps[j]) == Some(rated@[j]),
        decreases members@.len() - i,
    {
        match pairing_rating(members[i]) {
            Some(v) => rated.push(v),
            None => {
                assert(pairing_rating_of(ps[i as int]) is None);
                return None;
            },
        }
        i += 1;
    }
    assert(rated@ =~= ps.map_values(|p: Player| pairing_rating_of(p).unwrap()));
    mean(rated.as_slice())
}

/// Whether pairing rating `a` takes a board ahead of `b`: stronger first,
/// unrated last.
pub open spec fn board_before(a: Option<u32>, b: Option<u32>) -> bool {
    match (a, b) {
        (Some(x), Some(y)) => x > y,
        (Some(_), None) => true,
        _ => false,
    }
}

/// Board-order comparison of two pairing ratings: stronger first, unrated last.
pub fn by_pairing_rating(a: Option<u32>, b: Option<u32>) -> (r: Ordering)
    ensures
        (r == Ordering::Less) == board_before(a, b),
        (r == Ordering::Greater) == board_before(b, a),
{
    match (a, b) {
        (Some(x), Some(y)) => {
            if y < x {
                Ordering::Less
            } else if y == x {
                Ordering::Equal
            } else {
                Ordering::Greater
            }
        },
        (Some(_), None) => Ordering::Less,
        (None, Some(_)) => Ordering::Greater,
        (None, None) => Ordering::Equal,
    }
}

/// Whether pairing rating `a` takes a board ahead of `b`.
fn outranks(a: Option<u32>, b: Option<u32>) -> (r: bool)
    ensures
        r == board_before(a, b),
{
    match by_pairing_rating(a, b) {
        Ordering::Less => true,
        Ordering::Equal => false,
        Ordering::Greater => false,
    }
}

/// The board a newcomer with pairing rating `rating` takes in a roster whose
/// members have the pairing ratings `roster`: in front of the first member
/// they outrank, else last. Nothing already on the roster moves relative to
/// anything else.
pub fn newcomer_board(roster: &Vec<Option<u32>>, rating: Option<u32>) -> (r: usize)
    ensures
        r <= roster@.len(),
        forall|j: int| 0 <= j < r ==> !board_before(rating, #[trigger] roster@[j]),
        r < roster@.len() ==> board_before(rating, roster@[r as int]),
{
    let mut i: usize = 0;
    while i < roster.len()
        invariant
            i <= roster@.len(),
            forall|j: int| 0 <= j < i ==> !board_before(rating, #[trigger] roster@[j]),
        decreases roster@.len() - i,
    {
        if outranks(rating, roster[i]) {
            return i;
        }
        i += 1;
    }
    i
}

/// `x` placed into `s` past every trailing member it does not outrank: the
/// insertion step of a stable sort by board order.
pub open spec fn insert_member(s: Seq<(Uuid, Option<u32>)>, x: (Uuid, Option<u32>)) -> Seq<(Uuid, Option<u32>)>
    decreases s.len(),
{
    if s.len() == 0 || !board_before(x.1, s.last().1) {
        s.push(x)
    } else {
        insert_member(s.drop_last(), x).push(s.last())
    }
}

/// Members stably sorted into board order: stronger first, unrated last,
/// equals in their current relative order.
pub open spec fn board_sorted(s: Seq<(Uuid, Option<u32>)>) -> Seq<(Uuid, Option<u32>)>
    decreases s.len(),
{
    if s.len() == 0 {
        s
    } else {
        insert_member(board_sorted(s.drop_last()), s.last())
    }
}

proof fn lemma_insert_member_at(s: Seq<(Uuid, Option<u32>)>, x: (Uuid, Option<u32>), p: int)
    requires
        0 <= p <= s.len(),
        p == 0 || !board_before(x.1, s[p - 1].1),
        forall|j: int| p <= j < s.len() ==> board_before(x.1, (#[trigger] s[j]).1),
    ensures
        insert_member(s, x) == s.insert(p, x),
    decreases s.len(),
{
    if s.len() == 0 {
        assert(s.insert(p, x) =~= s.push(x));
    } else if !board_before(x.1, s.last().1) {
        assert(p == s.len());
        assert(s.insert(p, x) =~= s.push(x));
    } else {
        let d = s.drop_last();
        assert forall|j: int| p <= j < d.len() implies board_before(x.1, (#[trigger] d[j]).1) by {
            assert(d[j] == s[j]);
        }
        lemma_insert_member_at(d, x, p);
        assert(d.insert(p, x).push(s.last()) =~= s.insert(p, x));
    }
}

/// The members' ids in board order by pairing rating — stronger first,
/// unrated last, equals keeping their current relative order.
pub fn board_order(ranked: &Vec<(Uuid, Option<u32>)>) -> (r: Vec<Uuid>)
    ensures
        r@ == board_sorted(ranked@).map_values(|m: (Uuid, Option<u32>)| m.0),
{
    let mut sorted: Vec<(Uuid, Option<u32>)> = Vec::new();
    let mut i: usize = 0;
    assert(ranked@.take(0) =~= Seq::<(Uuid, Option<u32>)>::empty());
    while i < ranked.len()
        invariant
            i <= ranked@.len(),
            sorted@ == board_sorted(ranked@.take(i as int)),
        decreases ranked@.len() - i,
    {
        let x = (ranked[i].0.clone(), ranked[i].1);
        assert(x == ranked@[i as int]);
        let mut p: usize = sorted.len();
        while p > 0 && outranks(x.1, sorted[p - 1].1)
            invariant
                p <= sorted@.len(),
                forall|j: int| p <= j < sorted@.len() ==> board_before(x.1, (#[trigger] sorted@[j]).1),
            decreases p,
        {
            p -= 1;
        }
        proof {
            lemma_insert_member_at(sorted@, x, p as int);
            let next = ranked@.take(i as int + 1);
            assert(next.drop_last() =~= ranked@.take(i as int));
            assert(next.last() == x);
        }
        sorted.insert(p, x);
        i += 1;
    }
    assert(ranked@.take(ranked@.len() as int) =~= ranked@);
    let mut out: Vec<Uuid> = Vec::new();
    let mut k: usize = 0;
    while k < sorted.len()
        invariant
            k <= sorted@.len(),
            out@ == sorted@.take(k as int).map_values(|m: (Uuid, Option<u32>)| m.0),
        decreases sorted@.len() - k,
    {
        out.push(sorted[k].0.clone());
        k += 1;
        assert(out@ =~= sorted@.take(k as int).map_values(|m: (Uuid, Option<u32>)| m.0));
    }
    assert(sorted@.take(sorted@.len() as int) =~= sorted@);
    out
}

/// Whether `order` is a permutation of `members`: the same length, nobody
/// repeated, nobody from outside.
pub open spec fn is_reordering(order: Seq<Uuid>, members: Seq<Uuid>) -> bool {
    &&& order.len() == members.len()
    &&& forall|i: int| 0 <= i < order.len() ==> members.contains(#[trigger] order[i])
    &&& order.no_duplicates()
}

/// Whether a proposed board order names exactly the team's members: the
/// same number of them, each a member, none twice.
pub fn is_board_order(order: &Vec<Uuid>, members: &Vec<Uuid>) -> (r: bool)
    ensures
        r == is_reordering(order@, members@),
{
    if order.len() != members.len() {
        return false;
    }
    let mut i: usize = 0;
    while i < order.len()
        invariant
            i <= order@.len(),
            order@.len() == members@.len(),
            forall|a: int| 0 <= a < i ==> members@.contains(#[trigger] order@[a]),
            forall|a: int, b: int| 0 <= a < b < i ==> order@[a] != order@[b],
        decreases order@.len() - i,
    {
        let mut found = false;
        let mut j: usize = 0;
        while j < members.len()
            invariant
                j <= members@.len(),
                i < order@.len(),
                found == exists|q: int| 0 <= q < j && members@[q] == order@[i as int],
            decreases members@.len() - j,
        {
            if crate::ids::id_eq(&members[j], &order[i]) {
                found = true;
            }
            j += 1;
        }
        if !found {
            assert(!members@.contains(order@[i as int]));
            return false;
        }
        let mut k: usize = 0;
        while k < i
            invariant
                k <= i,
                i < order@.len(),
                forall|a: int| 0 <= a < k ==> order@[a] != order@[i as int],
            decreases i - k,
        {
            if crate::ids::id_eq(&order[k], &order[i]) {
                assert(!order@.no_duplicates());
                return false;
            }
            k += 1;
        }
        i += 1;
    }
    true
}

/// A rated player pairs on their rating, whatever stand-in is recorded; an
/// unrated one on the stand-in, if any.
pub proof fn lemma_pairing_rating_prefers_the_real_rating(p: Player)
    ensures
        p.rating is Some ==> pairing_rating_of(p) == p.rating,
        p.rating is None ==> pairing_rating_of(p) == p.pairing_rating,
{
}

/// Board order: a stronger rating goes first, any rating goes before none,
/// and an unrated member goes before nobody; the order never puts two
/// members each before the other.
pub proof fn lemma_board_order_is_strength_first(a: Option<u32>, b: Option<u32>, x: u32, y: u32)
    ensures
        board_before(Some(x), Some(y)) <==> x > y,
        board_before(Some(x), None),
        !board_before(None, a),
        !(board_before(a, b) && board_before(b, a)),
        !board_before(a, a),
{
}

/// The team average lies between the weakest and the strongest rating it
/// averages, and is that rating when all are equal.
pub proof fn lemma_rounded_mean_within_range(s: Seq<u32>, lo: u32, hi: u32)
    requires
        s.len() > 0,
        forall|i: int| 0 <= i < s.len() ==> lo <= #[trigger] s[i] <= hi,
    ensures
        rounded_mean(s) matches Some(m) && lo <= m <= hi,
        lo == hi ==> rounded_mean(s) == Some(lo as int),
{
    lemma_total_between(s, lo, hi);
    let n = s.len() as int;
    let t = total(s);
    assert(n * lo <= t <= n * hi);
    assert(lo <= (t + n / 2) / n <= hi) by (nonlinear_arith)
        requires
            n > 0,
            n * lo <= t <= n * hi,
            0 <= lo,
    ;
    if lo == hi {
        assert((n * lo + n / 2) / n == lo) by (nonlinear_arith)
            requires
                n > 0,
                0 <= lo,
        ;
    }
}

/// The total of values in `[lo, hi]` lies between `n·lo` and `n·hi`.
proof fn lemma_total_between(s: Seq<u32>, lo: u32, hi: u32)
    requires
        forall|i: int| 0 <= i < s.len() ==> lo <= #[trigger] s[i] <= hi,
    ensures
        s.len() * (lo as int) <= total(s) <= s.len() * (hi as int),
    decreases s.len(),
{
    if s.len() > 0 {
        let init = s.drop_last();
        assert forall|i: int| 0 <= i < init.len() implies lo <= #[trigger] init[i] <= hi by {
            assert(init[i] == s[i]);
        }
        lemma_total_between(init, lo, hi);
        assert(lo <= s.last() <= hi);
        assert(s.len() * (lo as int) == init.len() * (lo as int) + lo) by (nonlinear_arith)
            requires
                s.len() == init.len() + 1,
        ;
        assert(s.len() * (hi as int) == init.len() * (hi as int) + hi) by (nonlinear_arith)
            requires
                s.len() == init.len() + 1,
        ;
    }
}

} // verus!
