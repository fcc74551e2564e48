//! Standings and tie-breaks.
//!
//! The ranked table is derived from the completed rounds only. Each player's
//! score is their points (MacMahon start plus victories). The table is ranked
//! by the configured criteria in order, and finally by tournament number, so
//! the order is always deterministic. Every tie-break metric is computed for
//! every player; each opponent-sum metric comes in a MacMahon-inclusive
//! (`…M`) and a wins-only (`…W`) flavour.

use vstd::prelude::*;

use vstd::multiset::Multiset;

use uuid::Uuid;

use crate::ids::id_eq;
use crate::player::Player;
use crate::round::Round;
use crate::scoring::{
    compute_scores, defeated_after, estimate_at, lemma_replayed_points_fit, max_number,
    opponents_after, replay_fits, replayed, running_wins_after, start_base, start_fits,
    start_halves, tid_of, total, wins_after, Scores,
};
use crate::settings::{mm_from_estimate, rated_pinned, wiel_of, Tiebreak, TournamentSettings};
use crate::tables::{id_rows, score_rows};
use crate::units::{HalfPoints, TournamentId, Wins};

verus! {

/// Every ranking criterion a player's standing and a team's compute the same
/// way: the ten opponent-sum tie-breaks, the two cumulative sums and direct
/// confrontation.
#[derive(Debug, Clone, Copy, PartialEq, Eq, Structural)]
pub struct Tiebreaks {
    /// Sum of opponents' points.
    pub sosm: HalfPoints,
    /// Sum of opponents' wins.
    pub sosw: Wins,
    /// Sum of defeated opponents' points.
    pub sodosm: HalfPoints,
    /// Sum of defeated opponents' wins.
    pub sodosw: Wins,
    /// Sum of opponents' SOSM.
    pub sososm: HalfPoints,
    /// Sum of opponents' SOSW.
    pub sososw: Wins,
    /// SOSM dropping the single lowest-scoring opponent.
    pub sosm1: HalfPoints,
    /// SOSM dropping the two lowest-scoring opponents.
    pub sosm2: HalfPoints,
    /// SOSW dropping the single lowest-scoring opponent.
    pub sosw1: Wins,
    /// SOSW dropping the two lowest-scoring opponents.
    pub sosw2: Wins,
    /// Cumulative sum of the running points total after each round.
    pub cussm: HalfPoints,
    /// Cumulative sum of the running win total after each round.
    pub cussw: Wins,
    /// Direct confrontation: wins against the others still tied once every
    /// earlier criterion ran out.
    pub dc: Wins,
}

/// The value of a shared criterion in a tie-break block, `None` for the
/// score and the per-row extras.
pub open spec fn tiebreak_value(t: Tiebreaks, tb: Tiebreak) -> Option<u32> {
    match tb {
        Tiebreak::SosM => Some(t.sosm.0),
        Tiebreak::SosW => Some(t.sosw.0),
        Tiebreak::SodosM => Some(t.sodosm.0),
        Tiebreak::SodosW => Some(t.sodosw.0),
        Tiebreak::SososM => Some(t.sososm.0),
        Tiebreak::SososW => Some(t.sososw.0),
        Tiebreak::SosM1 => Some(t.sosm1.0),
        Tiebreak::SosM2 => Some(t.sosm2.0),
        Tiebreak::SosW1 => Some(t.sosw1.0),
        Tiebreak::SosW2 => Some(t.sosw2.0),
        Tiebreak::CussM => Some(t.cussm.0),
        Tiebreak::CussW => Some(t.cussw.0),
        Tiebreak::Dc => Some(t.dc.0),
        Tiebreak::Points | Tiebreak::BoardWins | Tiebreak::EstElo => None,
    }
}

impl Tiebreaks {
    /// All zero.
    pub fn zeroed() -> (r: Tiebreaks)
        ensures
            r.sosm.0 == 0 && r.sosw.0 == 0 && r.sodosm.0 == 0 && r.sodosw.0 == 0 && r.sososm.0 == 0
                && r.sososw.0 == 0 && r.sosm1.0 == 0 && r.sosm2.0 == 0 && r.sosw1.0 == 0 && r.sosw2.0 == 0
                && r.cussm.0 == 0 && r.cussw.0 == 0 && r.dc.0 == 0,
    {
        Tiebreaks {
            sosm: HalfPoints(0),
            sosw: Wins(0),
            sodosm: HalfPoints(0),
            sodosw: Wins(0),
            sososm: HalfPoints(0),
            sososw: Wins(0),
            sosm1: HalfPoints(0),
            sosm2: HalfPoints(0),
            sosw1: Wins(0),
            sosw2: Wins(0),
            cussm: HalfPoints(0),
            cussw: Wins(0),
            dc: Wins(0),
        }
    }

    /// This block's value for a ranking criterion, as a plain ordinal, or
    /// `None` for a criterion the block doesn't carry.
    pub fn value(&self, tb: Tiebreak) -> (r: Option<u32>)
        ensures
            r == tiebreak_value(*self, tb),
    {
        match tb {
            Tiebreak::SosM => Some(self.sosm.0),
            Tiebreak::SosW => Some(self.sosw.0),
            Tiebreak::SodosM => Some(self.sodosm.0),
            Tiebreak::SodosW => Some(self.sodosw.0),
            Tiebreak::SososM => Some(self.sososm.0),
            Tiebreak::SososW => Some(self.sososw.0),
            Tiebreak::SosM1 => Some(self.sosm1.0),
            Tiebreak::SosM2 => Some(self.sosm2.0),
            Tiebreak::SosW1 => Some(self.sosw1.0),
            Tiebreak::SosW2 => Some(self.sosw2.0),
            Tiebreak::CussM => Some(self.cussm.0),
            Tiebreak::CussW => Some(self.cussw.0),
            Tiebreak::Dc => Some(self.dc.0),
            Tiebreak::Points | Tiebreak::BoardWins | Tiebreak::EstElo => None,
        }
    }
}

/// `s` is in ascending order.
pub open spec fn sorted_up(s: Seq<u32>) -> bool {
    forall|i: int, j: int| 0 <= i <= j < s.len() ==> s[i] <= s[j]
}

/// The sum of `s` from position `k` on.
pub open spec fn sum_from(s: Seq<u32>, k: int) -> int
    decreases s.len() - k,
{
    if k < 0 || k >= s.len() {
        0
    } else {
        s[k] + sum_from(s, k + 1)
    }
}

/// The sum of all of `s`.
pub open spec fn seq_sum(s: Seq<u32>) -> int {
    sum_from(s, 0)
}

/// `r` is the sum of `scores` after dropping the `drop` lowest: the sum from
/// position `drop` of their ascending arrangement (which is unique).
pub open spec fn cut_sum(scores: Seq<u32>, drop: int, r: int) -> bool {
    exists|s: Seq<u32>| #[trigger] sorted_up(s) && s.to_multiset() == scores.to_multiset() && r == sum_from(s, drop)
}

/// Inserting `x` into an ascending sequence at the first position not below
/// it keeps the sequence ascending.
proof fn lemma_insert_sorted(s: Seq<u32>, p: int, x: u32)
    requires
        sorted_up(s),
        0 <= p <= s.len(),
        forall|i: int| 0 <= i < p ==> s[i] < x,
        p < s.len() ==> x <= s[p],
    ensures
        sorted_up(s.insert(p, x)),
{
    let t = s.insert(p, x);
    assert forall|i: int, j: int| 0 <= i <= j < t.len() implies t[i] <= t[j] by {
        if i < p && j < p {
        } else if i < p && j == p {
        } else if i < p {
            assert(s[i] <= s[j - 1]);
        } else if i == p && j > p {
            assert(x <= s[p]);
            assert(s[p] <= s[j - 1]);
        } else if i > p {
            assert(s[i - 1] <= s[j - 1]);
        }
    }
}

/// Sort ascending (a verified insertion sort).
pub fn sort_ascending(v: &Vec<u32>) -> (r: Vec<u32>)
    ensures
        sorted_up(r@),
        r@.to_multiset() == v@.to_multiset(),
{
    broadcast use vstd::seq_lib::group_to_multiset_ensures;

    let mut out: Vec<u32> = Vec::new();
    let mut i: usize = 0;
    while i < v.len()
        invariant
            i <= v@.len(),
            sorted_up(out@),
            out@.to_multiset() == v@.subrange(0, i as int).to_multiset(),
            out@.len() == i,
        decreases v@.len() - i,
    {
        let x = v[i];
        let mut p: usize = 0;
        while p < out.len() && out[p] < x
            invariant
                p <= out@.len(),
                forall|q: int| 0 <= q < p ==> out@[q] < x,
            decreases out@.len() - p,
        {
            p += 1;
        }
        proof {
            lemma_insert_sorted(out@, p as int, x);
            assert(v@.subrange(0, i + 1) =~= v@.subrange(0, i as int).push(x));
        }
        let ghost before = out@;
        out.insert(p, x);
        proof {
            assert(out@ =~= before.insert(p as int, x));
            vstd::seq_lib::to_multiset_insert(before, p as int, x);
            vstd::seq_lib::to_multiset_build(v@.subrange(0, i as int), x);
        }
        i += 1;
    }
    assert(v@.subrange(0, v@.len() as int) =~= v@);
    out
}

/// Two ascending arrangements of the same scores are equal.
pub proof fn lemma_sorted_unique(s: Seq<u32>, t: Seq<u32>)
    requires
        sorted_up(s),
        sorted_up(t),
        s.to_multiset() == t.to_multiset(),
    ensures
        s == t,
    decreases s.len(),
{
    broadcast use vstd::seq_lib::group_to_multiset_ensures;

    assert(s.len() == t.to_multiset().len() && t.len() == s.to_multiset().len());
    if s.len() > 0 {
        // The last element of each is the largest of the common multiset.
        let a = s.last();
        let b = t.last();
        assert(s.to_multiset().contains(a));
        assert(t.to_multiset().contains(a));
        assert(t.contains(a));
        assert(t.to_multiset().contains(b));
        assert(s.to_multiset().contains(b));
        assert(s.contains(b));
        let i = choose|i: int| 0 <= i < t.len() && t[i] == a;
        let j = choose|j: int| 0 <= j < s.len() && s[j] == b;
        assert(a <= b);
        assert(b <= a);
        let s2 = s.drop_last();
        let t2 = t.drop_last();
        assert(s =~= s2.push(a));
        assert(t =~= t2.push(b));
        assert(s2.to_multiset() =~= s.to_multiset().remove(a));
        assert(t2.to_multiset() =~= t.to_multiset().remove(b));
        assert forall|x: int, y: int| 0 <= x <= y < s2.len() implies s2[x] <= s2[y] by {
            assert(s[x] <= s[y]);
        }
        assert forall|x: int, y: int| 0 <= x <= y < t2.len() implies t2[x] <= t2[y] by {
            assert(t[x] <= t[y]);
        }
        lemma_sorted_unique(s2, t2);
    }
}

/// Sums from a position, over sequences agreeing from there on, agree; and
/// a suffix sum is at most the whole sum.
proof fn lemma_sum_from_le(s: Seq<u32>, k: int)
    requires
        0 <= k,
    ensures
        0 <= sum_from(s, k) <= seq_sum(s),
    decreases k,
{
    if k > 0 {
        lemma_sum_from_le(s, k - 1);
        if k - 1 < s.len() {
        }
    }
    lemma_sum_nonneg(s, k);
}

/// Suffix sums are non-negative.
proof fn lemma_sum_nonneg(s: Seq<u32>, k: int)
    ensures
        0 <= sum_from(s, k),
    decreases s.len() - k,
{
    if 0 <= k < s.len() {
        lemma_sum_nonneg(s, k + 1);
    }
}

/// Rearranging a sequence keeps its sum.
proof fn lemma_sum_permutation(s: Seq<u32>, t: Seq<u32>)
    requires
        s.to_multiset() == t.to_multiset(),
    ensures
        seq_sum(s) == seq_sum(t),
    decreases s.len(),
{
    broadcast use vstd::seq_lib::group_to_multiset_ensures;

    assert(s.len() == t.to_multiset().len() && t.len() == s.to_multiset().len());
    if s.len() > 0 {
        let a = s[0];
        assert(s.to_multiset().contains(a));
        assert(t.contains(a));
        let j = choose|j: int| 0 <= j < t.len() && t[j] == a;
        let s2 = s.subrange(1, s.len() as int);
        let t2 = t.remove(j);
        assert(s =~= seq![a] + s2);
        assert(s2.to_multiset() =~= s.to_multiset().remove(a)) by {
            assert(s2 =~= s.remove(0));
        }
        assert(t2.to_multiset() =~= t.to_multiset().remove(a));
        lemma_sum_permutation(s2, t2);
        lemma_sum_shift(s, s2);
        lemma_sum_remove(t, j);
    }
}

/// The sum of a sequence is its head plus the sum of its tail.
proof fn lemma_sum_shift(s: Seq<u32>, s2: Seq<u32>)
    requires
        s.len() > 0,
        s2 == s.subrange(1, s.len() as int),
    ensures
        seq_sum(s) == s[0] + seq_sum(s2),
{
    lemma_sum_from_offset(s, s2, 1, 0);
}

/// Suffix sums line up across a shift.
proof fn lemma_sum_from_offset(s: Seq<u32>, s2: Seq<u32>, d: int, k: int)
    requires
        0 <= d <= s.len(),
        s2 == s.subrange(d, s.len() as int),
        0 <= k,
    ensures
        sum_from(s2, k) == sum_from(s, k + d),
    decreases s2.len() - k,
{
    if k < s2.len() {
        lemma_sum_from_offset(s, s2, d, k + 1);
    }
}

/// Removing the element at `j` takes it off the sum.
proof fn lemma_sum_remove(t: Seq<u32>, j: int)
    requires
        0 <= j < t.len(),
    ensures
        seq_sum(t) == t[j] + seq_sum(t.remove(j)),
    decreases j,
{
    if j == 0 {
        assert(t.remove(0) =~= t.subrange(1, t.len() as int));
        lemma_sum_shift(t, t.remove(0));
    } else {
        let t1 = t.subrange(1, t.len() as int);
        lemma_sum_remove(t1, j - 1);
        lemma_sum_shift(t, t1);
        assert(t.remove(j) =~= seq![t[0]] + t1.remove(j - 1));
        assert(t.remove(j).subrange(1, t.remove(j).len() as int) =~= t1.remove(j - 1));
        lemma_sum_shift(t.remove(j), t1.remove(j - 1));
    }
}

/// Sum a list of scores after dropping the `drop` lowest — the Buchholz-cut
/// family (`drop` = 0 is the plain sum).
pub fn sum_dropping_lowest(scores: Vec<u32>, drop: usize) -> (r: u32)
    requires
        seq_sum(scores@) <= u32::MAX,
    ensures
        cut_sum(scores@, drop as int, r as int),
{
    let sorted = sort_ascending(&scores);
    proof {
        assert(sorted_up(sorted@) && sorted@.to_multiset() == scores@.to_multiset());
        lemma_sum_permutation(sorted@, scores@);
    }
    let mut acc: u32 = 0;
    let mut i: usize = sorted.len();
    while i > drop
        invariant
            drop <= i <= sorted@.len() || (i == sorted@.len() && i <= drop),
            acc == sum_from(sorted@, i as int),
            seq_sum(sorted@) <= u32::MAX,
        decreases i,
    {
        i -= 1;
        proof {
            lemma_sum_from_le(sorted@, i as int);
        }
        acc = acc + sorted[i];
    }
    proof {
        if drop > sorted@.len() {
            assert(sum_from(sorted@, drop as int) == 0);
        }
        assert(sorted_up(sorted@) && sorted@.to_multiset() == scores@.to_multiset() && acc == sum_from(sorted@, drop as int));
    }
    acc
}

/// The largest key among `group`'s rows below `bound`, if any.
pub open spec fn max_below(group: Seq<usize>, keys: Seq<u32>, bound: int, n: int) -> Option<u32>
    decreases n,
{
    if n <= 0 {
        None
    } else {
        let rest = max_below(group, keys, bound, n - 1);
        let k = keys[group[n - 1] as int];
        if (k as int) < bound {
            match rest {
                Some(m) => if k > m {
                    Some(k)
                } else {
                    Some(m)
                },
                None => Some(k),
            }
        } else {
            rest
        }
    }
}

/// The distinct keys of `group`'s rows below `bound`, in descending order.
pub open spec fn keys_desc(group: Seq<usize>, keys: Seq<u32>, bound: int) -> Seq<u32>
    decreases bound,
{
    match max_below(group, keys, bound, group.len() as int) {
        Some(m) => if 0 <= m < bound {
            seq![m] + keys_desc(group, keys, m as int)
        } else {
            Seq::empty()
        },
        None => Seq::empty(),
    }
}

/// The rows of `group` whose key is `k`, in `group`'s order.
pub open spec fn with_key(group: Seq<usize>, keys: Seq<u32>, k: u32) -> Seq<usize> {
    group.filter(key_is(keys, k))
}

/// The predicate "the row's key is `k`".
pub open spec fn key_is(keys: Seq<u32>, k: u32) -> spec_fn(usize) -> bool {
    |i: usize| keys[i as int] == k
}

/// The stable split of `group` by descending key: one subgroup per distinct
/// key, highest first, each in `group`'s order.
pub open spec fn split_spec(group: Seq<usize>, keys: Seq<u32>) -> Seq<Seq<usize>> {
    keys_desc(group, keys, u32::MAX as int + 1).map_values(|k: u32| with_key(group, keys, k))
}

/// A spec of what `max_below` finds.
proof fn lemma_max_below(group: Seq<usize>, keys: Seq<u32>, bound: int, n: int)
    requires
        0 <= n <= group.len(),
    ensures
        match max_below(group, keys, bound, n) {
            Some(m) => (m as int) < bound && (exists|j: int| 0 <= j < n && keys[group[j] as int] == m) && (forall|j: int|
                0 <= j < n && (keys[group[j] as int] as int) < bound ==> keys[group[j] as int] <= m),
            None => forall|j: int| 0 <= j < n ==> (keys[group[j] as int] as int) >= bound,
        },
    decreases n,
{
    if n > 0 {
        lemma_max_below(group, keys, bound, n - 1);
    }
}

/// Stable-split a tied group into subgroups sharing the same (descending)
/// key; each subgroup keeps the order it had in `group`.
pub fn split_by_key(group: &Vec<usize>, keys: &Vec<u32>) -> (r: Vec<Vec<usize>>)
    requires
        forall|i: int| 0 <= i < group@.len() ==> (#[trigger] group@[i] as int) < keys@.len(),
    ensures
        r@.map_values(|g: Vec<usize>| g@) == split_spec(group@, keys@),
        forall|a: int, b: int| 0 <= a < r@.len() && 0 <= b < r@[a]@.len() ==> group@.contains(#[trigger] r@[a]@[b]),
{
    let ghost top = u32::MAX as int + 1;
    let mut out: Vec<Vec<usize>> = Vec::new();
    let mut have = false;
    let mut bound: u32 = 0;
    loop
        invariant
            top == u32::MAX as int + 1,
            forall|i: int| 0 <= i < group@.len() ==> (#[trigger] group@[i] as int) < keys@.len(),
            out@.map_values(|g: Vec<usize>| g@) + keys_desc(group@, keys@, if have { bound as int } else { top }).map_values(|k: u32| with_key(group@, keys@, k))
                == split_spec(group@, keys@),
            forall|a: int, b: int| 0 <= a < out@.len() && 0 <= b < out@[a]@.len() ==> group@.contains(#[trigger] out@[a]@[b]),
        ensures
            out@.map_values(|g: Vec<usize>| g@) == split_spec(group@, keys@),
            forall|a: int, b: int| 0 <= a < out@.len() && 0 <= b < out@[a]@.len() ==> group@.contains(#[trigger] out@[a]@[b]),
        decreases (if have { bound as int } else { top }),
    {
        let ghost b = if have { bound as int } else { top };
        let mut found = false;
        let mut best: u32 = 0;
        let mut j: usize = 0;
        while j < group.len()
            invariant
                j <= group@.len(),
                top == u32::MAX as int + 1,
                b == if have { bound as int } else { top },
                forall|i: int| 0 <= i < group@.len() ==> (#[trigger] group@[i] as int) < keys@.len(),
                max_below(group@, keys@, b, j as int) == if found { Some(best) } else { None::<u32> },
            decreases group@.len() - j,
        {
            let k = keys[group[j]];
            proof {
                assert((k as int) < b <==> (!have || k < bound));
                assert(keys@[group@[j as int] as int] == k);
            }
            if !have || k < bound {
                if !found || k > best {
                    best = k;
                }
                found = true;
            }
            j += 1;
        }
        proof {
            lemma_max_below(group@, keys@, b, group@.len() as int);
        }
        if !found {
            proof {
                assert(keys_desc(group@, keys@, b) =~= Seq::<u32>::empty());
                assert(out@.map_values(|g: Vec<usize>| g@) + Seq::<u32>::empty().map_values(|k: u32| with_key(group@, keys@, k)) =~= out@.map_values(|g: Vec<usize>| g@));
            }
            break;
        }
        let mut sub: Vec<usize> = Vec::new();
        let mut j: usize = 0;
        while j < group.len()
            invariant
                j <= group@.len(),
                forall|i: int| 0 <= i < group@.len() ==> (#[trigger] group@[i] as int) < keys@.len(),
                sub@ == with_key(group@.subrange(0, j as int), keys@, best),
                forall|b2: int| 0 <= b2 < sub@.len() ==> group@.contains(#[trigger] sub@[b2]),
            decreases group@.len() - j,
        {
            let i = group[j];
            assert(group@.contains(i)) by {
                assert(group@[j as int] == i);
            }
            proof {
                let s = group@.subrange(0, j + 1);
                assert(s.drop_last() =~= group@.subrange(0, j as int));
                assert(s.last() == i);
                reveal(Seq::filter);
            }
            if keys[i] == best {
                sub.push(i);
            }
            j += 1;
        }
        proof {
            assert(group@.subrange(0, group@.len() as int) =~= group@);
            assert(sub@ == with_key(group@, keys@, best));
            assert(keys_desc(group@, keys@, b) =~= seq![best] + keys_desc(group@, keys@, best as int));
            let f = |k: u32| with_key(group@, keys@, k);
            let rest_keys = keys_desc(group@, keys@, best as int);
            assert((seq![best] + rest_keys).map_values(f) =~= seq![f(best)] + rest_keys.map_values(f));
        }
        let ghost before = out@;
        out.push(sub);
        proof {
            assert forall|a: int, b: int| 0 <= a < out@.len() && 0 <= b < out@[a]@.len() implies group@.contains(#[trigger] out@[a]@[b]) by {
                if a < before.len() {
                    assert(out@[a] == before[a]);
                }
            }
            let g = |v: Vec<usize>| v@;
            assert(out@ =~= before.push(sub));
            assert(out@.map_values(g) =~= before.map_values(g).push(sub@));
        }
        bound = best;
        have = true;
    }
    out
}

/// The head-to-head record direct confrontation needs for one ranked row.
pub struct DcRow {
    pub id: Uuid,
    pub opponents: Vec<Uuid>,
    pub defeated: Vec<Uuid>,
}

/// A head-to-head row read as its id, opponents and defeated opponents.
pub open spec fn dc_view(r: DcRow) -> (Uuid, Seq<Uuid>, Seq<Uuid>) {
    (r.id, r.opponents@, r.defeated@)
}

/// The rows read as views.
pub open spec fn dc_views(rows: Seq<DcRow>) -> Seq<(Uuid, Seq<Uuid>, Seq<Uuid>)> {
    rows.map_values(|r: DcRow| dc_view(r))
}

/// The ids of the rows in `group`.
pub open spec fn group_ids(group: Seq<usize>, rows: Seq<(Uuid, Seq<Uuid>, Seq<Uuid>)>) -> Seq<Uuid> {
    group.map_values(|i: usize| rows[i as int].0)
}

/// Every pair of `group` has met: each row faced every row after it.
pub open spec fn all_met(group: Seq<usize>, rows: Seq<(Uuid, Seq<Uuid>, Seq<Uuid>)>) -> bool {
    forall|p: int, q: int| #![trigger group[p], group[q]] 0 <= p < q < group.len() ==> rows[group[p] as int].1.contains(rows[group[q] as int].0)
}

/// How many of the first `n` defeated opponents are in `ids`.
pub open spec fn wins_within(defeated: Seq<Uuid>, ids: Seq<Uuid>, n: int) -> int
    decreases n,
{
    if n <= 0 {
        0
    } else {
        wins_within(defeated, ids, n - 1) + if ids.contains(defeated[n - 1]) {
            1int
        } else {
            0int
        }
    }
}

/// Each row's direct-confrontation score in `group`: its wins against the
/// others, in `group`'s order.
pub open spec fn dc_scores(group: Seq<usize>, rows: Seq<(Uuid, Seq<Uuid>, Seq<Uuid>)>) -> Seq<u32> {
    group.map_values(|i: usize| wins_within(rows[i as int].2, group_ids(group, rows), rows[i as int].2.len() as int) as u32)
}

/// Whether `x` is among `ids`.
fn has_id(ids: &Vec<Uuid>, x: &Uuid) -> (r: bool)
    ensures
        r == ids@.contains(*x),
{
    let mut i: usize = 0;
    while i < ids.len()
        invariant
            i <= ids@.len(),
            forall|j: int| 0 <= j < i ==> ids@[j] != *x,
        decreases ids@.len() - i,
    {
        if id_eq(&ids[i], x) {
            assert(ids@[i as int] == *x);
            return true;
        }
        i += 1;
    }
    false
}

/// Direct confrontation scores for a tied `group`: each row's wins against the
/// others in the group. `Some` only when every pair in the group has played.
pub fn direct_confrontation(group: &Vec<usize>, rows: &Vec<DcRow>) -> (r: Option<Vec<u32>>)
    requires
        forall|i: int| 0 <= i < group@.len() ==> (#[trigger] group@[i] as int) < rows@.len(),
    ensures
        r is Some <==> all_met(group@, dc_views(rows@)),
        r matches Some(s) ==> s@ == dc_scores(group@, dc_views(rows@)),
{
    let ghost rv = dc_views(rows@);
    let mut ids: Vec<Uuid> = Vec::new();
    let mut k: usize = 0;
    while k < group.len()
        invariant
            k <= group@.len(),
            forall|i: int| 0 <= i < group@.len() ==> (#[trigger] group@[i] as int) < rows@.len(),
            ids@ == group_ids(group@, rv).subrange(0, k as int),
            rv == dc_views(rows@),
        decreases group@.len() - k,
    {
        ids.push(rows[group[k]].id);
        proof {
            assert(ids@ =~= group_ids(group@, rv).subrange(0, k + 1));
        }
        k += 1;
    }
    assert(ids@ =~= group_ids(group@, rv));
    let mut p: usize = 0;
    while p < group.len()
        invariant
            p <= group@.len(),
            forall|i: int| 0 <= i < group@.len() ==> (#[trigger] group@[i] as int) < rows@.len(),
            ids@ == group_ids(group@, rv),
            rv == dc_views(rows@),
            forall|a: int, b: int| #![trigger group@[a], group@[b]] 0 <= a < p && a < b < group@.len() ==> rows@[group@[a] as int].opponents@.contains(rows@[group@[b] as int].id),
        decreases group@.len() - p,
    {
        let i = group[p];
        let mut q: usize = p + 1;
        while q < group.len()
            invariant
                p < q <= group@.len(),
                i == group@[p as int],
                forall|i2: int| 0 <= i2 < group@.len() ==> (#[trigger] group@[i2] as int) < rows@.len(),
                ids@ == group_ids(group@, rv),
                rv == dc_views(rows@),
                forall|b: int| p < b < q ==> rows@[i as int].opponents@.contains(rows@[#[trigger] group@[b] as int].id),
            decreases group@.len() - q,
        {
            assert(ids@[q as int] == rows@[group@[q as int] as int].id);
            if !has_id(&rows[i].opponents, &ids[q]) {
                assert(!all_met(group@, rv)) by {
                    assert(!rows@[group@[p as int] as int].opponents@.contains(rows@[group@[q as int] as int].id));
                }
                return None;
            }
            q += 1;
        }
        p += 1;
    }
    let mut scores: Vec<u32> = Vec::new();
    let mut p: usize = 0;
    while p < group.len()
        invariant
            p <= group@.len(),
            forall|i: int| 0 <= i < group@.len() ==> (#[trigger] group@[i] as int) < rows@.len(),
            ids@ == group_ids(group@, rv),
            rv == dc_views(rows@),
            scores@ == dc_scores(group@, rv).subrange(0, p as int),
        decreases group@.len() - p,
    {
        let d = &rows[group[p]].defeated;
        let mut c: u64 = 0;
        let mut j: usize = 0;
        while j < d.len()
            invariant
                j <= d@.len(),
                c == wins_within(d@, ids@, j as int),
                c <= j,
            decreases d@.len() - j,
        {
            if has_id(&ids, &d[j]) {
                c += 1;
            }
            j += 1;
        }
        scores.push(c as u32);
        proof {
            assert(scores@ =~= dc_scores(group@, rv).subrange(0, p + 1));
        }
        p += 1;
    }
    assert(scores@ =~= dc_scores(group@, rv));
    Some(scores)
}

/// `d` with each of `group`'s rows set to its score.
pub open spec fn assign(d: Seq<u32>, group: Seq<usize>, scores: Seq<u32>, n: int) -> Seq<u32>
    decreases n,
{
    if n <= 0 {
        d
    } else {
        assign(d, group, scores, n - 1).update(group[n - 1] as int, scores[n - 1])
    }
}

/// Refine the first `n` tied groups by one criterion: a group of one stays;
/// direct confrontation splits a group that played a complete round-robin by
/// its scores (recording them) and leaves any other group tied; any other
/// criterion splits by its value. Returns the new groups and the
/// direct-confrontation scores.
pub open spec fn refine(groups: Seq<Seq<usize>>, tb: Tiebreak, keys: Seq<u32>, rows: Seq<(Uuid, Seq<Uuid>, Seq<Uuid>)>, dc: Seq<u32>, n: int) -> (Seq<Seq<usize>>, Seq<u32>)
    decreases n,
{
    if n <= 0 {
        (Seq::empty(), dc)
    } else {
        let (gs, d) = refine(groups, tb, keys, rows, dc, n - 1);
        let g = groups[n - 1];
        if g.len() < 2 {
            (gs.push(g), d)
        } else if tb == Tiebreak::Dc {
            if all_met(g, rows) {
                let d2 = assign(d, g, dc_scores(g, rows), g.len() as int);
                (gs + split_spec(g, d2), d2)
            } else {
                (gs.push(g), d)
            }
        } else {
            (gs + split_spec(g, keys), d)
        }
    }
}

/// The groups and direct-confrontation scores after the first `c` criteria.
pub open spec fn rank_state(seed: Seq<usize>, tbs: Seq<Tiebreak>, skip_est_elo: bool, values: Seq<Seq<u32>>, rows: Seq<(Uuid, Seq<Uuid>, Seq<Uuid>)>, c: int) -> (Seq<Seq<usize>>, Seq<u32>)
    decreases c,
{
    if c <= 0 {
        (seq![seed], Seq::new(rows.len(), |i: int| 0u32))
    } else {
        let (gs, d) = rank_state(seed, tbs, skip_est_elo, values, rows, c - 1);
        let tb = tbs[c - 1];
        if tb == Tiebreak::EstElo && skip_est_elo {
            (gs, d)
        } else {
            refine(gs, tb, values[c - 1], rows, d, gs.len() as int)
        }
    }
}

/// All groups, one after another.
pub open spec fn concat(gs: Seq<Seq<usize>>) -> Seq<usize>
    decreases gs.len(),
{
    if gs.len() == 0 {
        Seq::empty()
    } else {
        concat(gs.drop_last()) + gs.last()
    }
}

/// A copy of `v`.
fn copy_indices(v: &Vec<usize>) -> (r: Vec<usize>)
    ensures
        r@ == v@,
{
    let mut out: Vec<usize> = Vec::new();
    let mut i: usize = 0;
    while i < v.len()
        invariant
            i <= v@.len(),
            out@ == v@.subrange(0, i as int),
        decreases v@.len() - i,
    {
        out.push(v[i]);
        proof {
            assert(out@ =~= v@.subrange(0, i + 1));
        }
        i += 1;
    }
    assert(out@ =~= v@);
    out
}

/// The indices of `gs`, read as sequences.
pub open spec fn views_of(gs: Seq<Vec<usize>>) -> Seq<Seq<usize>> {
    gs.map_values(|g: Vec<usize>| g@)
}

/// Every index in `gs` is below `n`.
pub open spec fn bounded_groups(gs: Seq<Seq<usize>>, n: int) -> bool {
    forall|a: int, b: int| 0 <= a < gs.len() && 0 <= b < gs[a].len() ==> (#[trigger] gs[a][b] as int) < n
}

/// Set each of `group`'s rows to its direct-confrontation score.
fn assign_scores(dc: &mut Vec<u32>, group: &Vec<usize>, scores: &Vec<u32>)
    requires
        scores@.len() == group@.len(),
        forall|i: int| 0 <= i < group@.len() ==> (#[trigger] group@[i] as int) < old(dc)@.len(),
    ensures
        final(dc)@ == assign(old(dc)@, group@, scores@, group@.len() as int),
        final(dc)@.len() == old(dc)@.len(),
{
    let ghost d0 = dc@;
    let mut p: usize = 0;
    while p < group.len()
        invariant
            p <= group@.len(),
            scores@.len() == group@.len(),
            dc@.len() == d0.len(),
            forall|i: int| 0 <= i < group@.len() ==> (#[trigger] group@[i] as int) < d0.len(),
            dc@ == assign(d0, group@, scores@, p as int),
        decreases group@.len() - p,
    {
        dc.set(group[p], scores[p]);
        p += 1;
    }
}

/// Rank rows by the configured criteria, in order, and report each row's
/// direct-confrontation score. `seed_order` (by tournament or team number)
/// survives as the final tie-break because every split is stable;
/// `values[c][i]` is row `i`'s value for criterion `c` (unused for direct
/// confrontation, which is computed here); `skip_est_elo` drops the estimated
/// ELO where it cannot rank.
pub fn rank_groups(
    seed_order: Vec<usize>,
    tiebreaks: &[Tiebreak],
    skip_est_elo: bool,
    values: &Vec<Vec<u32>>,
    rows: &Vec<DcRow>,
) -> (r: (Vec<usize>, Vec<u32>))
    requires
        forall|i: int| 0 <= i < seed_order@.len() ==> (#[trigger] seed_order@[i] as int) < rows@.len(),
        values@.len() == tiebreaks@.len(),
        forall|c: int| 0 <= c < values@.len() ==> (#[trigger] values@[c])@.len() == rows@.len(),
    ensures
        r.0@ == concat(rank_state(seed_order@, tiebreaks@, skip_est_elo, values@.map_values(|v: Vec<u32>| v@), dc_views(rows@), tiebreaks@.len() as int).0),
        r.1@ == rank_state(seed_order@, tiebreaks@, skip_est_elo, values@.map_values(|v: Vec<u32>| v@), dc_views(rows@), tiebreaks@.len() as int).1,
{
    let ghost vals = values@.map_values(|v: Vec<u32>| v@);
    let n = rows.len();
    let mut dc: Vec<u32> = Vec::new();
    let mut z: usize = 0;
    while z < n
        invariant
            z <= n,
            dc@.len() == z,
            forall|i: int| 0 <= i < z ==> dc@[i] == 0u32,
        decreases n - z,
    {
        dc.push(0);
        z += 1;
    }
    let mut groups: Vec<Vec<usize>> = Vec::new();
    groups.push(seed_order);
    proof {
        assert(dc@ =~= Seq::new(rows@.len(), |i: int| 0u32));
        assert(views_of(groups@) =~= seq![groups@[0]@]);
    }
    let mut c: usize = 0;
    while c < tiebreaks.len()
        invariant
            c <= tiebreaks@.len(),
            n == rows@.len(),
            vals == values@.map_values(|v: Vec<u32>| v@),
            values@.len() == tiebreaks@.len(),
            forall|c2: int| 0 <= c2 < values@.len() ==> (#[trigger] values@[c2])@.len() == rows@.len(),
            dc@.len() == n,
            bounded_groups(views_of(groups@), n as int),
            (views_of(groups@), dc@) == rank_state(seed_order@, tiebreaks@, skip_est_elo, vals, dc_views(rows@), c as int),
        decreases tiebreaks@.len() - c,
    {
        let tb = tiebreaks[c];
        if tb == Tiebreak::EstElo && skip_est_elo {
            c += 1;
            continue;
        }
        let ghost gs0 = views_of(groups@);
        let ghost d0 = dc@;
        let mut next: Vec<Vec<usize>> = Vec::new();
        let mut g: usize = 0;
        while g < groups.len()
            invariant
                g <= groups@.len(),
                n == rows@.len(),
                gs0 == views_of(groups@),
                dc@.len() == n,
                bounded_groups(gs0, n as int),
                bounded_groups(views_of(next@), n as int),
                values@[c as int]@.len() == n,
                values@.len() == tiebreaks@.len(),
                c < tiebreaks@.len(),
                tb == tiebreaks@[c as int],
                (views_of(next@), dc@) == refine(gs0, tb, values@[c as int]@, dc_views(rows@), d0, g as int),
            decreases groups@.len() - g,
        {
            let group = copy_indices(&groups[g]);
            assert(group@ == gs0[g as int]);
            assert forall|i: int| 0 <= i < group@.len() implies (#[trigger] group@[i] as int) < n by {
                assert(gs0[g as int][i] == group@[i]);
            }
            let ghost before = views_of(next@);
            if group.len() < 2 {
                next.push(group);
                proof {
                    assert(views_of(next@) =~= before.push(gs0[g as int]));
                }
            } else if tb == Tiebreak::Dc {
                match direct_confrontation(&group, rows) {
                    Some(scores) => {
                        assign_scores(&mut dc, &group, &scores);
                        let parts = split_by_key(&group, &dc);
                        proof {
                            lemma_parts_bounded(group@, parts@, n as int);
                        }
                        append_groups(&mut next, parts, Ghost(n as int));
                    },
                    None => {
                        next.push(group);
                        proof {
                            assert(views_of(next@) =~= before.push(gs0[g as int]));
                        }
                    },
                }
            } else {
                let parts = split_by_key(&group, &values[c]);
                proof {
                    lemma_parts_bounded(group@, parts@, n as int);
                }
                append_groups(&mut next, parts, Ghost(n as int));
            }
            g += 1;
        }
        groups = next;
        c += 1;
    }
    let mut order: Vec<usize> = Vec::new();
    let mut g: usize = 0;
    while g < groups.len()
        invariant
            g <= groups@.len(),
            order@ == concat(views_of(groups@).subrange(0, g as int)),
        decreases groups@.len() - g,
    {
        let ghost before = order@;
        let mut k: usize = 0;
        while k < groups[g].len()
            invariant
                g < groups@.len(),
                k <= groups@[g as int]@.len(),
                order@ == before + groups@[g as int]@.subrange(0, k as int),
            decreases groups@[g as int]@.len() - k,
        {
            order.push(groups[g][k]);
            proof {
                assert(order@ =~= before + groups@[g as int]@.subrange(0, k + 1));
            }
            k += 1;
        }
        proof {
            let vs = views_of(groups@);
            assert(vs.subrange(0, g + 1).drop_last() =~= vs.subrange(0, g as int));
            assert(groups@[g as int]@.subrange(0, groups@[g as int]@.len() as int) =~= groups@[g as int]@);
        }
        g += 1;
    }
    proof {
        assert(views_of(groups@).subrange(0, groups@.len() as int) =~= views_of(groups@));
    }
    (order, dc)
}

/// Subgroups of a bounded group are bounded.
proof fn lemma_parts_bounded(group: Seq<usize>, parts: Seq<Vec<usize>>, n: int)
    requires
        forall|i: int| 0 <= i < group.len() ==> (#[trigger] group[i] as int) < n,
        forall|a: int, b: int| 0 <= a < parts.len() && 0 <= b < parts[a]@.len() ==> group.contains(#[trigger] parts[a]@[b]),
    ensures
        bounded_groups(views_of(parts), n),
{
    assert forall|a: int, b: int| 0 <= a < views_of(parts).len() && 0 <= b < views_of(parts)[a].len() implies (#[trigger] views_of(parts)[a][b] as int) < n by {
        assert(views_of(parts)[a] == parts[a]@);
        assert(group.contains(parts[a]@[b]));
    }
}

/// Append `parts` to `next`.
fn append_groups(next: &mut Vec<Vec<usize>>, parts: Vec<Vec<usize>>, Ghost(n): Ghost<int>)
    requires
        bounded_groups(views_of(old(next)@), n),
        bounded_groups(views_of(parts@), n),
    ensures
        views_of(final(next)@) == views_of(old(next)@) + views_of(parts@),
        bounded_groups(views_of(final(next)@), n),
{
    let ghost start = views_of(next@);
    let mut parts = parts;
    let ghost all = views_of(parts@);
    let mut rev: Vec<Vec<usize>> = Vec::new();
    while parts.len() > 0
        invariant
            all.len() == parts@.len() + rev@.len(),
            forall|i: int| 0 <= i < parts@.len() ==> (#[trigger] parts@[i])@ == all[i],
            forall|i: int| 0 <= i < rev@.len() ==> (#[trigger] rev@[i])@ == all[all.len() - 1 - i],
        decreases parts@.len(),
    {
        let p = parts.pop().unwrap();
        rev.push(p);
    }
    while rev.len() > 0
        invariant
            views_of(next@) == start + all.subrange(0, all.len() - rev@.len()),
            rev@.len() <= all.len(),
            forall|i: int| 0 <= i < rev@.len() ==> (#[trigger] rev@[i])@ == all[all.len() - 1 - i],
        decreases rev@.len(),
    {
        let ghost k = all.len() - rev@.len();
        let p = rev.pop().unwrap();
        let ghost before = views_of(next@);
        next.push(p);
        proof {
            assert(views_of(next@) =~= before.push(all[k]));
            assert(all.subrange(0, k + 1) =~= all.subrange(0, k).push(all[k]));
        }
    }
    proof {
        assert(all.subrange(0, all.len() as int) =~= all);
        assert forall|a: int, b: int| 0 <= a < views_of(next@).len() && 0 <= b < views_of(next@)[a].len() implies (#[trigger] views_of(next@)[a][b] as int) < n by {
            if a < start.len() {
                assert(views_of(next@)[a] == start[a]);
            } else {
                assert(views_of(next@)[a] == all[a - start.len()]);
            }
        }
    }
}

/// One unit's accumulated scoring state as the tie-break pass reads it: who
/// it faced and beat (by the dense number its table is keyed by), what it is
/// worth as an opponent, and its cumulative sums.
pub struct ScoreRow {
    pub opponents: Vec<usize>,
    pub defeated: Vec<usize>,
    pub points: HalfPoints,
    pub victories: Wins,
    pub cuss_m: HalfPoints,
    pub cuss_w: Wins,
}

/// A score row read as its opponents, defeated opponents, points, wins and
/// cumulative sums.
pub type RowView = (Seq<usize>, Seq<usize>, u32, u32, HalfPoints, Wins);

/// A score row's view.
pub open spec fn row_view(r: ScoreRow) -> RowView {
    (r.opponents@, r.defeated@, r.points.0, r.victories.0, r.cuss_m, r.cuss_w)
}

/// The rows' views.
pub open spec fn row_views(rows: Seq<ScoreRow>) -> Seq<RowView> {
    rows.map_values(|r: ScoreRow| row_view(r))
}

/// The points of each of `of`'s entries.
pub open spec fn points_of_rows(rows: Seq<RowView>, of: Seq<usize>) -> Seq<u32> {
    of.map_values(|o: usize| rows[o as int].2)
}

/// The wins of each of `of`'s entries.
pub open spec fn wins_of_rows(rows: Seq<RowView>, of: Seq<usize>) -> Seq<u32> {
    of.map_values(|o: usize| rows[o as int].3)
}

/// SOSM of a unit in play (0 for a gap).
pub open spec fn sosm_of(rows: Seq<RowView>, numbers: Seq<usize>, k: usize) -> int {
    if numbers.contains(k) {
        seq_sum(points_of_rows(rows, rows[k as int].0))
    } else {
        0
    }
}

/// SOSW of a unit in play (0 for a gap).
pub open spec fn sosw_of(rows: Seq<RowView>, numbers: Seq<usize>, k: usize) -> int {
    if numbers.contains(k) {
        seq_sum(wins_of_rows(rows, rows[k as int].0))
    } else {
        0
    }
}

/// The SOSM of each of `of`'s entries.
pub open spec fn sosms_of(rows: Seq<RowView>, numbers: Seq<usize>, of: Seq<usize>) -> Seq<u32> {
    of.map_values(|o: usize| sosm_of(rows, numbers, o) as u32)
}

/// The SOSW of each of `of`'s entries.
pub open spec fn sosws_of(rows: Seq<RowView>, numbers: Seq<usize>, of: Seq<usize>) -> Seq<u32> {
    of.map_values(|o: usize| sosw_of(rows, numbers, o) as u32)
}

/// The tie-break block of unit `k` in play.
pub open spec fn tiebreaks_of(rows: Seq<RowView>, numbers: Seq<usize>, k: usize, t: Tiebreaks) -> bool {
    let r = rows[k as int];
    &&& t.sosm.0 == sosm_of(rows, numbers, k)
    &&& t.sosw.0 == sosw_of(rows, numbers, k)
    &&& t.sodosm.0 == seq_sum(points_of_rows(rows, r.1))
    &&& t.sodosw.0 == seq_sum(wins_of_rows(rows, r.1))
    &&& t.sososm.0 == seq_sum(sosms_of(rows, numbers, r.0))
    &&& t.sososw.0 == seq_sum(sosws_of(rows, numbers, r.0))
    &&& cut_sum(points_of_rows(rows, r.0), 1, t.sosm1.0 as int)
    &&& cut_sum(points_of_rows(rows, r.0), 2, t.sosm2.0 as int)
    &&& cut_sum(wins_of_rows(rows, r.0), 1, t.sosw1.0 as int)
    &&& cut_sum(wins_of_rows(rows, r.0), 2, t.sosw2.0 as int)
    &&& t.cussm == r.4
    &&& t.cussw == r.5
    &&& t.dc.0 == 0
}

/// Every row's opponents and defeated opponents are rows of the table.
pub open spec fn rows_closed(rows: Seq<RowView>) -> bool {
    &&& forall|k: int, j: int| 0 <= k < rows.len() && 0 <= j < rows[k].0.len() ==> (#[trigger] rows[k].0[j] as int) < rows.len()
    &&& forall|k: int, j: int| 0 <= k < rows.len() && 0 <= j < rows[k].1.len() ==> (#[trigger] rows[k].1[j] as int) < rows.len()
}

/// Every sum the tie-break block of a unit in play adds up fits in `u32`.
pub open spec fn tiebreaks_fit(rows: Seq<RowView>, numbers: Seq<usize>) -> bool {
    forall|i: int| 0 <= i < numbers.len() ==> {
        let k = #[trigger] numbers[i];
        let r = rows[k as int];
        &&& seq_sum(points_of_rows(rows, r.0)) <= u32::MAX
        &&& seq_sum(wins_of_rows(rows, r.0)) <= u32::MAX
        &&& seq_sum(points_of_rows(rows, r.1)) <= u32::MAX
        &&& seq_sum(wins_of_rows(rows, r.1)) <= u32::MAX
        &&& seq_sum(sosms_of(rows, numbers, r.0)) <= u32::MAX
        &&& seq_sum(sosws_of(rows, numbers, r.0)) <= u32::MAX
    }
}

/// The sum of `v`.
fn sum_u32(v: &Vec<u32>) -> (r: u32)
    requires
        seq_sum(v@) <= u32::MAX,
    ensures
        r == seq_sum(v@),
{
    let mut acc: u32 = 0;
    let mut i: usize = v.len();
    while i > 0
        invariant
            i <= v@.len(),
            acc == sum_from(v@, i as int),
            seq_sum(v@) <= u32::MAX,
        decreases i,
    {
        i -= 1;
        proof {
            lemma_sum_from_le(v@, i as int);
        }
        acc = acc + v[i];
    }
    acc
}

/// The points, or wins, of the rows `of` names.
fn worth_of(rows: &Vec<ScoreRow>, of: &Vec<usize>, wins: bool) -> (r: Vec<u32>)
    requires
        forall|j: int| 0 <= j < of@.len() ==> (#[trigger] of@[j] as int) < rows@.len(),
    ensures
        r@ == if wins {
            wins_of_rows(row_views(rows@), of@)
        } else {
            points_of_rows(row_views(rows@), of@)
        },
{
    let mut out: Vec<u32> = Vec::new();
    let mut j: usize = 0;
    while j < of.len()
        invariant
            j <= of@.len(),
            forall|q: int| 0 <= q < of@.len() ==> (#[trigger] of@[q] as int) < rows@.len(),
            out@ == (if wins {
                wins_of_rows(row_views(rows@), of@)
            } else {
                points_of_rows(row_views(rows@), of@)
            }).subrange(0, j as int),
        decreases of@.len() - j,
    {
        let r = &rows[of[j]];
        if wins {
            out.push(r.victories.0);
        } else {
            out.push(r.points.0);
        }
        proof {
            assert(out@ =~= (if wins {
                wins_of_rows(row_views(rows@), of@)
            } else {
                points_of_rows(row_views(rows@), of@)
            }).subrange(0, j + 1));
        }
        j += 1;
    }
    proof {
        let s = if wins {
            wins_of_rows(row_views(rows@), of@)
        } else {
            points_of_rows(row_views(rows@), of@)
        };
        assert(s.subrange(0, s.len() as int) =~= s);
    }
    out
}

/// The entries of `table` at the positions `of` names.
fn pick(table: &Vec<u32>, of: &Vec<usize>) -> (r: Vec<u32>)
    requires
        forall|j: int| 0 <= j < of@.len() ==> (#[trigger] of@[j] as int) < table@.len(),
    ensures
        r@ == of@.map_values(|o: usize| table@[o as int]),
{
    let mut out: Vec<u32> = Vec::new();
    let mut j: usize = 0;
    while j < of.len()
        invariant
            j <= of@.len(),
            forall|q: int| 0 <= q < of@.len() ==> (#[trigger] of@[q] as int) < table@.len(),
            out@ == of@.map_values(|o: usize| table@[o as int]).subrange(0, j as int),
        decreases of@.len() - j,
    {
        out.push(table[of[j]]);
        proof {
            assert(out@ =~= of@.map_values(|o: usize| table@[o as int]).subrange(0, j + 1));
        }
        j += 1;
    }
    assert(of@.map_values(|o: usize| table@[o as int]).subrange(0, of@.len() as int) =~= of@.map_values(|o: usize| table@[o as int]));
    out
}

/// Whether `k` is in `numbers`.
fn has_number(numbers: &[usize], k: usize) -> (r: bool)
    ensures
        r == numbers@.contains(k),
{
    let mut i: usize = 0;
    while i < numbers.len()
        invariant
            i <= numbers@.len(),
            forall|j: int| 0 <= j < i ==> numbers@[j] != k,
        decreases numbers@.len() - i,
    {
        if numbers[i] == k {
            assert(numbers@[i as int] == k);
            return true;
        }
        i += 1;
    }
    false
}

/// Compute the shared tie-break block for every unit, indexed by its dense
/// number: SOSM and SOSW first (the SOSOS metrics are sums of them), then the
/// rest. A gap number keeps the all-zero block, which is what an opponent
/// that no longer exists is worth.
pub fn compute_tiebreaks(numbers: &[usize], rows: &Vec<ScoreRow>) -> (r: Vec<Tiebreaks>)
    requires
        forall|i: int| 0 <= i < numbers@.len() ==> (#[trigger] numbers@[i] as int) < rows@.len(),
        rows_closed(row_views(rows@)),
        tiebreaks_fit(row_views(rows@), numbers@),
    ensures
        r@.len() == rows@.len(),
        forall|i: int| 0 <= i < numbers@.len() ==> tiebreaks_of(row_views(rows@), numbers@, #[trigger] numbers@[i], r@[numbers@[i] as int]),
{
    let cap = rows.len();
    let mut sosm: Vec<u32> = Vec::new();
    let mut sosw: Vec<u32> = Vec::new();
    let mut k: usize = 0;
    while k < cap
        invariant
            k <= cap,
            cap == rows@.len(),
            rows_closed(row_views(rows@)),
            tiebreaks_fit(row_views(rows@), numbers@),
            sosm@.len() == k,
            sosw@.len() == k,
            forall|q: int| 0 <= q < k ==> #[trigger] sosm@[q] == sosm_of(row_views(rows@), numbers@, q as usize),
            forall|q: int| 0 <= q < k ==> #[trigger] sosw@[q] == sosw_of(row_views(rows@), numbers@, q as usize),
        decreases cap - k,
    {
        if has_number(numbers, k) {
            proof {
                let i = choose|i: int| 0 <= i < numbers@.len() && numbers@[i] == k;
                assert(tiebreaks_fit(row_views(rows@), numbers@));
                assert(numbers@[i] == k);
                assert(rows@[k as int].opponents@.len() >= 0);
            }
            let m = worth_of(rows, &rows[k].opponents, false);
            let w = worth_of(rows, &rows[k].opponents, true);
            sosm.push(sum_u32(&m));
            sosw.push(sum_u32(&w));
        } else {
            sosm.push(0);
            sosw.push(0);
        }
        k += 1;
    }
    let mut out: Vec<Tiebreaks> = Vec::new();
    let mut k: usize = 0;
    while k < cap
        invariant
            k <= cap,
            cap == rows@.len(),
            rows_closed(row_views(rows@)),
            tiebreaks_fit(row_views(rows@), numbers@),
            sosm@.len() == cap,
            sosw@.len() == cap,
            forall|q: int| 0 <= q < cap ==> #[trigger] sosm@[q] == sosm_of(row_views(rows@), numbers@, q as usize),
            forall|q: int| 0 <= q < cap ==> #[trigger] sosw@[q] == sosw_of(row_views(rows@), numbers@, q as usize),
            out@.len() == k,
            forall|q: int| 0 <= q < k && numbers@.contains(q as usize) ==> tiebreaks_of(row_views(rows@), numbers@, q as usize, #[trigger] out@[q]),
        decreases cap - k,
    {
        if has_number(numbers, k) {
            let r = &rows[k];
            proof {
                let i = choose|i: int| 0 <= i < numbers@.len() && numbers@[i] == k;
                assert(numbers@[i] == k);
                assert(row_views(rows@)[k as int] == row_view(rows@[k as int]));
                assert forall|j: int| 0 <= j < r.opponents@.len() implies (#[trigger] r.opponents@[j] as int) < rows@.len() by {
                    assert(row_views(rows@)[k as int].0[j] == r.opponents@[j]);
                }
                assert forall|j: int| 0 <= j < r.defeated@.len() implies (#[trigger] r.defeated@[j] as int) < rows@.len() by {
                    assert(row_views(rows@)[k as int].1[j] == r.defeated@[j]);
                }
            }
            let opp_m = worth_of(rows, &r.opponents, false);
            let opp_w = worth_of(rows, &r.opponents, true);
            let def_m = worth_of(rows, &r.defeated, false);
            let def_w = worth_of(rows, &r.defeated, true);
            let sos_m = pick(&sosm, &r.opponents);
            let sos_w = pick(&sosw, &r.opponents);
            proof {
                assert(sos_m@ =~= sosms_of(row_views(rows@), numbers@, r.opponents@));
                assert(sos_w@ =~= sosws_of(row_views(rows@), numbers@, r.opponents@));
            }
            let t = Tiebreaks {
                sosm: HalfPoints(sosm[k]),
                sosw: Wins(sosw[k]),
                sodosm: HalfPoints(sum_u32(&def_m)),
                sodosw: Wins(sum_u32(&def_w)),
                sososm: HalfPoints(sum_u32(&sos_m)),
                sososw: Wins(sum_u32(&sos_w)),
                sosm1: HalfPoints(sum_dropping_lowest(copy_u32(&opp_m), 1)),
                sosm2: HalfPoints(sum_dropping_lowest(copy_u32(&opp_m), 2)),
                sosw1: Wins(sum_dropping_lowest(copy_u32(&opp_w), 1)),
                sosw2: Wins(sum_dropping_lowest(opp_w, 2)),
                cussm: r.cuss_m,
                cussw: r.cuss_w,
                dc: Wins(0),
            };
            out.push(t);
        } else {
            out.push(Tiebreaks::zeroed());
        }
        k += 1;
    }
    proof {
        assert forall|i: int| 0 <= i < numbers@.len() implies tiebreaks_of(row_views(rows@), numbers@, #[trigger] numbers@[i], out@[numbers@[i] as int]) by {
            assert(numbers@.contains(numbers@[i]));
        }
    }
    out
}

/// A copy of `v`.
fn copy_u32(v: &Vec<u32>) -> (r: Vec<u32>)
    ensures
        r@ == v@,
{
    let mut out: Vec<u32> = Vec::new();
    let mut i: usize = 0;
    while i < v.len()
        invariant
            i <= v@.len(),
            out@ == v@.subrange(0, i as int),
        decreases v@.len() - i,
    {
        out.push(v[i]);
        proof {
            assert(out@ =~= v@.subrange(0, i + 1));
        }
        i += 1;
    }
    assert(out@ =~= v@);
    out
}

/// One player's standing: score and every tie-break metric. The position in
/// the ranked list is the player's rank.
pub struct Standing {
    pub player_id: Uuid,
    /// Games won, in half-wins.
    pub victories: Wins,
    /// MacMahon starting points, with manual adjustments folded in.
    pub macmahon: HalfPoints,
    /// Total score: exactly `macmahon + victories`.
    pub points: HalfPoints,
    pub tiebreaks: Tiebreaks,
    /// Opponents faced, one entry per game, in round order.
    pub opponents: Vec<Uuid>,
    /// Opponents defeated, one entry per game.
    pub defeated: Vec<Uuid>,
    /// Running points total after each completed round.
    pub running_points: Vec<HalfPoints>,
    /// Running win total after each completed round.
    pub running_wins: Vec<Wins>,
    /// The rounded live ELO estimate, when one is kept and shown.
    pub estimated_elo: Option<i32>,
}

/// The value of a ranking criterion for a standing: the shared block's, or
/// the score, the wins (board wins), or the estimate floored at zero.
pub open spec fn standing_value(s: Standing, tb: Tiebreak) -> u32 {
    match tiebreak_value(s.tiebreaks, tb) {
        Some(v) => v,
        None => match tb {
            Tiebreak::Points => s.points.0,
            Tiebreak::BoardWins => s.victories.0,
            _ => match s.estimated_elo {
                Some(e) => if e > 0 {
                    e as u32
                } else {
                    0
                },
                None => 0,
            },
        },
    }
}

impl Standing {
    /// The value of a ranking criterion for this player, as a plain ordinal.
    pub fn tiebreak(&self, tb: Tiebreak) -> (r: u32)
        ensures
            r == standing_value(*self, tb),
    {
        if let Some(value) = self.tiebreaks.value(tb) {
            return value;
        }
        match tb {
            Tiebreak::Points => self.points.0,
            Tiebreak::BoardWins => self.victories.0,
            _ => {
                let e = match self.estimated_elo {
                    Some(e) => e,
                    None => 0,
                };
                if e > 0 {
                    e as u32
                } else {
                    0
                }
            },
        }
    }
}

/// `b` is `a` with the direct-confrontation score `dc` (in whole wins).
pub open spec fn with_dc(a: Standing, b: Standing, dc: u32) -> bool {
    &&& b.player_id == a.player_id
    &&& b.victories == a.victories
    &&& b.macmahon == a.macmahon
    &&& b.points == a.points
    &&& b.tiebreaks == (Tiebreaks { dc: Wins((2 * dc) as u32), ..a.tiebreaks })
    &&& b.opponents@ == a.opponents@
    &&& b.defeated@ == a.defeated@
    &&& b.running_points@ == a.running_points@
    &&& b.running_wins@ == a.running_wins@
    &&& b.estimated_elo == a.estimated_elo
}

/// A copy of a list of ids.
fn copy_ids(v: &Vec<Uuid>) -> (r: Vec<Uuid>)
    ensures
        r@ == v@,
{
    let mut out: Vec<Uuid> = Vec::new();
    let mut i: usize = 0;
    while i < v.len()
        invariant
            i <= v@.len(),
            out@ == v@.subrange(0, i as int),
        decreases v@.len() - i,
    {
        out.push(v[i].clone());
        proof {
            assert(out@ =~= v@.subrange(0, i + 1));
        }
        i += 1;
    }
    assert(out@ =~= v@);
    out
}

/// A copy of a list of totals.
fn copy_halves(v: &Vec<HalfPoints>) -> (r: Vec<HalfPoints>)
    ensures
        r@ == v@,
{
    let mut out: Vec<HalfPoints> = Vec::new();
    let mut i: usize = 0;
    while i < v.len()
        invariant
            i <= v@.len(),
            out@ == v@.subrange(0, i as int),
        decreases v@.len() - i,
    {
        out.push(v[i]);
        proof {
            assert(out@ =~= v@.subrange(0, i + 1));
        }
        i += 1;
    }
    assert(out@ =~= v@);
    out
}

/// A copy of a list of win totals.
fn copy_wins(v: &Vec<Wins>) -> (r: Vec<Wins>)
    ensures
        r@ == v@,
{
    let mut out: Vec<Wins> = Vec::new();
    let mut i: usize = 0;
    while i < v.len()
        invariant
            i <= v@.len(),
            out@ == v@.subrange(0, i as int),
        decreases v@.len() - i,
    {
        out.push(v[i]);
        proof {
            assert(out@ =~= v@.subrange(0, i + 1));
        }
        i += 1;
    }
    assert(out@ =~= v@);
    out
}

/// Seat `j`'s number is above `last` (any number is, before the first).
pub open spec fn above(numbers: Seq<u32>, have: bool, last: u32, j: int) -> bool {
    !have || numbers[j] > last
}

/// Seat `i` appears in `s`.
pub open spec fn seated(s: Seq<usize>, i: int) -> bool {
    exists|k: int| 0 <= k < s.len() && s[k] == i
}

/// The seats of `numbers` in ascending number order (numbers distinct).
pub fn seed_order(numbers: &Vec<u32>) -> (r: Vec<usize>)
    requires
        forall|i: int, j: int| 0 <= i < j < numbers@.len() ==> numbers@[i] != numbers@[j],
    ensures
        r@.len() == numbers@.len(),
        forall|k: int| 0 <= k < r@.len() ==> (#[trigger] r@[k] as int) < numbers@.len(),
        forall|k: int, l: int| 0 <= k < l < r@.len() ==> numbers@[#[trigger] r@[k] as int] < numbers@[#[trigger] r@[l] as int],
{
    let n = numbers.len();
    let mut out: Vec<usize> = Vec::new();
    let mut have = false;
    let mut last: u32 = 0;
    loop
        invariant
            n == numbers@.len(),
            forall|i: int, j: int| 0 <= i < j < numbers@.len() ==> numbers@[i] != numbers@[j],
            forall|k: int| 0 <= k < out@.len() ==> (#[trigger] out@[k] as int) < n,
            forall|k: int, l: int| 0 <= k < l < out@.len() ==> numbers@[#[trigger] out@[k] as int] < numbers@[#[trigger] out@[l] as int],
            have ==> out@.len() > 0 && numbers@[out@.last() as int] == last,
            !have ==> out@.len() == 0,
            forall|i: int| 0 <= i < n && have && numbers@[i] <= last ==> #[trigger] seated(out@, i),
        ensures
            forall|k: int| 0 <= k < out@.len() ==> (#[trigger] out@[k] as int) < n,
            forall|k: int, l: int| 0 <= k < l < out@.len() ==> numbers@[#[trigger] out@[k] as int] < numbers@[#[trigger] out@[l] as int],
            forall|i: int| 0 <= i < n ==> #[trigger] seated(out@, i),
        decreases (if have { u32::MAX - last } else { u32::MAX + 1 }),
    {
        let mut found = false;
        let mut best: usize = 0;
        let mut i: usize = 0;
        while i < n
            invariant
                i <= n,
                n == numbers@.len(),
                found ==> best < n && (!have || numbers@[best as int] > last),
                forall|j: int| 0 <= j < i && #[trigger] above(numbers@, have, last, j) ==> found && numbers@[best as int] <= numbers@[j],
            decreases n - i,
        {
            if (!have || numbers[i] > last) && (!found || numbers[i] < numbers[best]) {
                found = true;
                best = i;
            }
            i += 1;
        }
        if !found {
            assert forall|x: int| 0 <= x < n implies #[trigger] seated(out@, x) by {
                assert(!above(numbers@, have, last, x));
            }
            break;
        }
        let ghost before = out@;
        proof {
            assert forall|i: int| 0 <= i < n && numbers@[i] <= numbers@[best as int] implies #[trigger] seated(before.push(best), i) by {
                if i == best {
                    assert(before.push(best)[before.len() as int] == i);
                } else if have && numbers@[i] <= last {
                    assert(seated(before, i));
                    let k = choose|k: int| 0 <= k < before.len() && before[k] == i;
                    assert(before.push(best)[k] == i);
                } else {
                    assert(above(numbers@, have, last, i));
                    assert(numbers@[best as int] <= numbers@[i]);
                    if i < best {
                        assert(numbers@[i] != numbers@[best as int]);
                    } else {
                        assert(numbers@[best as int] != numbers@[i]);
                    }
                }
            }
        }
        out.push(best);
        last = numbers[best];
        have = true;
    }
    proof {
        lemma_seats_len(out@, n as int);
        let target = Seq::new(n as nat, |i: int| i as usize);
        assert(out@.no_duplicates()) by {
            assert forall|k: int, l: int| 0 <= k < out@.len() && 0 <= l < out@.len() && k != l implies out@[k] != out@[l] by {
                if k < l {
                    assert(numbers@[out@[k] as int] < numbers@[out@[l] as int]);
                } else {
                    assert(numbers@[out@[l] as int] < numbers@[out@[k] as int]);
                }
            }
        }
        assert forall|x: usize| out@.contains(x) implies target.contains(x) by {
            let k = choose|k: int| 0 <= k < out@.len() && out@[k] == x;
            assert(target[x as int] == x);
        }
        super::pairing::counterfactual::lemma_distinct_subset_len(out@, target);
    }
    out
}

/// Seats that cover every index below `n` without repeats are exactly `n`.
proof fn lemma_seats_len(s: Seq<usize>, n: int)
    requires
        0 <= n <= usize::MAX,
        forall|k: int| 0 <= k < s.len() ==> (#[trigger] s[k] as int) < n,
        forall|i: int| 0 <= i < n ==> #[trigger] seated(s, i),
    ensures
        s.len() >= n,
{
    let target = Seq::new(n as nat, |i: int| i as usize);
    assert(target.no_duplicates()) by {
        assert forall|i: int, j: int| 0 <= i < target.len() && 0 <= j < target.len() && i != j implies target[i] != target[j] by {
            assert(target[i] as int == i);
            assert(target[j] as int == j);
        }
    }
    assert forall|x: usize| target.contains(x) implies s.contains(x) by {
        let i = choose|i: int| 0 <= i < target.len() && target[i] == x;
        assert(seated(s, i));
        let k = choose|k: int| 0 <= k < s.len() && s[k] == i;
        assert(s[k] == x);
    }
    super::pairing::counterfactual::lemma_distinct_subset_len(target, s);
}

/// The head-to-head views of a list of standings.
pub open spec fn standing_views(st: Seq<Standing>) -> Seq<(Uuid, Seq<Uuid>, Seq<Uuid>)> {
    st.map_values(|s: Standing| (s.player_id, s.opponents@, s.defeated@))
}

/// Every standing's value for each criterion, criterion by criterion.
pub open spec fn criterion_values(st: Seq<Standing>, tbs: Seq<Tiebreak>) -> Seq<Seq<u32>> {
    tbs.map_values(|tb: Tiebreak| st.map_values(|s: Standing| standing_value(s, tb)))
}

/// `seed` lists every seat below `numbers.len()`, in ascending number order.
pub open spec fn ascending_seats(numbers: Seq<u32>, seed: Seq<usize>) -> bool {
    &&& seed.len() == numbers.len()
    &&& forall|k: int| 0 <= k < seed.len() ==> (#[trigger] seed[k] as int) < numbers.len()
    &&& forall|k: int, l: int| 0 <= k < l < seed.len() ==> numbers[#[trigger] seed[k] as int] < numbers[#[trigger] seed[l] as int]
}

/// `r` is `standings` ranked from `seed` by the criteria `tbs`: the ranking's
/// order, each standing carrying its direct-confrontation score.
pub open spec fn ranked_from(standings: Seq<Standing>, numbers: Seq<u32>, tbs: Seq<Tiebreak>, skip_est_elo: bool, r: Seq<Standing>, seed: Seq<usize>) -> bool {
    let (gs, d) = rank_state(seed, tbs, skip_est_elo, criterion_values(standings, tbs), standing_views(standings), tbs.len() as int);
    let order = concat(gs);
    &&& ascending_seats(numbers, seed)
    &&& r.len() == order.len()
    &&& forall|k: int| 0 <= k < r.len() ==> (order[k] as int) < standings.len() && with_dc(standings[order[k] as int], #[trigger] r[k], d[order[k] as int])
}

/// A copy of a standing with its direct-confrontation score set.
fn restate(a: &Standing, dc: u32) -> (b: Standing)
    ensures
        with_dc(*a, b, dc),
{
    Standing {
        player_id: a.player_id.clone(),
        victories: a.victories,
        macmahon: a.macmahon,
        points: a.points,
        tiebreaks: Tiebreaks { dc: Wins(((dc as u64) * 2) as u32), ..a.tiebreaks },
        opponents: copy_ids(&a.opponents),
        defeated: copy_ids(&a.defeated),
        running_points: copy_halves(&a.running_points),
        running_wins: copy_wins(&a.running_wins),
        estimated_elo: a.estimated_elo,
    }
}

/// Rank standings by the configured criteria in order, tournament number
/// breaking any remaining tie; each standing carries its direct-confrontation
/// score. `numbers[i]` is the tournament number of `standings[i]`;
/// `skip_est_elo` drops the estimated ELO where it cannot rank.
pub fn rank_standings(standings: &Vec<Standing>, numbers: &Vec<u32>, tiebreaks: &[Tiebreak], skip_est_elo: bool) -> (r: Vec<Standing>)
    requires
        numbers@.len() == standings@.len(),
        forall|i: int, j: int| 0 <= i < j < numbers@.len() ==> numbers@[i] != numbers@[j],
    ensures
        exists|seed: Seq<usize>| #[trigger] ranked_from(standings@, numbers@, tiebreaks@, skip_est_elo, r@, seed),
{
    let seed = seed_order(numbers);
    let ghost seed_v = seed@;
    let n = standings.len();
    let mut rows: Vec<DcRow> = Vec::new();
    let mut i: usize = 0;
    while i < n
        invariant
            i <= n,
            n == standings@.len(),
            rows@.len() == i,
            forall|j: int| 0 <= j < i ==> dc_view(#[trigger] rows@[j]) == (standings@[j].player_id, standings@[j].opponents@, standings@[j].defeated@),
        decreases n - i,
    {
        let s = &standings[i];
        rows.push(DcRow { id: s.player_id.clone(), opponents: copy_ids(&s.opponents), defeated: copy_ids(&s.defeated) });
        i += 1;
    }
    assert(dc_views(rows@) =~= standing_views(standings@));
    let mut values: Vec<Vec<u32>> = Vec::new();
    let mut c: usize = 0;
    while c < tiebreaks.len()
        invariant
            c <= tiebreaks@.len(),
            n == standings@.len(),
            values@.len() == c,
            forall|q: int| 0 <= q < c ==> (#[trigger] values@[q])@ == criterion_values(standings@, tiebreaks@)[q],
            forall|q: int| 0 <= q < c ==> (#[trigger] values@[q])@.len() == n,
        decreases tiebreaks@.len() - c,
    {
        let tb = tiebreaks[c];
        let mut col: Vec<u32> = Vec::new();
        let mut i: usize = 0;
        while i < n
            invariant
                i <= n,
                n == standings@.len(),
                col@.len() == i,
                forall|j: int| 0 <= j < i ==> #[trigger] col@[j] == standing_value(standings@[j], tb),
            decreases n - i,
        {
            col.push(standings[i].tiebreak(tb));
            i += 1;
        }
        proof {
            assert(col@ =~= standings@.map_values(|s: Standing| standing_value(s, tb)));
        }
        values.push(col);
        c += 1;
    }
    assert(values@.map_values(|v: Vec<u32>| v@) =~= criterion_values(standings@, tiebreaks@));
    let (order, dc) = rank_groups(seed, tiebreaks, skip_est_elo, &values, &rows);
    let ghost gs = rank_state(seed_v, tiebreaks@, skip_est_elo, criterion_values(standings@, tiebreaks@), standing_views(standings@), tiebreaks@.len() as int).0;
    proof {
        lemma_rank_bounded(seed_v, tiebreaks@, skip_est_elo, criterion_values(standings@, tiebreaks@), standing_views(standings@), tiebreaks@.len() as int, n as int);
        lemma_concat_bounded(gs, n as int);
    }
    let mut out: Vec<Standing> = Vec::new();
    let mut k: usize = 0;
    while k < order.len()
        invariant
            k <= order@.len(),
            n == standings@.len(),
            dc@.len() == n,
            forall|q: int| 0 <= q < order@.len() ==> (#[trigger] order@[q] as int) < n,
            out@.len() == k,
            forall|q: int| 0 <= q < k ==> with_dc(standings@[order@[q] as int], #[trigger] out@[q], dc@[order@[q] as int]),
        decreases order@.len() - k,
    {
        let i = order[k];
        out.push(restate(&standings[i], dc[i]));
        k += 1;
    }
    proof {
        let (gs2, d2) = rank_state(seed_v, tiebreaks@, skip_est_elo, criterion_values(standings@, tiebreaks@), standing_views(standings@), tiebreaks@.len() as int);
        assert(ascending_seats(numbers@, seed_v));
        assert(order@ == concat(gs2));
        assert(dc@ == d2);
        assert(ranked_from(standings@, numbers@, tiebreaks@, skip_est_elo, out@, seed_v));
    }
    out
}

/// The subgroups of a split draw only on the group.
proof fn lemma_split_within(g: Seq<usize>, keys: Seq<u32>, n: int)
    requires
        forall|i: int| 0 <= i < g.len() ==> (#[trigger] g[i] as int) < n,
    ensures
        bounded_groups(split_spec(g, keys), n),
{
    let sp = split_spec(g, keys);
    assert forall|a: int, b: int| 0 <= a < sp.len() && 0 <= b < sp[a].len() implies (#[trigger] sp[a][b] as int) < n by {
        let ks = keys_desc(g, keys, u32::MAX as int + 1);
        let k = ks[a];
        assert(sp[a] == g.filter(key_is(keys, k)));
        assert(sp[a].contains(sp[a][b]));
        g.lemma_filter_contains_rev(key_is(keys, k), sp[a][b]);
        let j = choose|j: int| 0 <= j < g.len() && g[j] == sp[a][b];
    }
}

/// Refining bounded groups keeps them bounded, and the scores' length.
proof fn lemma_refine_bounded(groups: Seq<Seq<usize>>, tb: Tiebreak, keys: Seq<u32>, rows: Seq<(Uuid, Seq<Uuid>, Seq<Uuid>)>, dc: Seq<u32>, m: int, n: int)
    requires
        bounded_groups(groups, n),
        dc.len() == n,
        m <= groups.len(),
    ensures
        bounded_groups(refine(groups, tb, keys, rows, dc, m).0, n),
        refine(groups, tb, keys, rows, dc, m).1.len() == n,
    decreases m,
{
    if m > 0 {
        lemma_refine_bounded(groups, tb, keys, rows, dc, m - 1, n);
        let (gs, d) = refine(groups, tb, keys, rows, dc, m - 1);
        let g = groups[m - 1];
        assert forall|i: int| 0 <= i < g.len() implies (#[trigger] g[i] as int) < n by {
            assert(groups[m - 1][i] == g[i]);
        }
        if g.len() < 2 {
            lemma_push_bounded(gs, g, n);
        } else if tb == Tiebreak::Dc {
            if all_met(g, rows) {
                let d2 = assign(d, g, dc_scores(g, rows), g.len() as int);
                lemma_assign_len(d, g, dc_scores(g, rows), g.len() as int);
                lemma_split_within(g, d2, n);
                lemma_concat_groups_bounded(gs, split_spec(g, d2), n);
            } else {
                lemma_push_bounded(gs, g, n);
            }
        } else {
            lemma_split_within(g, keys, n);
            lemma_concat_groups_bounded(gs, split_spec(g, keys), n);
        }
    }
}

/// Assigning scores keeps the length.
proof fn lemma_assign_len(d: Seq<u32>, g: Seq<usize>, scores: Seq<u32>, m: int)
    requires
        m <= g.len(),
        forall|i: int| 0 <= i < g.len() ==> (#[trigger] g[i] as int) < d.len(),
    ensures
        assign(d, g, scores, m).len() == d.len(),
    decreases m,
{
    if m > 0 {
        lemma_assign_len(d, g, scores, m - 1);
    }
}

/// Pushing a bounded group keeps the list bounded.
proof fn lemma_push_bounded(gs: Seq<Seq<usize>>, g: Seq<usize>, n: int)
    requires
        bounded_groups(gs, n),
        forall|i: int| 0 <= i < g.len() ==> (#[trigger] g[i] as int) < n,
    ensures
        bounded_groups(gs.push(g), n),
{
    assert forall|a: int, b: int| 0 <= a < gs.push(g).len() && 0 <= b < gs.push(g)[a].len() implies (#[trigger] gs.push(g)[a][b] as int) < n by {
        if a < gs.len() {
            assert(gs.push(g)[a] == gs[a]);
        }
    }
}

/// Joining bounded lists keeps them bounded.
proof fn lemma_concat_groups_bounded(gs: Seq<Seq<usize>>, hs: Seq<Seq<usize>>, n: int)
    requires
        bounded_groups(gs, n),
        bounded_groups(hs, n),
    ensures
        bounded_groups(gs + hs, n),
{
    assert forall|a: int, b: int| 0 <= a < (gs + hs).len() && 0 <= b < (gs + hs)[a].len() implies (#[trigger] (gs + hs)[a][b] as int) < n by {
        if a < gs.len() {
            assert((gs + hs)[a] == gs[a]);
        } else {
            assert((gs + hs)[a] == hs[a - gs.len()]);
        }
    }
}

/// The ranking's groups stay within the rows, and its scores cover them.
proof fn lemma_rank_bounded(seed: Seq<usize>, tbs: Seq<Tiebreak>, skip: bool, values: Seq<Seq<u32>>, rows: Seq<(Uuid, Seq<Uuid>, Seq<Uuid>)>, c: int, n: int)
    requires
        forall|i: int| 0 <= i < seed.len() ==> (#[trigger] seed[i] as int) < n,
        rows.len() == n,
    ensures
        bounded_groups(rank_state(seed, tbs, skip, values, rows, c).0, n),
        rank_state(seed, tbs, skip, values, rows, c).1.len() == n,
    decreases c,
{
    if c <= 0 {
        lemma_push_bounded(Seq::empty(), seed, n);
        assert(seq![seed] =~= Seq::<Seq<usize>>::empty().push(seed));
    } else {
        lemma_rank_bounded(seed, tbs, skip, values, rows, c - 1, n);
        let (gs, d) = rank_state(seed, tbs, skip, values, rows, c - 1);
        lemma_refine_bounded(gs, tbs[c - 1], values[c - 1], rows, d, gs.len() as int, n);
    }
}

/// A bounded list's concatenation is bounded.
proof fn lemma_concat_bounded(gs: Seq<Seq<usize>>, n: int)
    requires
        bounded_groups(gs, n),
    ensures
        forall|k: int| 0 <= k < concat(gs).len() ==> (#[trigger] concat(gs)[k] as int) < n,
    decreases gs.len(),
{
    if gs.len() > 0 {
        let init = gs.drop_last();
        assert forall|a: int, b: int| 0 <= a < init.len() && 0 <= b < init[a].len() implies (#[trigger] init[a][b] as int) < n by {
            assert(init[a] == gs[a]);
        }
        lemma_concat_bounded(init, n);
        let l = gs.last();
        assert forall|k: int| 0 <= k < concat(gs).len() implies (#[trigger] concat(gs)[k] as int) < n by {
            if k < concat(init).len() {
                assert(concat(gs)[k] == concat(init)[k]);
            } else {
                assert(concat(gs)[k] == l[k - concat(init).len()]);
                assert(gs[gs.len() - 1][k - concat(init).len()] == l[k - concat(init).len()]);
            }
        }
    }
}

/// The estimated ELO cannot rank: outside ELO pairing, or while rated
/// players are pinned.
pub open spec fn est_elo_skipped(settings: TournamentSettings) -> bool {
    !(settings.pairing is Elo && !rated_pinned(settings))
}

/// `t` is some player's tournament number.
pub open spec fn is_number(players: Seq<Player>, t: TournamentId) -> bool {
    exists|i: int| 0 <= i < players.len() && tid_of(#[trigger] players[i]) == t
}

/// The player holding number `t`.
pub open spec fn owner(players: Seq<Player>, t: TournamentId) -> int {
    choose|i: int| 0 <= i < players.len() && tid_of(#[trigger] players[i]) == t
}

/// The start, in half-points, of the player at `i`.
pub open spec fn start_of_player(players: Seq<Player>, settings: TournamentSettings, rounds: Seq<Round>, mm: Option<&[u32]>, i: int) -> int {
    start_halves(start_base(settings, players[i], estimate_at(mm, i), rounds), players[i].adjustments@)
}

/// The tie-break row the replay gives the player at `i`.
pub open spec fn player_row(players: Seq<Player>, settings: TournamentSettings, rounds: Seq<Round>, mm: Option<&[u32]>, i: int) -> RowView {
    let t = tid_of(players[i]);
    let n = rounds.len() as int;
    let wiel = wiel_of(settings.handicap_policy);
    let start = start_of_player(players, settings, rounds, mm, i);
    let rw = running_wins_after(rounds, wiel, t, n);
    (
        opponents_after(rounds, t, n).map_values(|o: TournamentId| o.0 as usize),
        defeated_after(rounds, wiel, t, n).map_values(|o: TournamentId| o.0 as usize),
        (start + wins_after(rounds, wiel, t, n)) as u32,
        wins_after(rounds, wiel, t, n) as u32,
        HalfPoints((total(rw, rw.len() as int) + start * rw.len()) as u32),
        Wins(total(rw, rw.len() as int) as u32),
    )
}

/// The tie-break table the replay gives: each player's row at their number,
/// an empty row at every gap.
pub open spec fn table_view(players: Seq<Player>, settings: TournamentSettings, rounds: Seq<Round>, mm: Option<&[u32]>) -> Seq<RowView> {
    Seq::new((max_number(players, players.len() as int) + 1) as nat, |k: int| if is_number(players, TournamentId(k as u32)) {
        player_row(players, settings, rounds, mm, owner(players, TournamentId(k as u32)))
    } else {
        (Seq::empty(), Seq::empty(), 0u32, 0u32, HalfPoints(0), Wins(0))
    })
}

/// The players' numbers as plain values, in player order.
pub open spec fn number_values(players: Seq<Player>) -> Seq<u32> {
    players.map_values(|p: Player| tid_of(p).0)
}

/// The players' numbers, in player order.
pub open spec fn numbers_of(players: Seq<Player>) -> Seq<usize> {
    players.map_values(|p: Player| tid_of(p).0 as usize)
}

/// The estimate shown for the player at `i`: kept whenever a live estimate
/// is, except for a rated player while rated players are pinned.
pub open spec fn shown_estimate(settings: TournamentSettings, p: Player, elo: Option<&[i32]>, i: int) -> Option<i32> {
    if (settings.pairing is Elo || mm_from_estimate(settings)) && !(rated_pinned(settings) && p.rating is Some) {
        match elo {
            Some(e) => Some(e@[i]),
            None => None,
        }
    } else {
        None
    }
}

/// `st` is the (unranked) standing of the player at `i`.
pub open spec fn standing_of(st: Standing, players: Seq<Player>, settings: TournamentSettings, rounds: Seq<Round>, mm: Option<&[u32]>, elo: Option<&[i32]>, i: int) -> bool {
    let p = players[i];
    let t = tid_of(p);
    let n = rounds.len() as int;
    let wiel = wiel_of(settings.handicap_policy);
    let start = start_of_player(players, settings, rounds, mm, i);
    let rw = running_wins_after(rounds, wiel, t, n);
    &&& st.player_id == p.id
    &&& st.victories.0 == wins_after(rounds, wiel, t, n)
    &&& st.macmahon.0 == start
    &&& st.points.0 == start + wins_after(rounds, wiel, t, n)
    &&& tiebreaks_of(table_view(players, settings, rounds, mm), numbers_of(players), t.0 as usize, st.tiebreaks)
    &&& st.opponents@ == opponents_after(rounds, t, n).map_values(|o: TournamentId| players[owner(players, o)].id)
    &&& st.defeated@ == defeated_after(rounds, wiel, t, n).map_values(|o: TournamentId| players[owner(players, o)].id)
    &&& st.running_wins@.map_values(|w: Wins| w.0 as int) == rw
    &&& st.running_points@.map_values(|q: HalfPoints| q.0 as int) == rw.map_values(|w: int| start + w)
    &&& st.estimated_elo == shown_estimate(settings, p, elo, i)
}

/// The ids of the players holding the numbers `of`.
fn ids_of_numbers(scores: &Scores, of: &Vec<TournamentId>, Ghost(players): Ghost<Seq<Player>>) -> (r: Vec<Uuid>)
    requires
        forall|j: int| 0 <= j < of@.len() ==> is_number(players, #[trigger] of@[j]),
        forall|i: int| 0 <= i < players.len() ==> (tid_of(#[trigger] players[i]).0 as int) < id_rows(scores.ids).len() && id_rows(scores.ids)[tid_of(players[i]).0 as int] == players[i].id,
    ensures
        r@ == of@.map_values(|o: TournamentId| players[owner(players, o)].id),
{
    let mut out: Vec<Uuid> = Vec::new();
    let mut j: usize = 0;
    while j < of.len()
        invariant
            j <= of@.len(),
            forall|q: int| 0 <= q < of@.len() ==> is_number(players, #[trigger] of@[q]),
            forall|i: int| 0 <= i < players.len() ==> (tid_of(#[trigger] players[i]).0 as int) < id_rows(scores.ids).len() && id_rows(scores.ids)[tid_of(players[i]).0 as int] == players[i].id,
            out@ == of@.map_values(|o: TournamentId| players[owner(players, o)].id).subrange(0, j as int),
        decreases of@.len() - j,
    {
        let o = of[j];
        proof {
            assert(is_number(players, o));
            let w = owner(players, o);
            assert(tid_of(players[w]) == o);
        }
        out.push(scores.id_of(o));
        proof {
            assert(out@ =~= of@.map_values(|o: TournamentId| players[owner(players, o)].id).subrange(0, j + 1));
        }
        j += 1;
    }
    assert(of@.map_values(|o: TournamentId| players[owner(players, o)].id).subrange(0, of@.len() as int) =~= of@.map_values(|o: TournamentId| players[owner(players, o)].id));
    out
}

/// Numbers as table positions.
fn positions(of: &Vec<TournamentId>) -> (r: Vec<usize>)
    ensures
        r@ == of@.map_values(|o: TournamentId| o.0 as usize),
{
    let mut out: Vec<usize> = Vec::new();
    let mut j: usize = 0;
    while j < of.len()
        invariant
            j <= of@.len(),
            out@ == of@.map_values(|o: TournamentId| o.0 as usize).subrange(0, j as int),
        decreases of@.len() - j,
    {
        out.push(of[j].index());
        proof {
            assert(out@ =~= of@.map_values(|o: TournamentId| o.0 as usize).subrange(0, j + 1));
        }
        j += 1;
    }
    assert(of@.map_values(|o: TournamentId| o.0 as usize).subrange(0, of@.len() as int) =~= of@.map_values(|o: TournamentId| o.0 as usize));
    out
}

/// Compute the ranked standings from the completed rounds. Byes and absences
/// contribute no opponent to the tie-breaks; rounds not yet completed are
/// ignored. `mm_estimates` are the rounded live estimates the MacMahon start
/// may be drawn from, `elo_estimates` the rounded estimates shown (both in
/// player order).
pub fn compute_standings(
    players: &[Player],
    settings: &TournamentSettings,
    rounds: &[Round],
    mm_estimates: Option<&[u32]>,
    elo_estimates: Option<&[i32]>,
) -> (r: Vec<Standing>)
    requires
        forall|i: int| 0 <= i < players@.len() ==> (#[trigger] players@[i]).tournament_id is Some,
        forall|i: int, j: int| 0 <= i < j < players@.len() ==> tid_of(#[trigger] players@[i]) != tid_of(#[trigger] players@[j]),
        forall|i: int| 0 <= i < players@.len() ==> (tid_of(#[trigger] players@[i]).0 as int) < usize::MAX,
        mm_from_estimate(*settings) ==> (mm_estimates matches Some(e) && e@.len() == players@.len()),
        (settings.pairing is Elo || mm_from_estimate(*settings)) ==> (elo_estimates matches Some(e) && e@.len() == players@.len()),
        forall|i: int| 0 <= i < players@.len() ==> start_fits(start_base(*settings, #[trigger] players@[i], estimate_at(mm_estimates, i), rounds@), players@[i].adjustments@),
        forall|i: int| 0 <= i < players@.len() ==> replay_fits(rounds@, wiel_of(settings.handicap_policy), tid_of(#[trigger] players@[i]), start_of_player(players@, *settings, rounds@, mm_estimates, i)),
        forall|i: int, j: int| 0 <= i < players@.len() && 0 <= j < opponents_after(rounds@, tid_of(players@[i]), rounds@.len() as int).len() ==> is_number(players@, #[trigger] opponents_after(rounds@, tid_of(#[trigger] players@[i]), rounds@.len() as int)[j]),
        forall|i: int, j: int| 0 <= i < players@.len() && 0 <= j < defeated_after(rounds@, wiel_of(settings.handicap_policy), tid_of(players@[i]), rounds@.len() as int).len() ==> is_number(players@, #[trigger] defeated_after(rounds@, wiel_of(settings.handicap_policy), tid_of(#[trigger] players@[i]), rounds@.len() as int)[j]),
        tiebreaks_fit(table_view(players@, *settings, rounds@, mm_estimates), numbers_of(players@)),
    ensures
        exists|unranked: Seq<Standing>, seed: Seq<usize>| {
            &&& unranked.len() == players@.len()
            &&& forall|i: int| 0 <= i < players@.len() ==> standing_of(#[trigger] unranked[i], players@, *settings, rounds@, mm_estimates, elo_estimates, i)
            &&& #[trigger] ranked_from(unranked, number_values(players@), settings.tiebreaks@, est_elo_skipped(*settings), r@, seed)
        },
{
    let ghost ps = players@;
    let ghost wiel = wiel_of(settings.handicap_policy);
    let ghost view = table_view(ps, *settings, rounds@, mm_estimates);
    let scores = compute_scores(players, settings, rounds, mm_estimates);
    let cap = scores.tid_capacity();
    assert(cap == view.len());
    let mut rows: Vec<ScoreRow> = Vec::new();
    let mut k: usize = 0;
    while k < cap
        invariant
            k <= cap,
            cap == score_rows(scores.by_tid).len(),
            cap == view.len(),
            view == table_view(ps, *settings, rounds@, mm_estimates),
            ps == players@,
            wiel == wiel_of(settings.handicap_policy),
            forall|i: int| 0 <= i < ps.len() ==> (tid_of(#[trigger] ps[i]).0 as int) < cap,
            forall|i: int| 0 <= i < ps.len() ==> {
                let p = #[trigger] ps[i];
                let t = tid_of(p);
                &&& replayed(score_rows(scores.by_tid)[t.0 as int], rounds@, wiel, t, start_of_player(ps, *settings, rounds@, mm_estimates, i))
            },
            forall|i: int| 0 <= i < ps.len() ==> replay_fits(rounds@, wiel, tid_of(#[trigger] ps[i]), start_of_player(ps, *settings, rounds@, mm_estimates, i)),
            forall|t: int| 0 <= t < cap && (forall|i: int| 0 <= i < ps.len() ==> tid_of(#[trigger] ps[i]).0 != t) ==> {
                let s = #[trigger] score_rows(scores.by_tid)[t];
                s.victories.0 == 0 && s.macmahon.0 == 0 && s.opponents@.len() == 0 && s.defeated@.len() == 0 && s.cuss_m.0 == 0 && s.cuss_w.0 == 0
            },
            rows@.len() == k,
            forall|q: int| 0 <= q < k ==> row_view(#[trigger] rows@[q]) == view[q],
        decreases cap - k,
    {
        let t = TournamentId(k as u32);
        let s = scores.get_tid(t);
        proof {
            if is_number(ps, t) {
                let i = owner(ps, t);
                assert(tid_of(ps[i]) == t);
                assert(replay_fits(rounds@, wiel, t, start_of_player(ps, *settings, rounds@, mm_estimates, i)));
                lemma_replayed_points_fit(*s, rounds@, wiel, t);
            } else {
                assert forall|i: int| 0 <= i < ps.len() implies tid_of(#[trigger] ps[i]).0 != k by {
                    if tid_of(ps[i]).0 == k {
                        assert(tid_of(ps[i]) == t);
                    }
                }
            }
        }
        let row = ScoreRow {
            opponents: positions(&s.opponents),
            defeated: positions(&s.defeated),
            points: s.points(),
            victories: s.victories,
            cuss_m: s.cuss_m,
            cuss_w: s.cuss_w,
        };
        proof {
            if !is_number(ps, t) {
                assert(row_view(row).0 =~= Seq::<usize>::empty());
                assert(row_view(row).1 =~= Seq::<usize>::empty());
            }
        }
        rows.push(row);
        k += 1;
    }
    let mut tids: Vec<TournamentId> = Vec::new();
    let mut i: usize = 0;
    while i < players.len()
        invariant
            i <= players@.len(),
            forall|j: int| 0 <= j < players@.len() ==> (#[trigger] players@[j]).tournament_id is Some,
            tids@ == players@.map_values(|p: Player| tid_of(p)).subrange(0, i as int),
        decreases players@.len() - i,
    {
        let t = match players[i].tournament_id {
            Some(t) => t,
            None => TournamentId(0),
        };
        tids.push(t);
        proof {
            assert(tids@ =~= players@.map_values(|p: Player| tid_of(p)).subrange(0, i + 1));
        }
        i += 1;
    }
    assert(tids@ =~= players@.map_values(|p: Player| tid_of(p)));
    let numbers = positions(&tids);
    assert(numbers@ =~= numbers_of(ps));
    assert(row_views(rows@) =~= view);
    proof {
        assert forall|q: int| 0 <= q < numbers@.len() implies (#[trigger] numbers@[q] as int) < rows@.len() by {
            assert(numbers@[q] == tid_of(ps[q]).0 as usize);
        }
        lemma_table_closed(ps, *settings, rounds@, mm_estimates);
    }
    let tbs = compute_tiebreaks(numbers.as_slice(), &rows);
    let live = settings.elo_estimate_live();
    let pinned = settings.elo_estimate_rated_pinned();
    let mut standings: Vec<Standing> = Vec::new();
    let mut i: usize = 0;
    while i < players.len()
        invariant
            i <= players@.len(),
            ps == players@,
            wiel == wiel_of(settings.handicap_policy),
            view == table_view(ps, *settings, rounds@, mm_estimates),
            tids@ == ps.map_values(|p: Player| tid_of(p)),
            numbers@ == numbers_of(ps),
            cap == score_rows(scores.by_tid).len(),
            tbs@.len() == rows@.len(),
            rows@.len() == cap,
            forall|q: int| 0 <= q < numbers@.len() ==> tiebreaks_of(row_views(rows@), numbers@, #[trigger] numbers@[q], tbs@[numbers@[q] as int]),
            row_views(rows@) == view,
            live == (settings.pairing is Elo || mm_from_estimate(*settings)),
            pinned == rated_pinned(*settings),
            (settings.pairing is Elo || mm_from_estimate(*settings)) ==> (elo_estimates matches Some(e) && e@.len() == players@.len()),
            forall|j: int| 0 <= j < ps.len() ==> (tid_of(#[trigger] ps[j]).0 as int) < cap,
            forall|j: int| 0 <= j < ps.len() ==> (tid_of(#[trigger] ps[j]).0 as int) < id_rows(scores.ids).len() && id_rows(scores.ids)[tid_of(ps[j]).0 as int] == ps[j].id,
            forall|j: int| 0 <= j < ps.len() ==> {
                let p = #[trigger] ps[j];
                let t = tid_of(p);
                &&& replayed(score_rows(scores.by_tid)[t.0 as int], rounds@, wiel, t, start_of_player(ps, *settings, rounds@, mm_estimates, j))
            },
            forall|j: int| 0 <= j < ps.len() ==> replay_fits(rounds@, wiel, tid_of(#[trigger] ps[j]), start_of_player(ps, *settings, rounds@, mm_estimates, j)),
            forall|a: int, b: int| 0 <= a < ps.len() && 0 <= b < opponents_after(rounds@, tid_of(ps[a]), rounds@.len() as int).len() ==> is_number(ps, #[trigger] opponents_after(rounds@, tid_of(#[trigger] ps[a]), rounds@.len() as int)[b]),
            forall|a: int, b: int| 0 <= a < ps.len() && 0 <= b < defeated_after(rounds@, wiel, tid_of(ps[a]), rounds@.len() as int).len() ==> is_number(ps, #[trigger] defeated_after(rounds@, wiel, tid_of(#[trigger] ps[a]), rounds@.len() as int)[b]),
            standings@.len() == i,
            forall|j: int| 0 <= j < i ==> standing_of(#[trigger] standings@[j], ps, *settings, rounds@, mm_estimates, elo_estimates, j),
        decreases players@.len() - i,
    {
        let p = &players[i];
        let t = tids[i];
        let s = scores.get_tid(t);
        proof {
            assert(t == tid_of(ps[i as int]));
            assert(replayed(*s, rounds@, wiel, t, start_of_player(ps, *settings, rounds@, mm_estimates, i as int)));
            assert(replay_fits(rounds@, wiel, t, start_of_player(ps, *settings, rounds@, mm_estimates, i as int)));
            lemma_replayed_points_fit(*s, rounds@, wiel, t);
            assert(numbers@[i as int] == t.0 as usize);
        }
        let est = if live && !(pinned && p.rating.is_some()) {
            match elo_estimates {
                Some(e) => Some(e[i]),
                None => None,
            }
        } else {
            None
        };
        let st = Standing {
            player_id: p.id.clone(),
            victories: s.victories,
            macmahon: s.macmahon,
            points: s.points(),
            tiebreaks: tbs[t.index()],
            opponents: ids_of_numbers(&scores, &s.opponents, Ghost(ps)),
            defeated: ids_of_numbers(&scores, &s.defeated, Ghost(ps)),
            running_points: copy_halves(&s.running_points),
            running_wins: copy_wins(&s.running_wins),
            estimated_elo: est,
        };
        proof {
            assert(tiebreaks_of(view, numbers_of(ps), t.0 as usize, st.tiebreaks));
            assert(standing_of(st, ps, *settings, rounds@, mm_estimates, elo_estimates, i as int));
        }
        standings.push(st);
        i += 1;
    }
    let mut numbers32: Vec<u32> = Vec::new();
    let mut i: usize = 0;
    while i < tids.len()
        invariant
            i <= tids@.len(),
            numbers32@ == tids@.map_values(|t: TournamentId| t.0).subrange(0, i as int),
        decreases tids@.len() - i,
    {
        numbers32.push(tids[i].0);
        proof {
            assert(numbers32@ =~= tids@.map_values(|t: TournamentId| t.0).subrange(0, i + 1));
        }
        i += 1;
    }
    assert(numbers32@ =~= number_values(ps));
    let skip = !settings.est_elo_ranks();
    let ranked = rank_standings(&standings, &numbers32, settings.tiebreaks.as_slice(), skip);
    proof {
        assert(standings@.len() == ps.len());
        let tb = settings.tiebreaks@;
        assert(skip == est_elo_skipped(*settings));
        let seed = choose|seed: Seq<usize>| #[trigger] ranked_from(standings@, numbers32@, tb, skip, ranked@, seed);
        assert(ranked_from(standings@, number_values(ps), tb, skip, ranked@, seed));
    }
    ranked
}

/// A bounded number is at most the largest.
proof fn lemma_number_bound(players: Seq<Player>, t: TournamentId)
    requires
        is_number(players, t),
    ensures
        (t.0 as int) <= max_number(players, players.len() as int),
{
    let i = choose|i: int| 0 <= i < players.len() && tid_of(#[trigger] players[i]) == t;
    lemma_max_number(players, players.len() as int, i);
}

/// Every number among the first `n` is at most their largest.
proof fn lemma_max_number(players: Seq<Player>, n: int, i: int)
    requires
        0 <= i < n <= players.len(),
    ensures
        (tid_of(players[i]).0 as int) <= max_number(players, n),
    decreases n,
{
    if i < n - 1 {
        lemma_max_number(players, n - 1, i);
    }
}

/// The replayed table names only rows inside it.
proof fn lemma_table_closed(players: Seq<Player>, settings: TournamentSettings, rounds: Seq<Round>, mm: Option<&[u32]>)
    requires
        forall|a: int, b: int| 0 <= a < players.len() && 0 <= b < opponents_after(rounds, tid_of(players[a]), rounds.len() as int).len() ==> is_number(players, #[trigger] opponents_after(rounds, tid_of(#[trigger] players[a]), rounds.len() as int)[b]),
        forall|a: int, b: int| 0 <= a < players.len() && 0 <= b < defeated_after(rounds, wiel_of(settings.handicap_policy), tid_of(players[a]), rounds.len() as int).len() ==> is_number(players, #[trigger] defeated_after(rounds, wiel_of(settings.handicap_policy), tid_of(#[trigger] players[a]), rounds.len() as int)[b]),
        forall|i: int| 0 <= i < players.len() ==> (tid_of(#[trigger] players[i]).0 as int) < usize::MAX,
    ensures
        rows_closed(table_view(players, settings, rounds, mm)),
{
    let view = table_view(players, settings, rounds, mm);
    let wiel = wiel_of(settings.handicap_policy);
    assert forall|k: int, j: int| 0 <= k < view.len() && 0 <= j < view[k].0.len() implies (#[trigger] view[k].0[j] as int) < view.len() by {
        let t = TournamentId(k as u32);
        if is_number(players, t) {
            let i = owner(players, t);
            let o = opponents_after(rounds, tid_of(players[i]), rounds.len() as int)[j];
            assert(is_number(players, o));
            lemma_number_bound(players, o);
        }
    }
    assert forall|k: int, j: int| 0 <= k < view.len() && 0 <= j < view[k].1.len() implies (#[trigger] view[k].1[j] as int) < view.len() by {
        let t = TournamentId(k as u32);
        if is_number(players, t) {
            let i = owner(players, t);
            let o = defeated_after(rounds, wiel, tid_of(players[i]), rounds.len() as int)[j];
            assert(is_number(players, o));
            lemma_number_bound(players, o);
        }
    }
}

/// Whether criterion `c` takes part in the ranking (the estimated ELO is left
/// out where it cannot rank).
pub open spec fn counted(tbs: Seq<Tiebreak>, skip_est_elo: bool, c: int) -> bool {
    !(tbs[c] == Tiebreak::EstElo && skip_est_elo)
}

/// Seats `x` and `y` tie on every counted criterion among the first `c`.
pub open spec fn tied_upto(values: Seq<Seq<u32>>, tbs: Seq<Tiebreak>, skip_est_elo: bool, c: int, x: usize, y: usize) -> bool
    decreases c,
{
    if c <= 0 {
        true
    } else {
        tied_upto(values, tbs, skip_est_elo, c - 1, x, y) && (!counted(tbs, skip_est_elo, c - 1)
            || values[c - 1][x as int] == values[c - 1][y as int])
    }
}

/// Seat `x` beats seat `y` lexicographically on the counted criteria among
/// the first `c`: at the first counted criterion where they differ, `x` has
/// the higher value.
pub open spec fn beats_upto(values: Seq<Seq<u32>>, tbs: Seq<Tiebreak>, skip_est_elo: bool, c: int, x: usize, y: usize) -> bool
    decreases c,
{
    if c <= 0 {
        false
    } else {
        beats_upto(values, tbs, skip_est_elo, c - 1, x, y) || (tied_upto(values, tbs, skip_est_elo, c - 1, x, y)
            && counted(tbs, skip_est_elo, c - 1) && values[c - 1][x as int] > values[c - 1][y as int])
    }
}

/// Seat `x` ranks before seat `y`: it beats `y` on the criteria, or ties
/// with `y` on all of them and holds the smaller tournament number.
pub open spec fn ranks_before(values: Seq<Seq<u32>>, tbs: Seq<Tiebreak>, skip_est_elo: bool, numbers: Seq<u32>, x: usize, y: usize) -> bool {
    ||| beats_upto(values, tbs, skip_est_elo, tbs.len() as int, x, y)
    ||| (tied_upto(values, tbs, skip_est_elo, tbs.len() as int, x, y) && numbers[x as int] < numbers[y as int])
}

/// Groups ordered after the first `c` criteria: within a group every two
/// seats tie and come in ascending number order, and every seat of an earlier
/// group beats every seat of a later one.
pub open spec fn groups_ordered(gs: Seq<Seq<usize>>, values: Seq<Seq<u32>>, tbs: Seq<Tiebreak>, skip_est_elo: bool, numbers: Seq<u32>, c: int) -> bool {
    &&& forall|p: int, a: int, b: int|
        0 <= p < gs.len() && 0 <= a < b < gs[p].len() ==> tied_upto(values, tbs, skip_est_elo, c, #[trigger] gs[p][a], #[trigger] gs[p][b])
            && numbers[gs[p][a] as int] < numbers[gs[p][b] as int]
    &&& forall|p: int, q: int, a: int, b: int|
        0 <= p < q < gs.len() && 0 <= a < gs[p].len() && 0 <= b < gs[q].len() ==> beats_upto(
            values,
            tbs,
            skip_est_elo,
            c,
            #[trigger] gs[p][a],
            #[trigger] gs[q][b],
        )
}

/// Ties are symmetric.
proof fn lemma_tied_symmetric(values: Seq<Seq<u32>>, tbs: Seq<Tiebreak>, skip: bool, c: int, x: usize, y: usize)
    requires
        tied_upto(values, tbs, skip, c, x, y),
    ensures
        tied_upto(values, tbs, skip, c, y, x),
    decreases c,
{
    if c > 0 {
        lemma_tied_symmetric(values, tbs, skip, c - 1, x, y);
    }
}

/// A seat ties with itself.
proof fn lemma_tied_self(values: Seq<Seq<u32>>, tbs: Seq<Tiebreak>, skip: bool, c: int, x: usize)
    ensures
        tied_upto(values, tbs, skip, c, x, x),
    decreases c,
{
    if c > 0 {
        lemma_tied_self(values, tbs, skip, c - 1, x);
    }
}

/// Filtering keeps ascending numbers ascending.
proof fn lemma_filter_ascending(g: Seq<usize>, pred: spec_fn(usize) -> bool, numbers: Seq<u32>)
    requires
        forall|a: int, b: int| 0 <= a < b < g.len() ==> numbers[#[trigger] g[a] as int] < numbers[#[trigger] g[b] as int],
    ensures
        forall|a: int, b: int|
            0 <= a < b < g.filter(pred).len() ==> numbers[#[trigger] g.filter(pred)[a] as int] < numbers[#[trigger] g.filter(pred)[b] as int],
    decreases g.len(),
{
    reveal(Seq::filter);
    if g.len() > 0 {
        let init = g.drop_last();
        assert forall|a: int, b: int| 0 <= a < b < init.len() implies numbers[#[trigger] init[a] as int] < numbers[#[trigger] init[b] as int] by {
            assert(init[a] == g[a] && init[b] == g[b]);
        }
        lemma_filter_ascending(init, pred, numbers);
        let f = init.filter(pred);
        if pred(g.last()) {
            assert(g.filter(pred) == f.push(g.last()));
            assert forall|a: int, b: int| 0 <= a < b < f.push(g.last()).len() implies numbers[#[trigger] f.push(g.last())[a] as int] < numbers[#[trigger] f.push(g.last())[b] as int] by {
                if b == f.len() {
                    assert(f.contains(f[a]));
                    init.lemma_filter_contains_rev(pred, f[a]);
                    let i = choose|i: int| 0 <= i < init.len() && init[i] == f[a];
                    assert(g[i] == f[a] && g[g.len() - 1] == g.last());
                } else {
                    assert(f.push(g.last())[a] == f[a] && f.push(g.last())[b] == f[b]);
                }
            }
        }
    }
}

/// The distinct keys come strictly descending, all below `bound`.
proof fn lemma_keys_desc_strict(group: Seq<usize>, keys: Seq<u32>, bound: int)
    ensures
        forall|i: int| 0 <= i < keys_desc(group, keys, bound).len() ==> (#[trigger] keys_desc(group, keys, bound)[i] as int) < bound,
        forall|i: int, j: int|
            0 <= i < j < keys_desc(group, keys, bound).len() ==> #[trigger] keys_desc(group, keys, bound)[i] > #[trigger] keys_desc(group, keys, bound)[j],
    decreases bound,
{
    match max_below(group, keys, bound, group.len() as int) {
        Some(m) => if 0 <= m < bound {
            lemma_keys_desc_strict(group, keys, m as int);
            let ks = keys_desc(group, keys, bound);
            let rest = keys_desc(group, keys, m as int);
            assert(ks == seq![m] + rest);
            assert forall|i: int, j: int| 0 <= i < j < ks.len() implies #[trigger] ks[i] > #[trigger] ks[j] by {
                if i == 0 {
                    assert(ks[j] == rest[j - 1]);
                } else {
                    assert(ks[i] == rest[i - 1] && ks[j] == rest[j - 1]);
                }
            }
            assert forall|i: int| 0 <= i < ks.len() implies (#[trigger] ks[i] as int) < bound by {
                if i > 0 {
                    assert(ks[i] == rest[i - 1]);
                }
            }
        } else {
        },
        None => {},
    }
}

/// Splitting a tied, number-ordered group by criterion `c` gives groups
/// ordered after `c + 1` criteria, drawn from the group.
proof fn lemma_split_ordered(g: Seq<usize>, values: Seq<Seq<u32>>, tbs: Seq<Tiebreak>, skip: bool, numbers: Seq<u32>, c: int)
    requires
        0 <= c < values.len(),
        counted(tbs, skip, c),
        forall|a: int, b: int| 0 <= a < b < g.len() ==> tied_upto(values, tbs, skip, c, #[trigger] g[a], #[trigger] g[b])
            && numbers[g[a] as int] < numbers[g[b] as int],
    ensures
        groups_ordered(split_spec(g, values[c]), values, tbs, skip, numbers, c + 1),
        forall|p: int, a: int| 0 <= p < split_spec(g, values[c]).len() && 0 <= a < split_spec(g, values[c])[p].len()
            ==> g.contains(#[trigger] split_spec(g, values[c])[p][a]),
{
    let keys = values[c];
    let sp = split_spec(g, keys);
    let ks = keys_desc(g, keys, u32::MAX as int + 1);
    lemma_keys_desc_strict(g, keys, u32::MAX as int + 1);
    assert forall|a: int, b: int| 0 <= a < b < g.len() implies numbers[#[trigger] g[a] as int] < numbers[#[trigger] g[b] as int] by {}
    assert forall|x: usize, y: usize| g.contains(x) && g.contains(y) implies #[trigger] tied_upto(values, tbs, skip, c, x, y) by {
        let a = choose|a: int| 0 <= a < g.len() && g[a] == x;
        let b = choose|b: int| 0 <= b < g.len() && g[b] == y;
        if a < b {
        } else if b < a {
            assert(tied_upto(values, tbs, skip, c, g[b], g[a]));
            lemma_tied_symmetric(values, tbs, skip, c, y, x);
        } else {
            lemma_tied_self(values, tbs, skip, c, x);
        }
    }
    assert forall|p: int, a: int| 0 <= p < sp.len() && 0 <= a < sp[p].len() implies g.contains(#[trigger] sp[p][a]) && keys[sp[p][a] as int] == ks[p] by {
        assert(sp[p] == g.filter(key_is(keys, ks[p])));
        g.lemma_filter_pred(key_is(keys, ks[p]), a);
        assert(sp[p].contains(sp[p][a]));
        g.lemma_filter_contains_rev(key_is(keys, ks[p]), sp[p][a]);
    }
    assert forall|p: int, a: int, b: int|
        0 <= p < sp.len() && 0 <= a < b < sp[p].len() implies tied_upto(values, tbs, skip, c + 1, #[trigger] sp[p][a], #[trigger] sp[p][b])
            && numbers[sp[p][a] as int] < numbers[sp[p][b] as int] by {
        assert(sp[p] == g.filter(key_is(keys, ks[p])));
        lemma_filter_ascending(g, key_is(keys, ks[p]), numbers);
        assert(g.contains(sp[p][a]) && g.contains(sp[p][b]));
        assert(tied_upto(values, tbs, skip, c, sp[p][a], sp[p][b]));
        assert(keys[sp[p][a] as int] == ks[p] && keys[sp[p][b] as int] == ks[p]);
    }
    assert forall|p: int, q: int, a: int, b: int|
        0 <= p < q < sp.len() && 0 <= a < sp[p].len() && 0 <= b < sp[q].len() implies beats_upto(
        values,
        tbs,
        skip,
        c + 1,
        #[trigger] sp[p][a],
        #[trigger] sp[q][b],
    ) by {
        assert(g.contains(sp[p][a]) && g.contains(sp[q][b]));
        assert(tied_upto(values, tbs, skip, c, sp[p][a], sp[q][b]));
        assert(keys[sp[p][a] as int] == ks[p] && keys[sp[q][b] as int] == ks[q]);
        assert(ks[p] > ks[q]);
    }
}

/// Seat `x` is in one of the first `n` groups.
pub open spec fn in_first(groups: Seq<Seq<usize>>, n: int, x: usize) -> bool {
    exists|i: int| 0 <= i < n && #[trigger] groups[i].contains(x)
}

/// Every seat of `gs` is in one of the first `n` of `groups`.
pub open spec fn drawn_from(gs: Seq<Seq<usize>>, groups: Seq<Seq<usize>>, n: int) -> bool {
    forall|p: int, a: int| 0 <= p < gs.len() && 0 <= a < gs[p].len() ==> #[trigger] in_first(groups, n, gs[p][a])
}

/// Refining ordered groups by a counted criterion `c` (not the head-to-head)
/// keeps them ordered, now after `c + 1` criteria; each refined group draws
/// on the first `n` groups.
proof fn lemma_refine_ordered(
    groups: Seq<Seq<usize>>,
    tb: Tiebreak,
    values: Seq<Seq<u32>>,
    tbs: Seq<Tiebreak>,
    skip: bool,
    numbers: Seq<u32>,
    c: int,
    rows: Seq<(Uuid, Seq<Uuid>, Seq<Uuid>)>,
    dc: Seq<u32>,
    n: int,
)
    requires
        groups_ordered(groups, values, tbs, skip, numbers, c),
        tb != Tiebreak::Dc,
        0 <= c < values.len(),
        counted(tbs, skip, c),
        0 <= n <= groups.len(),
    ensures
        groups_ordered(refine(groups, tb, values[c], rows, dc, n).0, values, tbs, skip, numbers, c + 1),
        drawn_from(refine(groups, tb, values[c], rows, dc, n).0, groups, n),
    decreases n,
{
    if n > 0 {
        lemma_refine_ordered(groups, tb, values, tbs, skip, numbers, c, rows, dc, n - 1);
        let keys = values[c];
        let (gs, d) = refine(groups, tb, keys, rows, dc, n - 1);
        let g = groups[n - 1];
        let s = if g.len() < 2 {
            seq![g]
        } else {
            split_spec(g, keys)
        };
        let out = refine(groups, tb, keys, rows, dc, n).0;
        if g.len() < 2 {
            assert(out == gs.push(g));
            assert(gs.push(g) =~= gs + s);
        } else {
            assert(out == gs + s);
            assert forall|a: int, b: int| 0 <= a < b < g.len() implies tied_upto(values, tbs, skip, c, #[trigger] g[a], #[trigger] g[b])
                && numbers[g[a] as int] < numbers[g[b] as int] by {
                assert(groups[n - 1][a] == g[a] && groups[n - 1][b] == g[b]);
            }
            lemma_split_ordered(g, values, tbs, skip, numbers, c);
        }
        // every new group draws on `g`
        assert forall|p: int, a: int| 0 <= p < s.len() && 0 <= a < s[p].len() implies g.contains(#[trigger] s[p][a]) by {
            if g.len() < 2 {
                assert(s[p] == g);
                assert(g[a] == s[p][a]);
            }
        }
        // the new groups among themselves
        assert forall|p: int, a: int, b: int|
            0 <= p < s.len() && 0 <= a < b < s[p].len() implies tied_upto(values, tbs, skip, c + 1, #[trigger] s[p][a], #[trigger] s[p][b])
                && numbers[s[p][a] as int] < numbers[s[p][b] as int] by {
            if g.len() < 2 {
                assert(s[p] == g);
            }
        }
        assert forall|p: int, q: int, a: int, b: int|
            0 <= p < q < s.len() && 0 <= a < s[p].len() && 0 <= b < s[q].len() implies beats_upto(
            values,
            tbs,
            skip,
            c + 1,
            #[trigger] s[p][a],
            #[trigger] s[q][b],
        ) by {}
        // an earlier group against a new one
        assert forall|p: int, q: int, a: int, b: int|
            0 <= p < gs.len() && 0 <= q < s.len() && 0 <= a < gs[p].len() && 0 <= b < s[q].len() implies beats_upto(
            values,
            tbs,
            skip,
            c + 1,
            #[trigger] gs[p][a],
            #[trigger] s[q][b],
        ) by {
            assert(in_first(groups, n - 1, gs[p][a]));
            let i = choose|i: int| 0 <= i < n - 1 && #[trigger] groups[i].contains(gs[p][a]);
            let ia = choose|ia: int| 0 <= ia < groups[i].len() && groups[i][ia] == gs[p][a];
            assert(g.contains(s[q][b]));
            let ib = choose|ib: int| 0 <= ib < g.len() && g[ib] == s[q][b];
            assert(groups[n - 1][ib] == g[ib]);
            assert(beats_upto(values, tbs, skip, c, groups[i][ia], groups[n - 1][ib]));
        }
        let all = gs + s;
        assert forall|p: int, a: int, b: int|
            0 <= p < all.len() && 0 <= a < b < all[p].len() implies tied_upto(values, tbs, skip, c + 1, #[trigger] all[p][a], #[trigger] all[p][b])
                && numbers[all[p][a] as int] < numbers[all[p][b] as int] by {
            if p < gs.len() {
                assert(all[p] == gs[p]);
            } else {
                assert(all[p] == s[p - gs.len()]);
            }
        }
        assert forall|p: int, q: int, a: int, b: int|
            0 <= p < q < all.len() && 0 <= a < all[p].len() && 0 <= b < all[q].len() implies beats_upto(
            values,
            tbs,
            skip,
            c + 1,
            #[trigger] all[p][a],
            #[trigger] all[q][b],
        ) by {
            if q < gs.len() {
                assert(all[p] == gs[p] && all[q] == gs[q]);
            } else if p < gs.len() {
                assert(all[p] == gs[p] && all[q] == s[q - gs.len()]);
            } else {
                assert(all[p] == s[p - gs.len()] && all[q] == s[q - gs.len()]);
            }
        }
        assert forall|p: int, a: int| 0 <= p < all.len() && 0 <= a < all[p].len() implies #[trigger] in_first(groups, n, all[p][a]) by {
            if p < gs.len() {
                assert(all[p] == gs[p]);
                assert(in_first(groups, n - 1, gs[p][a]));
                let i = choose|i: int| 0 <= i < n - 1 && #[trigger] groups[i].contains(gs[p][a]);
                assert(groups[i].contains(all[p][a]));
            } else {
                assert(all[p] == s[p - gs.len()]);
                assert(g.contains(all[p][a]));
                assert(groups[n - 1] == g);
            }
        }
    }
}

/// After the first `c` criteria the ranking's groups are ordered.
proof fn lemma_rank_ordered(seed: Seq<usize>, tbs: Seq<Tiebreak>, skip: bool, values: Seq<Seq<u32>>, rows: Seq<(Uuid, Seq<Uuid>, Seq<Uuid>)>, numbers: Seq<u32>, c: int)
    requires
        forall|k: int, l: int| 0 <= k < l < seed.len() ==> numbers[#[trigger] seed[k] as int] < numbers[#[trigger] seed[l] as int],
        forall|i: int| 0 <= i < tbs.len() ==> #[trigger] tbs[i] != Tiebreak::Dc,
        values.len() == tbs.len(),
        c <= tbs.len(),
    ensures
        groups_ordered(rank_state(seed, tbs, skip, values, rows, c).0, values, tbs, skip, numbers, c),
    decreases c,
{
    if c <= 0 {
        let gs = seq![seed];
        assert forall|p: int, a: int, b: int|
            0 <= p < gs.len() && 0 <= a < b < gs[p].len() implies tied_upto(values, tbs, skip, c, #[trigger] gs[p][a], #[trigger] gs[p][b])
                && numbers[gs[p][a] as int] < numbers[gs[p][b] as int] by {
            assert(gs[p] == seed);
        }
    } else {
        lemma_rank_ordered(seed, tbs, skip, values, rows, numbers, c - 1);
        let (gs, d) = rank_state(seed, tbs, skip, values, rows, c - 1);
        let tb = tbs[c - 1];
        if tb == Tiebreak::EstElo && skip {
            assert forall|p: int, a: int, b: int|
                0 <= p < gs.len() && 0 <= a < b < gs[p].len() implies tied_upto(values, tbs, skip, c, #[trigger] gs[p][a], #[trigger] gs[p][b])
                    && numbers[gs[p][a] as int] < numbers[gs[p][b] as int] by {}
            assert forall|p: int, q: int, a: int, b: int|
                0 <= p < q < gs.len() && 0 <= a < gs[p].len() && 0 <= b < gs[q].len() implies beats_upto(
                values,
                tbs,
                skip,
                c,
                #[trigger] gs[p][a],
                #[trigger] gs[q][b],
            ) by {}
        } else {
            lemma_refine_ordered(gs, tb, values, tbs, skip, numbers, c - 1, rows, d, gs.len() as int);
        }
    }
}

/// Every position of the joined groups holds a seat of some group, and a
/// position of an earlier group comes before one of a later group.
proof fn lemma_concat_place(gs: Seq<Seq<usize>>, k: int)
    requires
        0 <= k < concat(gs).len(),
    ensures
        exists|p: int, a: int| 0 <= p < gs.len() && 0 <= a < gs[p].len() && #[trigger] gs[p][a] == concat(gs)[k]
            && k == concat(gs.subrange(0, p)).len() + a,
    decreases gs.len(),
{
    let init = gs.drop_last();
    if k < concat(init).len() {
        lemma_concat_place(init, k);
        let (p, a) = choose|p: int, a: int| 0 <= p < init.len() && 0 <= a < init[p].len() && #[trigger] init[p][a] == concat(init)[k]
            && k == concat(init.subrange(0, p)).len() + a;
        assert(init.subrange(0, p) == gs.subrange(0, p));
        assert(gs[p][a] == concat(gs)[k]);
    } else {
        let p = gs.len() - 1;
        let a = k - concat(init).len();
        assert(gs.subrange(0, p) == init);
        assert(gs[p][a] == concat(gs)[k]);
    }
}

/// The joined groups' length up to group `p` grows with `p`.
proof fn lemma_concat_prefix_grows(gs: Seq<Seq<usize>>, p: int, q: int)
    requires
        0 <= p < q <= gs.len(),
    ensures
        concat(gs.subrange(0, p)).len() + gs[p].len() <= concat(gs.subrange(0, q)).len(),
    decreases q - p,
{
    let sq = gs.subrange(0, q);
    assert(sq.drop_last() == gs.subrange(0, q - 1));
    assert(sq.last() == gs[q - 1]);
    if q - 1 > p {
        lemma_concat_prefix_grows(gs, p, q - 1);
    }
}

/// Ordered groups, joined, rank every earlier seat before every later one.
proof fn lemma_concat_ordered(gs: Seq<Seq<usize>>, values: Seq<Seq<u32>>, tbs: Seq<Tiebreak>, skip: bool, numbers: Seq<u32>)
    requires
        groups_ordered(gs, values, tbs, skip, numbers, tbs.len() as int),
    ensures
        forall|k: int, l: int|
            0 <= k < l < concat(gs).len() ==> ranks_before(values, tbs, skip, numbers, #[trigger] concat(gs)[k], #[trigger] concat(gs)[l]),
{
    let o = concat(gs);
    assert forall|k: int, l: int| 0 <= k < l < o.len() implies ranks_before(values, tbs, skip, numbers, #[trigger] o[k], #[trigger] o[l]) by {
        lemma_concat_place(gs, k);
        lemma_concat_place(gs, l);
        let (p, a) = choose|p: int, a: int| 0 <= p < gs.len() && 0 <= a < gs[p].len() && #[trigger] gs[p][a] == o[k]
            && k == concat(gs.subrange(0, p)).len() + a;
        let (q, b) = choose|q: int, b: int| 0 <= q < gs.len() && 0 <= b < gs[q].len() && #[trigger] gs[q][b] == o[l]
            && l == concat(gs.subrange(0, q)).len() + b;
        if q < p {
            lemma_concat_prefix_grows(gs, q, p);
        } else if p < q {
            lemma_concat_prefix_grows(gs, p, q);
            assert(beats_upto(values, tbs, skip, tbs.len() as int, gs[p][a], gs[q][b]));
        } else {
            assert(a < b);
            assert(tied_upto(values, tbs, skip, tbs.len() as int, gs[p][a], gs[p][b]));
        }
    }
}

/// Without the head-to-head criterion, the ranking is a lexicographic sort:
/// it takes every unranked standing exactly once (`order`, which gives for
/// each ranked standing the seat of the unranked one it was made from, is a
/// permutation of the seats), and of any two standings the earlier one beats
/// the later on the first counted criterion where they differ, or ties with
/// it on all of them and holds the smaller tournament number.
pub proof fn lemma_ranked_lexicographically(
    standings: Seq<Standing>,
    numbers: Seq<u32>,
    tbs: Seq<Tiebreak>,
    skip_est_elo: bool,
    r: Seq<Standing>,
    seed: Seq<usize>,
)
    requires
        ranked_from(standings, numbers, tbs, skip_est_elo, r, seed),
        numbers.len() == standings.len(),
        forall|i: int| 0 <= i < tbs.len() ==> #[trigger] tbs[i] != Tiebreak::Dc,
    ensures
        ({
            let values = criterion_values(standings, tbs);
            let order = concat(rank_state(seed, tbs, skip_est_elo, values, standing_views(standings), tbs.len() as int).0);
            &&& r.len() == order.len()
            &&& order.to_multiset() == seed.to_multiset()
            &&& forall|k: int, l: int|
                0 <= k < l < r.len() ==> ranks_before(values, tbs, skip_est_elo, numbers, #[trigger] order[k], #[trigger] order[l])
        }),
{
    let values = criterion_values(standings, tbs);
    let rows = standing_views(standings);
    lemma_rank_ordered(seed, tbs, skip_est_elo, values, rows, numbers, tbs.len() as int);
    lemma_concat_ordered(rank_state(seed, tbs, skip_est_elo, values, rows, tbs.len() as int).0, values, tbs, skip_est_elo, numbers);
    assert forall|i: int| 0 <= i < values.len() implies (#[trigger] values[i]).len() == rows.len() by {}
    lemma_rank_keeps(seed, tbs, skip_est_elo, values, rows, tbs.len() as int);
}

/// The seat's key is below `bound`.
pub open spec fn key_below(keys: Seq<u32>, bound: int) -> spec_fn(usize) -> bool {
    |i: usize| (keys[i as int] as int) < bound
}

/// Filters agreeing on every element of `g` keep the same elements.
proof fn lemma_filter_same(g: Seq<usize>, p: spec_fn(usize) -> bool, q: spec_fn(usize) -> bool)
    requires
        forall|i: int| 0 <= i < g.len() ==> p(#[trigger] g[i]) == q(g[i]),
    ensures
        g.filter(p) == g.filter(q),
    decreases g.len(),
{
    reveal(Seq::filter);
    if g.len() > 0 {
        let init = g.drop_last();
        assert forall|i: int| 0 <= i < init.len() implies p(#[trigger] init[i]) == q(init[i]) by {
            assert(init[i] == g[i]);
        }
        lemma_filter_same(init, p, q);
        assert(p(g[g.len() - 1]) == q(g[g.len() - 1]));
    }
}

/// Both predicates hold.
pub open spec fn both(p: spec_fn(usize) -> bool, q: spec_fn(usize) -> bool) -> spec_fn(usize) -> bool {
    |x: usize| p(x) && q(x)
}

/// The first predicate holds and the second does not.
pub open spec fn but_not(p: spec_fn(usize) -> bool, q: spec_fn(usize) -> bool) -> spec_fn(usize) -> bool {
    |x: usize| p(x) && !q(x)
}

/// A filter splits into the seats that also meet `q` and those that do not.
proof fn lemma_filter_parts(g: Seq<usize>, p: spec_fn(usize) -> bool, q: spec_fn(usize) -> bool)
    ensures
        g.filter(p).to_multiset() =~= g.filter(both(p, q)).to_multiset().add(g.filter(but_not(p, q)).to_multiset()),
    decreases g.len(),
{
    broadcast use vstd::multiset::group_multiset_axioms;

    reveal(Seq::filter);
    let pq = both(p, q);
    let pn = but_not(p, q);
    if g.len() == 0 {
        assert(g.filter(p) == g && g.filter(pq) == g && g.filter(pn) == g);
        Seq::<usize>::empty().to_multiset_ensures();
        assert(g =~= Seq::<usize>::empty());
    } else {
        let init = g.drop_last();
        lemma_filter_parts(init, p, q);
        let x = g.last();
        let (a, b, c) = (init.filter(p), init.filter(pq), init.filter(pn));
        vstd::seq_lib::to_multiset_build(a, x);
        vstd::seq_lib::to_multiset_build(b, x);
        vstd::seq_lib::to_multiset_build(c, x);
        if p(x) && q(x) {
            assert(g.filter(p) == a.push(x) && g.filter(pq) == b.push(x) && g.filter(pn) == c);
        } else if p(x) {
            assert(g.filter(p) == a.push(x) && g.filter(pq) == b && g.filter(pn) == c.push(x));
        } else {
            assert(g.filter(p) == a && g.filter(pq) == b && g.filter(pn) == c);
        }
    }
}

/// Joining a group in front of the others joins its seats in front.
proof fn lemma_concat_front(a: Seq<usize>, rest: Seq<Seq<usize>>)
    ensures
        concat(seq![a] + rest) == a + concat(rest),
    decreases rest.len(),
{
    if rest.len() == 0 {
        assert(seq![a] + rest == seq![a]);
        assert(seq![a].drop_last() =~= Seq::<Seq<usize>>::empty());
        assert(a + concat(rest) =~= a);
        assert(concat(Seq::<Seq<usize>>::empty()) + a =~= a);
    } else {
        lemma_concat_front(a, rest.drop_last());
        assert((seq![a] + rest).drop_last() =~= seq![a] + rest.drop_last());
        assert((seq![a] + rest).last() == rest.last());
        assert(a + concat(rest.drop_last()) + rest.last() =~= a + (concat(rest.drop_last()) + rest.last()));
    }
}

/// Joining two lists of groups joins their seats.
proof fn lemma_concat_append(gs: Seq<Seq<usize>>, hs: Seq<Seq<usize>>)
    ensures
        concat(gs + hs) == concat(gs) + concat(hs),
    decreases hs.len(),
{
    if hs.len() == 0 {
        assert(gs + hs =~= gs);
        assert(concat(gs) + concat(hs) =~= concat(gs));
    } else {
        lemma_concat_append(gs, hs.drop_last());
        assert((gs + hs).drop_last() =~= gs + hs.drop_last());
        assert((gs + hs).last() == hs.last());
        assert(concat(gs) + concat(hs.drop_last()) + hs.last() =~= concat(gs) + (concat(hs.drop_last()) + hs.last()));
    }
}

/// The split's subgroups for the keys below `bound` hold exactly the seats
/// with a key below `bound`.
proof fn lemma_split_below(g: Seq<usize>, keys: Seq<u32>, bound: int)
    requires
        forall|i: int| 0 <= i < g.len() ==> (#[trigger] g[i] as int) < keys.len(),
    ensures
        concat(keys_desc(g, keys, bound).map_values(|k: u32| with_key(g, keys, k))).to_multiset()
            =~= g.filter(key_below(keys, bound)).to_multiset(),
    decreases bound,
{
    broadcast use vstd::multiset::group_multiset_axioms;

    lemma_max_below(g, keys, bound, g.len() as int);
    let ks = keys_desc(g, keys, bound);
    match max_below(g, keys, bound, g.len() as int) {
        Some(m) => {
            lemma_split_below(g, keys, m as int);
            let rest = keys_desc(g, keys, m as int);
            assert(ks == seq![m] + rest);
            let whole = ks.map_values(|k: u32| with_key(g, keys, k));
            let tail = rest.map_values(|k: u32| with_key(g, keys, k));
            let head = with_key(g, keys, m);
            assert(whole =~= seq![head] + tail);
            lemma_concat_front(head, tail);
            let p = key_below(keys, bound);
            let q = key_is(keys, m);
            lemma_filter_parts(g, p, q);
            lemma_filter_same(g, both(p, q), q);
            assert forall|i: int| 0 <= i < g.len() implies but_not(p, q)(#[trigger] g[i]) == key_below(keys, m as int)(g[i]) by {
                let k = keys[g[i] as int];
                if (k as int) < bound && k > m {
                    assert(keys[g[i] as int] <= m);
                }
            }
            lemma_filter_same(g, but_not(p, q), key_below(keys, m as int));
            vstd::seq_lib::lemma_multiset_commutative(head, concat(tail));
            assert(head == g.filter(q));
            assert(concat(whole).to_multiset() =~= head.to_multiset().add(concat(tail).to_multiset()));
            assert(concat(tail).to_multiset() =~= g.filter(key_below(keys, m as int)).to_multiset());
            assert(g.filter(p).to_multiset() =~= head.to_multiset().add(g.filter(key_below(keys, m as int)).to_multiset()));
            assert(concat(whole).to_multiset() =~= g.filter(p).to_multiset());
            assert(keys_desc(g, keys, bound).map_values(|k: u32| with_key(g, keys, k)) =~= whole);
        },
        None => {
            assert(ks == Seq::<u32>::empty());
            assert(ks.map_values(|k: u32| with_key(g, keys, k)) =~= Seq::<Seq<usize>>::empty());
            Seq::<usize>::empty().to_multiset_ensures();
            assert forall|i: int| 0 <= i < g.len() implies !key_below(keys, bound)(#[trigger] g[i]) by {}
            g.lemma_all_neg_filter_empty(key_below(keys, bound));
            assert(g.filter(key_below(keys, bound)).len() == 0);
            assert(g.filter(key_below(keys, bound)) =~= Seq::<usize>::empty());
            assert(concat(Seq::<Seq<usize>>::empty()) == Seq::<usize>::empty());
        },
    }
}

/// A filter every element meets keeps them all.
proof fn lemma_filter_all(g: Seq<usize>, p: spec_fn(usize) -> bool)
    requires
        forall|i: int| 0 <= i < g.len() ==> p(#[trigger] g[i]),
    ensures
        g.filter(p) == g,
    decreases g.len(),
{
    reveal(Seq::filter);
    if g.len() > 0 {
        let init = g.drop_last();
        assert forall|i: int| 0 <= i < init.len() implies p(#[trigger] init[i]) by {
            assert(init[i] == g[i]);
        }
        lemma_filter_all(init, p);
        assert(p(g[g.len() - 1]));
        assert(init.push(g.last()) =~= g);
    }
}

/// A split keeps every seat of the group, each once.
proof fn lemma_split_keeps(g: Seq<usize>, keys: Seq<u32>)
    requires
        forall|i: int| 0 <= i < g.len() ==> (#[trigger] g[i] as int) < keys.len(),
    ensures
        concat(split_spec(g, keys)).to_multiset() =~= g.to_multiset(),
{
    lemma_split_below(g, keys, u32::MAX as int + 1);
    lemma_filter_all(g, key_below(keys, u32::MAX as int + 1));
    assert(split_spec(g, keys) =~= keys_desc(g, keys, u32::MAX as int + 1).map_values(|k: u32| with_key(g, keys, k)));
}

/// Refining (without the head-to-head) keeps every seat of the first `n`
/// groups, each once.
proof fn lemma_refine_keeps(groups: Seq<Seq<usize>>, tb: Tiebreak, keys: Seq<u32>, rows: Seq<(Uuid, Seq<Uuid>, Seq<Uuid>)>, dc: Seq<u32>, n: int)
    requires
        tb != Tiebreak::Dc,
        0 <= n <= groups.len(),
        forall|p: int, a: int| 0 <= p < groups.len() && 0 <= a < groups[p].len() ==> (#[trigger] groups[p][a] as int) < keys.len(),
    ensures
        concat(refine(groups, tb, keys, rows, dc, n).0).to_multiset() =~= concat(groups.subrange(0, n)).to_multiset(),
    decreases n,
{
    broadcast use vstd::multiset::group_multiset_axioms;

    if n <= 0 {
        assert(groups.subrange(0, 0) =~= Seq::<Seq<usize>>::empty());
        Seq::<usize>::empty().to_multiset_ensures();
    } else {
        lemma_refine_keeps(groups, tb, keys, rows, dc, n - 1);
        let (gs, d) = refine(groups, tb, keys, rows, dc, n - 1);
        let g = groups[n - 1];
        assert(groups.subrange(0, n).drop_last() =~= groups.subrange(0, n - 1));
        assert(groups.subrange(0, n).last() == g);
        vstd::seq_lib::lemma_multiset_commutative(concat(groups.subrange(0, n - 1)), g);
        assert(concat(groups.subrange(0, n)) == concat(groups.subrange(0, n - 1)) + g);
        if g.len() < 2 {
            assert(refine(groups, tb, keys, rows, dc, n).0 == gs.push(g));
            assert(gs.push(g).drop_last() =~= gs);
            assert(concat(gs.push(g)) == concat(gs) + g);
            vstd::seq_lib::lemma_multiset_commutative(concat(gs), g);
        } else {
            assert(refine(groups, tb, keys, rows, dc, n).0 == gs + split_spec(g, keys));
            assert forall|i: int| 0 <= i < g.len() implies (#[trigger] g[i] as int) < keys.len() by {
                assert(groups[n - 1][i] == g[i]);
            }
            lemma_split_keeps(g, keys);
            lemma_concat_append(gs, split_spec(g, keys));
            vstd::seq_lib::lemma_multiset_commutative(concat(gs), concat(split_spec(g, keys)));
        }
    }
}

/// Ranking (without the head-to-head) keeps every seat of the seed, each once.
proof fn lemma_rank_keeps(seed: Seq<usize>, tbs: Seq<Tiebreak>, skip: bool, values: Seq<Seq<u32>>, rows: Seq<(Uuid, Seq<Uuid>, Seq<Uuid>)>, c: int)
    requires
        forall|i: int| 0 <= i < tbs.len() ==> #[trigger] tbs[i] != Tiebreak::Dc,
        values.len() == tbs.len(),
        forall|i: int| 0 <= i < values.len() ==> (#[trigger] values[i]).len() == rows.len(),
        forall|i: int| 0 <= i < seed.len() ==> (#[trigger] seed[i] as int) < rows.len(),
        c <= tbs.len(),
    ensures
        concat(rank_state(seed, tbs, skip, values, rows, c).0).to_multiset() =~= seed.to_multiset(),
    decreases c,
{
    if c <= 0 {
        assert(seq![seed].drop_last() =~= Seq::<Seq<usize>>::empty());
        assert(concat(Seq::<Seq<usize>>::empty()) == Seq::<usize>::empty());
        assert(seq![seed].last() == seed);
        assert(concat(seq![seed]) =~= seed);
    } else {
        lemma_rank_keeps(seed, tbs, skip, values, rows, c - 1);
        let (gs, d) = rank_state(seed, tbs, skip, values, rows, c - 1);
        let tb = tbs[c - 1];
        if !(tb == Tiebreak::EstElo && skip) {
            lemma_rank_bounded(seed, tbs, skip, values, rows, c - 1, rows.len() as int);
            assert(values[c - 1].len() == rows.len());
            lemma_refine_keeps(gs, tb, values[c - 1], rows, d, gs.len() as int);
            assert(gs.subrange(0, gs.len() as int) =~= gs);
        }
    }
}

/// Each tie-break criterion reads its own column of the block — SOS from the
/// SOS sum, SODOS from the SODOS sum, and so on — and the criteria the block
/// does not carry (points, board wins, estimated ELO) read nothing.
pub proof fn lemma_criteria_read_their_own_column(t: Tiebreaks)
    ensures
        tiebreak_value(t, Tiebreak::SosM) == Some(t.sosm.0),
        tiebreak_value(t, Tiebreak::SosW) == Some(t.sosw.0),
        tiebreak_value(t, Tiebreak::SodosM) == Some(t.sodosm.0),
        tiebreak_value(t, Tiebreak::SodosW) == Some(t.sodosw.0),
        tiebreak_value(t, Tiebreak::SososM) == Some(t.sososm.0),
        tiebreak_value(t, Tiebreak::SososW) == Some(t.sososw.0),
        tiebreak_value(t, Tiebreak::SosM1) == Some(t.sosm1.0),
        tiebreak_value(t, Tiebreak::SosM2) == Some(t.sosm2.0),
        tiebreak_value(t, Tiebreak::SosW1) == Some(t.sosw1.0),
        tiebreak_value(t, Tiebreak::SosW2) == Some(t.sosw2.0),
        tiebreak_value(t, Tiebreak::CussM) == Some(t.cussm.0),
        tiebreak_value(t, Tiebreak::CussW) == Some(t.cussw.0),
        tiebreak_value(t, Tiebreak::Dc) == Some(t.dc.0),
        tiebreak_value(t, Tiebreak::Points) is None,
        tiebreak_value(t, Tiebreak::BoardWins) is None,
        tiebreak_value(t, Tiebreak::EstElo) is None,
{
}

/// Raising one column of a block changes that criterion's value and no
/// other's: blocks that agree everywhere but the SODOS sum rank alike on
/// every criterion but SODOS, and differ there.
pub proof fn lemma_sodos_column_alone_moves_sodos(t: Tiebreaks, u: Tiebreaks)
    requires
        t.sodosm != u.sodosm,
        t == (Tiebreaks { sodosm: t.sodosm, ..u }),
    ensures
        tiebreak_value(t, Tiebreak::SodosM) != tiebreak_value(u, Tiebreak::SodosM),
        forall|tb: Tiebreak| tb != Tiebreak::SodosM ==> #[trigger] tiebreak_value(t, tb) == tiebreak_value(u, tb),
{
}

/// A standing's value for a criterion: its score for points, its wins for
/// board wins, its estimate (floored at zero, zero when there is none) for
/// the estimated ELO, and otherwise the tie-break block's own column.
pub proof fn lemma_standing_values(s: Standing)
    ensures
        standing_value(s, Tiebreak::Points) == s.points.0,
        standing_value(s, Tiebreak::BoardWins) == s.victories.0,
        standing_value(s, Tiebreak::EstElo) == (match s.estimated_elo {
            Some(e) => if e > 0 { e as u32 } else { 0 },
            None => 0u32,
        }),
        standing_value(s, Tiebreak::SosM) == s.tiebreaks.sosm.0,
        standing_value(s, Tiebreak::SodosM) == s.tiebreaks.sodosm.0,
        standing_value(s, Tiebreak::SososM) == s.tiebreaks.sososm.0,
        standing_value(s, Tiebreak::CussM) == s.tiebreaks.cussm.0,
        standing_value(s, Tiebreak::Dc) == s.tiebreaks.dc.0,
{
}

/// What the tie-break columns add up: a player who beat nobody has no SODOS;
/// one who beat every opponent has SODOS equal to SOS; one who met nobody has
/// no SOS, SOSOS or cut SOS; dropping more of the lowest opponents never
/// raises a cut SOS, and dropping the only opponent leaves nothing.
pub proof fn lemma_tiebreak_columns(rows: Seq<RowView>, numbers: Seq<usize>, k: usize, t: Tiebreaks)
    requires
        tiebreaks_of(rows, numbers, k, t),
        numbers.contains(k),
    ensures
        rows[k as int].1.len() == 0 ==> t.sodosm.0 == 0 && t.sodosw.0 == 0,
        rows[k as int].1 == rows[k as int].0 ==> t.sodosm.0 == t.sosm.0 && t.sodosw.0 == t.sosw.0,
        rows[k as int].0.len() == 0 ==> t.sosm.0 == 0 && t.sosw.0 == 0 && t.sososm.0 == 0 && t.sososw.0 == 0
            && t.sosm1.0 == 0 && t.sosw1.0 == 0,
        rows[k as int].0.len() <= 1 ==> t.sosm1.0 == 0 && t.sosm2.0 == 0 && t.sosw1.0 == 0 && t.sosw2.0 == 0,
        t.sosm2.0 <= t.sosm1.0,
        t.sosw2.0 <= t.sosw1.0,
{
    broadcast use vstd::seq_lib::group_to_multiset_ensures;

    let r = rows[k as int];
    let ps = points_of_rows(rows, r.0);
    let ws = wins_of_rows(rows, r.0);
    lemma_cut_drops(ps, t.sosm1.0 as int, t.sosm2.0 as int);
    lemma_cut_drops(ws, t.sosw1.0 as int, t.sosw2.0 as int);
    if r.0.len() == 0 {
        assert(sosms_of(rows, numbers, r.0).len() == 0);
        assert(sosws_of(rows, numbers, r.0).len() == 0);
    }
}

/// Cut sums of one list of scores: dropping two of the lowest leaves no more
/// than dropping one, and a list of at most one score leaves nothing either
/// way.
proof fn lemma_cut_drops(scores: Seq<u32>, one: int, two: int)
    requires
        cut_sum(scores, 1, one),
        cut_sum(scores, 2, two),
    ensures
        two <= one,
        scores.len() <= 1 ==> one == 0 && two == 0,
{
    broadcast use vstd::seq_lib::group_to_multiset_ensures;

    let s1 = choose|s: Seq<u32>| #[trigger] sorted_up(s) && s.to_multiset() == scores.to_multiset() && one == sum_from(s, 1);
    let s2 = choose|s: Seq<u32>| #[trigger] sorted_up(s) && s.to_multiset() == scores.to_multiset() && two == sum_from(s, 2);
    lemma_sorted_unique(s1, s2);
    assert(s1.len() == scores.len()) by {
        assert(s1.to_multiset().len() == s1.len());
        assert(scores.to_multiset().len() == scores.len());
    }
    if s1.len() >= 2 {
        lemma_sum_from_nonneg(s1, 2);
        assert(sum_from(s1, 1) == s1[1] + sum_from(s1, 2));
    }
}

/// A sum of scores is never negative.
proof fn lemma_sum_from_nonneg(s: Seq<u32>, k: int)
    ensures
        sum_from(s, k) >= 0,
    decreases s.len() - k,
{
    if 0 <= k < s.len() {
        lemma_sum_from_nonneg(s, k + 1);
    }
}

} // verus!
