//! Typed integer units: scores kept in half-points, win counts in half-wins,
//! and the dense numbers players, teams and pairing units are keyed by.

use vstd::prelude::*;

use vstd::std_specs::convert::FromSpecImpl;

verus! {

/// A score in half-points, so a `0=` sit-out (half a point) stays an integer.
/// An ordinary win is worth `2` here.
#[derive(Debug, Clone, Copy, PartialEq, Eq, PartialOrd, Ord, Hash, Default, Structural)]
pub struct HalfPoints(pub u32);

/// A win count in half-wins — a `0=` sit-out is half a win.
#[derive(Debug, Clone, Copy, PartialEq, Eq, PartialOrd, Ord, Hash, Default, Structural)]
pub struct Wins(pub u32);

/// A player's dense tournament number (1-based; `0` is never a player).
#[derive(Debug, Clone, Copy, PartialEq, Eq, PartialOrd, Ord, Hash, Default, Structural)]
pub struct TournamentId(pub u32);

/// A team's dense number (1-based), assigned at finalization.
#[derive(Debug, Clone, Copy, PartialEq, Eq, PartialOrd, Ord, Hash, Default, Structural)]
pub struct TeamId(pub u32);

/// The key of one pairable unit — a player number in an individual tournament,
/// a team number in a team one. `0` is the phantom (bye) vertex.
#[derive(Debug, Clone, Copy, PartialEq, Eq, PartialOrd, Ord, Hash, Default, Structural)]
pub struct UnitKey(pub u32);

impl HalfPoints {
    /// No points.
    pub fn zero() -> (r: HalfPoints)
        ensures
            r.0 == 0,
    {
        HalfPoints(0)
    }

    pub fn from_halves(halves: u32) -> (r: HalfPoints)
        ensures
            r.0 == halves,
    {
        HalfPoints(halves)
    }

    pub fn from_whole(whole: u32) -> (r: HalfPoints)
        requires
            2 * whole <= u32::MAX,
        ensures
            r.0 == 2 * whole,
    {
        HalfPoints(2 * whole)
    }

    pub fn halves(self) -> (r: u32)
        ensures
            r == self.0,
    {
        self.0
    }

    /// The sum of two scores.
    pub fn plus(self, other: HalfPoints) -> (r: HalfPoints)
        requires
            self.0 + other.0 <= u32::MAX,
        ensures
            r.0 == self.0 + other.0,
    {
        HalfPoints(self.0 + other.0)
    }

    /// A win count read as the points it is worth (one point per win).
    pub fn from_wins(w: Wins) -> (r: HalfPoints)
        ensures
            r.0 == w.0,
    {
        HalfPoints(w.0)
    }
}

impl Wins {
    /// No wins.
    pub fn zero() -> (r: Wins)
        ensures
            r.0 == 0,
    {
        Wins(0)
    }

    pub fn from_halves(halves: u32) -> (r: Wins)
        ensures
            r.0 == halves,
    {
        Wins(halves)
    }

    pub fn from_whole(whole: u32) -> (r: Wins)
        requires
            2 * whole <= u32::MAX,
        ensures
            r.0 == 2 * whole,
    {
        Wins(2 * whole)
    }

    pub fn halves(self) -> (r: u32)
        ensures
            r == self.0,
    {
        self.0
    }

    pub fn plus(self, other: Wins) -> (r: Wins)
        requires
            self.0 + other.0 <= u32::MAX,
        ensures
            r.0 == self.0 + other.0,
    {
        Wins(self.0 + other.0)
    }
}

impl UnitKey {
    /// The phantom vertex a bye is matched to.
    pub fn phantom() -> (r: UnitKey)
        ensures
            r.0 == 0,
    {
        UnitKey(0)
    }

    pub fn from_tid(t: TournamentId) -> (r: UnitKey)
        ensures
            r.0 == t.0,
    {
        UnitKey(t.0)
    }

    pub fn from_team(t: TeamId) -> (r: UnitKey)
        ensures
            r.0 == t.0,
    {
        UnitKey(t.0)
    }

    pub fn index(self) -> (r: usize)
        ensures
            r == self.0,
    {
        self.0 as usize
    }
}

impl TournamentId {
    pub fn from_key(k: UnitKey) -> (r: TournamentId)
        ensures
            r.0 == k.0,
    {
        TournamentId(k.0)
    }

    pub fn index(self) -> (r: usize)
        ensures
            r == self.0,
    {
        self.0 as usize
    }
}

impl TeamId {
    pub fn from_key(k: UnitKey) -> (r: TeamId)
        ensures
            r.0 == k.0,
    {
        TeamId(k.0)
    }
}

/// A unit key used as a table index.
impl From<UnitKey> for usize {
    fn from(k: UnitKey) -> (r: usize) {
        k.0 as usize
    }
}

impl FromSpecImpl<UnitKey> for usize {
    open spec fn obeys_from_spec() -> bool {
        true
    }

    open spec fn from_spec(k: UnitKey) -> usize {
        k.0 as usize
    }
}

/// A tournament number used as a table index.
impl From<TournamentId> for usize {
    fn from(t: TournamentId) -> (r: usize) {
        t.0 as usize
    }
}

impl FromSpecImpl<TournamentId> for usize {
    open spec fn obeys_from_spec() -> bool {
        true
    }

    open spec fn from_spec(t: TournamentId) -> usize {
        t.0 as usize
    }
}

} // verus!
