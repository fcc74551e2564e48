//! The dense key-indexed tables (`typed_index_collections::TiVec`) the
//! pairing engine and the score replay keep their per-unit data in.
//!
//! `TiVec<K, V>` is a `Vec<V>` indexed by a key type; each table this library
//! uses gets a name for its contents and wrappers for the three operations the
//! logic needs: building it from a `Vec`, reading an entry, and its length.

use vstd::prelude::*;

use typed_index_collections::TiVec;
use uuid::Uuid;

use crate::pairing::model::PairingUnit;
use crate::scoring::PlayerScore;
use crate::units::{TournamentId, UnitKey};

verus! {

/// `typed_index_collections::TiVec`, declared so it can stand in fields.
#[verifier::external_type_specification]
#[verifier::external_body]
#[verifier::reject_recursive_types(K)]
#[verifier::reject_recursive_types(V)]
pub struct ExTiVec<K, V>(TiVec<K, V>);

/// The entries of a pairing-unit table, in key order.
pub uninterp spec fn unit_rows(t: TiVec<UnitKey, PairingUnit>) -> Seq<PairingUnit>;

/// The entries of a score table, in tournament-number order.
pub uninterp spec fn score_rows(t: TiVec<TournamentId, PlayerScore>) -> Seq<PlayerScore>;

/// The entries of an id table, in tournament-number order.
pub uninterp spec fn id_rows(t: TiVec<TournamentId, Uuid>) -> Seq<Uuid>;

/// `TiVec::from(Vec)`: the table holds exactly the vector's entries.
#[verifier::external_body]
pub(crate) fn unit_table(v: Vec<PairingUnit>) -> (r: TiVec<UnitKey, PairingUnit>)
    ensures
        unit_rows(r) == v@,
{
    TiVec::from(v)
}

/// `TiVec::len`: the number of entries.
#[verifier::external_body]
pub(crate) fn unit_count(t: &TiVec<UnitKey, PairingUnit>) -> (r: usize)
    ensures
        r == unit_rows(*t).len(),
{
    t.len()
}

/// `TiVec`'s `Index`: the entry at key `k` (in bounds).
#[verifier::external_body]
pub(crate) fn unit_at(t: &TiVec<UnitKey, PairingUnit>, k: UnitKey) -> (r: &PairingUnit)
    requires
        (k.0 as int) < unit_rows(*t).len(),
    ensures
        *r == unit_rows(*t)[k.0 as int],
{
    &t[k]
}

/// `TiVec::from(Vec)` for a score table.
#[verifier::external_body]
pub(crate) fn score_table(v: Vec<PlayerScore>) -> (r: TiVec<TournamentId, PlayerScore>)
    ensures
        score_rows(r) == v@,
{
    TiVec::from(v)
}

/// `TiVec::len` for a score table.
#[verifier::external_body]
pub(crate) fn score_count(t: &TiVec<TournamentId, PlayerScore>) -> (r: usize)
    ensures
        r == score_rows(*t).len(),
{
    t.len()
}

/// `TiVec`'s `Index` for a score table (in bounds).
#[verifier::external_body]
pub(crate) fn score_at(t: &TiVec<TournamentId, PlayerScore>, k: TournamentId) -> (r: &PlayerScore)
    requires
        (k.0 as int) < score_rows(*t).len(),
    ensures
        *r == score_rows(*t)[k.0 as int],
{
    &t[k]
}

/// `TiVec::from(Vec)` for an id table.
#[verifier::external_body]
pub(crate) fn id_table(v: Vec<Uuid>) -> (r: TiVec<TournamentId, Uuid>)
    ensures
        id_rows(r) == v@,
{
    TiVec::from(v)
}

/// `TiVec`'s `Index` for an id table (in bounds).
#[verifier::external_body]
pub(crate) fn id_at(t: &TiVec<TournamentId, Uuid>, k: TournamentId) -> (r: Uuid)
    requires
        (k.0 as int) < id_rows(*t).len(),
    ensures
        r == id_rows(*t)[k.0 as int],
{
    t[k]
}

} // verus!
