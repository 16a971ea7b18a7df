//! A locally queryable catalog of chess puzzle content: staging of a bulk
//! upstream dataset, a transactional import pipeline with deduplication,
//! a repository enforcing referential integrity between puzzle rows and
//! host-record links, and a filtered, paginated browse engine.

#![verifier::loop_isolation(false)]

pub mod bootstrap;
pub mod card;
pub mod codec;
pub mod deck;
pub mod deck_service;
pub mod error;
pub mod filter;
pub mod host;
pub mod import;
pub mod lichessdb;
pub mod lichessdb_service;
pub mod note_service;
pub mod puzzle;
pub mod repo;
pub mod staging;
pub mod text;

use vstd::prelude::*;

verus! {

/// The sort field text of a host record: the canonical puzzle id followed
/// by the deck name in parentheses.
pub open spec fn sfld_of(id: Seq<char>, deck_name: Seq<char>) -> Seq<char> {
    id + " ("@ + deck_name + ")"@
}

/// Formats the sort field text for a host record: the canonical puzzle id
/// followed by the deck name in parentheses.
pub fn format_anki_sfld(canonical_id: &str, deck_name: &str) -> (r: String)
    ensures
        r@ == sfld_of(canonical_id@, deck_name@),
{
    let mut s = String::from_str(canonical_id);
    s.append(" (");
    s.append(deck_name);
    s.append(")");
    s
}

} // verus!
