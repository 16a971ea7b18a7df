//! Deck-level payloads: the browse-side deck summary, the per-deck limits
//! payload, and the flattened scheduling counts the host's deck tree yields.

use vstd::prelude::*;

verus! {

/// One deck with its scheduling counts, as listed to the caller.
#[derive(Debug)]
pub struct DeckInfo {
    pub id: i64,
    pub name: String,
    pub new_count: u32,
    pub learn_count: u32,
    pub due_count: u32,
}

pub struct DeckInfoView {
    pub id: i64,
    pub name: Seq<char>,
    pub new_count: u32,
    pub learn_count: u32,
    pub due_count: u32,
}

impl View for DeckInfo {
    type V = DeckInfoView;

    open spec fn view(&self) -> DeckInfoView {
        DeckInfoView {
            id: self.id,
            name: self.name@,
            new_count: self.new_count,
            learn_count: self.learn_count,
            due_count: self.due_count,
        }
    }
}

/// The per-deck scheduling limits.
#[derive(Debug, Clone, Copy, PartialEq, Eq, Structural)]
pub struct DeckLimitsPayload {
    pub new_cards_per_day: u32,
    pub reviews_per_day: u32,
}

/// One node of the host's deck tree, flattened: the deck id and its
/// scheduling counts. The host computes these; this library only joins them
/// with deck names.
#[derive(Debug, Clone, Copy, PartialEq, Eq, Structural)]
pub struct DeckCounts {
    pub deck_id: i64,
    pub new_count: u32,
    pub learn_count: u32,
    pub review_count: u32,
}

} // verus!
