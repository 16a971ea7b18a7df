//! Payloads and results of the note-level operations: creation, update,
//! browsing and study-card assembly.

use vstd::prelude::*;

verus! {

/// Input of the single-item creation path.
pub struct AddNotePayload {
    pub deck_id: i64,
    pub fen: String,
    pub solution: String,
    pub comment: Option<String>,
    pub rating: Option<i32>,
    pub themes: Option<String>,
    pub game_url: Option<String>,
    pub opening_tags: Option<String>,
}

/// Input of the note update path: only the mutable fields.
pub struct UpdateNotePayload {
    pub note_id: i64,
    pub fen: String,
    pub solution: String,
    pub comment: String,
}

/// Browse-time query: target scope, 1-based page, page size, an open filter
/// string and a sort order name.
pub struct BrowseOptions {
    pub deck_id: i64,
    pub page: usize,
    pub page_size: usize,
    pub filter_text: Option<String>,
    pub sort_order: Option<String>,
}

/// One row of a browse page: the card and note identifiers together with the
/// catalog fields of the linked puzzle.
#[derive(Debug)]
pub struct BrowseCardInfo {
    pub card_id: i64,
    pub note_id: i64,
    pub puzzle_id: String,
    pub fen: String,
    pub solution: String,
    pub rating: i32,
    pub rating_deviation: i32,
    pub popularity: i32,
    pub nb_plays: i32,
    pub themes: String,
    pub game_url: String,
    pub opening_tags: String,
    pub comment: String,
    pub has_setup_move: bool,
}

/// The mathematical value of a browse row.
pub struct BrowseCardView {
    pub card_id: int,
    pub note_id: int,
    pub puzzle_id: Seq<char>,
    pub fen: Seq<char>,
    pub solution: Seq<char>,
    pub rating: int,
    pub rating_deviation: int,
    pub popularity: int,
    pub nb_plays: int,
    pub themes: Seq<char>,
    pub game_url: Seq<char>,
    pub opening_tags: Seq<char>,
    pub comment: Seq<char>,
    pub has_setup_move: bool,
}

impl View for BrowseCardInfo {
    type V = BrowseCardView;

    open spec fn view(&self) -> BrowseCardView {
        BrowseCardView {
            card_id: self.card_id as int,
            note_id: self.note_id as int,
            puzzle_id: self.puzzle_id@,
            fen: self.fen@,
            solution: self.solution@,
            rating: self.rating as int,
            rating_deviation: self.rating_deviation as int,
            popularity: self.popularity as int,
            nb_plays: self.nb_plays as int,
            themes: self.themes@,
            game_url: self.game_url@,
            opening_tags: self.opening_tags@,
            comment: self.comment@,
            has_setup_move: self.has_setup_move,
        }
    }
}

impl BrowseCardInfo {
    /// A value-preserving copy.
    pub fn duplicate(&self) -> (r: BrowseCardInfo)
        ensures
            r@ == self@,
    {
        BrowseCardInfo {
            card_id: self.card_id,
            note_id: self.note_id,
            puzzle_id: self.puzzle_id.clone(),
            fen: self.fen.clone(),
            solution: self.solution.clone(),
            rating: self.rating,
            rating_deviation: self.rating_deviation,
            popularity: self.popularity,
            nb_plays: self.nb_plays,
            themes: self.themes.clone(),
            game_url: self.game_url.clone(),
            opening_tags: self.opening_tags.clone(),
            comment: self.comment.clone(),
            has_setup_move: self.has_setup_move,
        }
    }
}

/// One page of browse results plus the total number of matching rows.
pub struct PaginatedBrowseResult {
    pub cards: Vec<BrowseCardInfo>,
    pub total_cards: usize,
}

/// The next card to study, with the four scheduling intervals and the full
/// puzzle payload.
#[derive(Debug)]
pub struct StudyCard {
    pub card_id: i64,
    pub note_id: i64,
    pub deck_id: i64,
    pub again_secs: u32,
    pub hard_secs: u32,
    pub good_secs: u32,
    pub easy_secs: u32,
    pub puzzle_id: String,
    pub fen: String,
    pub moves: Vec<String>,
    pub rating: i32,
    pub rating_deviation: i32,
    pub popularity: i32,
    pub nb_plays: i32,
    pub themes: String,
    pub game_url: String,
    pub opening_tags: String,
    pub comment: String,
    pub has_setup_move: bool,
}

} // verus!
