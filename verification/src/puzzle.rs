//! The catalog row (`ChessPuzzle`), the staging-store row (`PuzzleRecord`)
//! and the payloads of the import entry points.

use vstd::prelude::*;

verus! {

/// The mathematical value of a catalog row.
pub struct PuzzleView {
    pub puzzle_id: Seq<char>,
    pub fen: Seq<char>,
    pub moves: Seq<char>,
    pub rating: int,
    pub rating_deviation: int,
    pub popularity: int,
    pub nb_plays: int,
    pub themes: Seq<char>,
    pub game_url: Seq<char>,
    pub opening_tags: Seq<char>,
    pub comment: Seq<char>,
    pub has_setup_move: bool,
}

/// One catalog row: a puzzle position, its solution and its metadata.
/// Once a link references it, everything but `fen`, `moves` and `comment`
/// is treated as immutable.
pub struct ChessPuzzle {
    pub puzzle_id: String,
    pub fen: String,
    pub moves: String,
    pub rating: i32,
    pub rating_deviation: i32,
    pub popularity: i32,
    pub nb_plays: i32,
    pub themes: String,
    pub game_url: String,
    pub opening_tags: String,
    pub comment: String,
    pub has_setup_move: bool,
}

impl View for ChessPuzzle {
    type V = PuzzleView;

    open spec fn view(&self) -> PuzzleView {
        PuzzleView {
            puzzle_id: self.puzzle_id@,
            fen: self.fen@,
            moves: self.moves@,
            rating: self.rating as int,
            rating_deviation: self.rating_deviation as int,
            popularity: self.popularity as int,
            nb_plays: self.nb_plays as int,
            themes: self.themes@,
            game_url: self.game_url@,
            opening_tags: self.opening_tags@,
            comment: self.comment@,
            has_setup_move: self.has_setup_move,
        }
    }
}

impl ChessPuzzle {
    /// A value-preserving copy.
    pub fn duplicate(&self) -> (r: ChessPuzzle)
        ensures
            r@ == self@,
    {
        ChessPuzzle {
            puzzle_id: self.puzzle_id.clone(),
            fen: self.fen.clone(),
            moves: self.moves.clone(),
            rating: self.rating,
            rating_deviation: self.rating_deviation,
            popularity: self.popularity,
            nb_plays: self.nb_plays,
            themes: self.themes.clone(),
            game_url: self.game_url.clone(),
            opening_tags: self.opening_tags.clone(),
            comment: self.comment.clone(),
            has_setup_move: self.has_setup_move,
        }
    }
}

impl Default for ChessPuzzle {
    /// A manually authored blank puzzle: empty texts, zero numbers and the
    /// `manual` theme tag.
    fn default() -> (r: ChessPuzzle)
        ensures
            r@.puzzle_id.len() == 0,
            r@.fen.len() == 0,
            r@.moves.len() == 0,
            r@.rating == 0,
            r@.rating_deviation == 0,
            r@.popularity == 0,
            r@.nb_plays == 0,
            r@.themes == "manual"@,
            r@.game_url.len() == 0,
            r@.opening_tags.len() == 0,
            r@.comment.len() == 0,
            r@.has_setup_move == false,
    {
        ChessPuzzle {
            puzzle_id: String::new(),
            fen: String::new(),
            moves: String::new(),
            rating: 0,
            rating_deviation: 0,
            popularity: 0,
            nb_plays: 0,
            themes: String::from_str("manual"),
            game_url: String::new(),
            opening_tags: String::new(),
            comment: String::new(),
            has_setup_move: false,
        }
    }
}

/// One row of the staging store, as published upstream.
pub struct PuzzleRecord {
    pub puzzle_id: String,
    pub fen: String,
    pub moves: String,
    pub rating: u32,
    pub rating_deviation: i32,
    pub popularity: i32,
    pub nb_plays: i32,
    pub themes: String,
    pub game_url: String,
    pub opening_tags: Option<String>,
}

/// The mathematical value of a staging row.
pub struct RecordView {
    pub puzzle_id: Seq<char>,
    pub fen: Seq<char>,
    pub moves: Seq<char>,
    pub rating: int,
    pub rating_deviation: int,
    pub popularity: int,
    pub nb_plays: int,
    pub themes: Seq<char>,
    pub game_url: Seq<char>,
    pub opening_tags: Option<Seq<char>>,
}

impl View for PuzzleRecord {
    type V = RecordView;

    open spec fn view(&self) -> RecordView {
        RecordView {
            puzzle_id: self.puzzle_id@,
            fen: self.fen@,
            moves: self.moves@,
            rating: self.rating as int,
            rating_deviation: self.rating_deviation as int,
            popularity: self.popularity as int,
            nb_plays: self.nb_plays as int,
            themes: self.themes@,
            game_url: self.game_url@,
            opening_tags: match self.opening_tags {
                Some(t) => Some(t@),
                None => None,
            },
        }
    }
}

/// An optional text field read as its content, an absent one as empty.
pub open spec fn opt_text(o: Option<Seq<char>>) -> Seq<char> {
    match o {
        Some(t) => t,
        None => Seq::empty(),
    }
}

impl PuzzleRecord {
    /// The category-tag text, with an absent value read as empty.
    pub fn opening_tags_str(&self) -> (r: &str)
        ensures
            r@ == opt_text(self@.opening_tags),
    {
        match &self.opening_tags {
            Some(t) => t.as_str(),
            None => {
                let e = "";
                proof {
                    reveal_strlit("");
                    assert(e@ =~= Seq::<char>::empty());
                }
                e
            },
        }
    }

    /// A value-preserving copy.
    pub fn duplicate(&self) -> (r: PuzzleRecord)
        ensures
            r@ == self@,
    {
        PuzzleRecord {
            puzzle_id: self.puzzle_id.clone(),
            fen: self.fen.clone(),
            moves: self.moves.clone(),
            rating: self.rating,
            rating_deviation: self.rating_deviation,
            popularity: self.popularity,
            nb_plays: self.nb_plays,
            themes: self.themes.clone(),
            game_url: self.game_url.clone(),
            opening_tags: match &self.opening_tags {
                Some(t) => Some(t.clone()),
                None => None,
            },
        }
    }
}

/// The selection criteria of the staging import path.
pub struct ImportOptions {
    pub deck_id: i64,
    pub min_rating: Option<u32>,
    pub max_rating: Option<u32>,
    pub min_popularity: Option<i32>,
    pub max_popularity: Option<i32>,
    pub limit: Option<usize>,
    pub themes: Option<Vec<String>>,
    pub opening_tags: Option<Vec<String>>,
}

/// The payload of the flat-file import path: the target scope and the raw
/// delimited text.
pub struct CsvImportPayload {
    pub deck_id: i64,
    pub csv_content: String,
}

} // verus!
