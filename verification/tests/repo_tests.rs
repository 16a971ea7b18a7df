use ankichess::card::{AddNotePayload, BrowseOptions, UpdateNotePayload};
use ankichess::deck::{DeckCounts, DeckLimitsPayload};
use ankichess::deck_service::DeckService;
use ankichess::error::AnkiChessError;
use ankichess::host::HostCollection;
use ankichess::import::ImportService;
use ankichess::note_service::{
    get_interval_secs, rating_from_u8, NormalSched, NoteService, ReviewRating, SchedState,
};
use ankichess::puzzle::{ChessPuzzle, CsvImportPayload};
use ankichess::repo::PuzzleRepository;

fn puzzle(id: &str, rating: i32, themes: &str) -> ChessPuzzle {
    ChessPuzzle {
        puzzle_id: id.to_string(),
        fen: format!("fen-{}", id),
        moves: "e2e4 e7e5 g1f3".to_string(),
        rating,
        rating_deviation: 80,
        popularity: 90,
        nb_plays: 1000,
        themes: themes.to_string(),
        game_url: String::new(),
        opening_tags: "Sicilian Defense".to_string(),
        comment: "a note".to_string(),
        has_setup_move: true,
    }
}

fn payload(deck_id: i64, fen: &str) -> AddNotePayload {
    AddNotePayload {
        deck_id,
        fen: fen.to_string(),
        solution: "e2e4".to_string(),
        comment: None,
        rating: Some(1234),
        themes: None,
        game_url: None,
        opening_tags: None,
    }
}

#[test]
fn save_is_an_upsert_scoped_to_mutable_fields() {
    let mut repo = PuzzleRepository::new();
    repo.save(&puzzle("a", 1500, "fork")).unwrap();
    assert_eq!(repo.puzzles.len(), 1);
    let mut changed = puzzle("a", 9999, "changed themes");
    changed.fen = "new fen".to_string();
    changed.comment = "new note".to_string();
    repo.save(&changed).unwrap();
    assert_eq!(repo.puzzles.len(), 1);
    // position, solution and note moved; the rest is immutable
    assert_eq!(repo.puzzles[0].fen, "new fen");
    assert_eq!(repo.puzzles[0].comment, "new note");
    assert_eq!(repo.puzzles[0].rating, 1500);
    assert_eq!(repo.puzzles[0].themes, "fork");
}

#[test]
fn linking_nonexistent_content_is_a_constraint_error() {
    let mut repo = PuzzleRepository::new();
    let r = repo.create_link(7, "ghost");
    assert!(matches!(r, Err(AnkiChessError::ConstraintError(_))));
    assert_eq!(repo.links.len(), 0);
}

#[test]
fn update_by_nid_distinguishes_noop_from_failure() {
    let mut repo = PuzzleRepository::new();
    repo.save(&puzzle("a", 1500, "fork")).unwrap();
    repo.create_link(5, "a").unwrap();
    assert_eq!(repo.update_fields_by_nid(99, "f", "m", "c").unwrap(), false);
    assert_eq!(repo.update_fields_by_nid(5, "f2", "m2", "c2").unwrap(), true);
    let got = repo.get_by_nid(5).unwrap().unwrap();
    assert_eq!(got.fen, "f2");
    assert_eq!(got.moves, "m2");
    assert_eq!(got.comment, "c2");
}

#[test]
fn orphan_collection_keeps_exactly_the_referenced_rows() {
    let mut repo = PuzzleRepository::new();
    repo.save(&puzzle("kept", 1500, "fork")).unwrap();
    repo.save(&puzzle("orphan1", 1500, "pin")).unwrap();
    repo.save(&puzzle("orphan2", 1500, "skewer")).unwrap();
    repo.create_link(11, "kept").unwrap();
    let removed = repo.delete_unused_puzzles().unwrap();
    assert_eq!(removed, 2);
    assert_eq!(repo.puzzles.len(), 1);
    assert_eq!(repo.puzzles[0].puzzle_id, "kept");
    assert_eq!(repo.links.len(), 1);
}

#[test]
fn delete_links_never_touches_content() {
    let mut repo = PuzzleRepository::new();
    repo.save(&puzzle("a", 1500, "fork")).unwrap();
    repo.save(&puzzle("b", 1600, "pin")).unwrap();
    repo.create_link(1, "a").unwrap();
    repo.create_link(2, "b").unwrap();
    repo.delete_links(&[2, 77]).unwrap();
    assert_eq!(repo.links.len(), 1);
    assert_eq!(repo.links[0].0, 1);
    assert_eq!(repo.puzzles.len(), 2);
}

#[test]
fn batch_lookup_returns_one_entry_per_linked_id() {
    let mut repo = PuzzleRepository::new();
    repo.save(&puzzle("a", 1500, "fork")).unwrap();
    repo.save(&puzzle("b", 1600, "pin")).unwrap();
    repo.create_link(1, "a").unwrap();
    repo.create_link(2, "b").unwrap();
    let m = repo.get_batch_by_nids(&[1, 2, 99]).unwrap();
    assert_eq!(m.len(), 2);
    assert_eq!(m.get(&1).unwrap().puzzle_id, "a");
    assert_eq!(m.get(&2).unwrap().puzzle_id, "b");
}

#[test]
fn create_note_saves_links_and_records() {
    let mut repo = PuzzleRepository::new();
    let mut host = HostCollection::new();
    let deck = host.get_or_create_deck("Main").unwrap();
    let nid = NoteService::create_note(&mut repo, &mut host, payload(deck, "some fen")).unwrap();
    assert_eq!(repo.puzzles.len(), 1);
    assert_eq!(repo.links.len(), 1);
    assert_eq!(repo.links[0].0, nid);
    assert_eq!(host.notes.len(), 1);
    // the generated id is the 32-character rendering of a fresh identifier
    assert_eq!(repo.puzzles[0].puzzle_id.chars().count(), 32);
    assert_eq!(repo.puzzles[0].rating, 1234);
    assert_eq!(repo.puzzles[0].themes, "manual");
    // the host record's sort field carries id and deck name
    assert!(host.notes[0].sfld.ends_with(" (Main)"));
}

#[test]
fn update_note_rejects_an_empty_position() {
    let mut repo = PuzzleRepository::new();
    let r = NoteService::update_note(
        &mut repo,
        &UpdateNotePayload {
            note_id: 1,
            fen: String::new(),
            solution: "m".to_string(),
            comment: "c".to_string(),
        },
    );
    assert!(matches!(r, Err(AnkiChessError::InvalidInput(_))));
}

#[test]
fn update_note_without_a_link_is_not_found() {
    let mut repo = PuzzleRepository::new();
    let r = NoteService::update_note(
        &mut repo,
        &UpdateNotePayload {
            note_id: 1,
            fen: "f".to_string(),
            solution: "m".to_string(),
            comment: "c".to_string(),
        },
    );
    assert!(matches!(r, Err(AnkiChessError::NotFound(_))));
}

#[test]
fn card_details_join_card_and_puzzle() {
    let mut repo = PuzzleRepository::new();
    let mut host = HostCollection::new();
    let deck = host.get_or_create_deck("Main").unwrap();
    let nid = NoteService::create_note(&mut repo, &mut host, payload(deck, "detail fen")).unwrap();
    let card_id = host.cards[0].id;
    let info = NoteService::get_card_details(&repo, &host, card_id).unwrap();
    assert_eq!(info.note_id, nid);
    assert_eq!(info.fen, "detail fen");
    assert_eq!(info.rating, 1234);
}

#[test]
fn deleting_notes_removes_links_and_records() {
    let mut repo = PuzzleRepository::new();
    let mut host = HostCollection::new();
    let deck = host.get_or_create_deck("Main").unwrap();
    let nid = NoteService::create_note(&mut repo, &mut host, payload(deck, "f1")).unwrap();
    NoteService::create_note(&mut repo, &mut host, payload(deck, "f2")).unwrap();
    NoteService::delete_notes(&mut repo, &mut host, &[nid]).unwrap();
    assert_eq!(repo.links.len(), 1);
    assert_eq!(host.notes.len(), 1);
    assert_eq!(host.cards.len(), 1);
    // content survives deletion until orphan collection runs
    assert_eq!(repo.puzzles.len(), 2);
    let removed = repo.delete_unused_puzzles().unwrap();
    assert_eq!(removed, 1);
}

#[test]
fn browse_pagination_matches_the_counts() {
    let mut repo = PuzzleRepository::new();
    let mut host = HostCollection::new();
    let deck = host.get_or_create_deck("Main").unwrap();
    let mut content = String::new();
    for k in 1..=45 {
        content.push_str(&format!("fen{:02},e2e4,,p{:02}\n", k, k));
    }
    ImportService::import_from_csv(
        &mut repo,
        &mut host,
        CsvImportPayload { deck_id: deck, csv_content: content },
    )
    .unwrap();
    let page = NoteService::browse_cards(
        &repo,
        &host,
        &BrowseOptions {
            deck_id: deck,
            page: 3,
            page_size: 20,
            filter_text: None,
            sort_order: None,
        },
    )
    .unwrap();
    assert_eq!(page.total_cards, 45);
    assert_eq!(page.cards.len(), 5);
    // default order is most recent first, so the third page ends at the start
    assert_eq!(page.cards[0].puzzle_id, "p05");
    assert_eq!(page.cards[4].puzzle_id, "p01");
}

#[test]
fn browse_filters_by_rating_and_text() {
    let mut repo = PuzzleRepository::new();
    let mut host = HostCollection::new();
    let deck = host.get_or_create_deck("Main").unwrap();
    let deck_name = "Main";
    let mut batch = vec![
        puzzle("low", 900, "endgame"),
        puzzle("mid", 1500, "mateIn2 fork"),
        puzzle("high", 2200, "opening"),
    ];
    ankichess::import::process_batch(&mut repo, &mut host, deck, deck_name, &mut batch).unwrap();

    let by_range = NoteService::browse_cards(
        &repo,
        &host,
        &BrowseOptions {
            deck_id: deck,
            page: 1,
            page_size: 10,
            filter_text: Some("1200-1600".to_string()),
            sort_order: None,
        },
    )
    .unwrap();
    assert_eq!(by_range.total_cards, 1);
    assert_eq!(by_range.cards[0].puzzle_id, "mid");

    // the text fallback is case-insensitive and reaches the theme tags
    let by_text = NoteService::browse_cards(
        &repo,
        &host,
        &BrowseOptions {
            deck_id: deck,
            page: 1,
            page_size: 10,
            filter_text: Some("MATEIN2".to_string()),
            sort_order: None,
        },
    )
    .unwrap();
    assert_eq!(by_text.total_cards, 1);
    assert_eq!(by_text.cards[0].puzzle_id, "mid");

    let by_gt = NoteService::browse_cards(
        &repo,
        &host,
        &BrowseOptions {
            deck_id: deck,
            page: 1,
            page_size: 10,
            filter_text: Some(">2000".to_string()),
            sort_order: None,
        },
    )
    .unwrap();
    assert_eq!(by_gt.total_cards, 1);
    assert_eq!(by_gt.cards[0].puzzle_id, "high");

    let by_rating_asc = NoteService::browse_cards(
        &repo,
        &host,
        &BrowseOptions {
            deck_id: deck,
            page: 1,
            page_size: 10,
            filter_text: None,
            sort_order: Some("rating-asc".to_string()),
        },
    )
    .unwrap();
    assert_eq!(by_rating_asc.cards[0].puzzle_id, "low");
    assert_eq!(by_rating_asc.cards[2].puzzle_id, "high");
}

#[test]
fn deck_deletion_cleans_links_then_browse_sees_nothing() {
    let mut repo = PuzzleRepository::new();
    let mut host = HostCollection::new();
    let deck = host.get_or_create_deck("Short-lived").unwrap();
    ImportService::import_from_csv(
        &mut repo,
        &mut host,
        CsvImportPayload { deck_id: deck, csv_content: "f1,m1,,idA\nf2,m2,,idB\n".to_string() },
    )
    .unwrap();
    assert_eq!(repo.links.len(), 2);
    DeckService::delete_deck(&mut repo, &mut host, deck).unwrap();
    assert_eq!(repo.links.len(), 0);
    assert!(host.decks.is_empty());
    assert_eq!(repo.puzzles.len(), 2);
    let ids = repo.get_existing_ids_in_deck(&host, deck);
    assert!(ids.is_empty());
}

#[test]
fn deck_limits_clone_a_shared_configuration() {
    let mut host = HostCollection::new();
    let d1 = host.get_or_create_deck("One").unwrap();
    let d2 = host.get_or_create_deck("Two").unwrap();
    // both decks share the default configuration
    let limits = DeckLimitsPayload { new_cards_per_day: 5, reviews_per_day: 50 };
    DeckService::set_deck_limits(&mut host, d1, limits).unwrap();
    assert_eq!(host.configs.len(), 2);
    let got1 = DeckService::get_deck_limits(&host, d1).unwrap();
    assert_eq!(got1.new_cards_per_day, 5);
    assert_eq!(got1.reviews_per_day, 50);
    let got2 = DeckService::get_deck_limits(&host, d2).unwrap();
    assert_eq!(got2.new_cards_per_day, 20);
    assert_eq!(got2.reviews_per_day, 200);
    assert!(host.configs[1].name.ends_with(" (Custom)"));
    // the cloned configuration is private now, so the next change is in place
    let limits2 = DeckLimitsPayload { new_cards_per_day: 7, reviews_per_day: 70 };
    DeckService::set_deck_limits(&mut host, d1, limits2).unwrap();
    assert_eq!(host.configs.len(), 2);
    assert_eq!(DeckService::get_deck_limits(&host, d1).unwrap().new_cards_per_day, 7);
}

#[test]
fn deck_listing_joins_names_with_tree_counts() {
    let mut host = HostCollection::new();
    let d1 = host.get_or_create_deck("One").unwrap();
    let d2 = host.get_or_create_deck("Two").unwrap();
    let tree = [DeckCounts { deck_id: d1, new_count: 3, learn_count: 1, review_count: 9 }];
    let infos = DeckService::get_all_decks(&host, &tree);
    assert_eq!(infos.len(), 2);
    assert_eq!(infos[0].id, d1);
    assert_eq!(infos[0].name, "One");
    assert_eq!(infos[0].new_count, 3);
    assert_eq!(infos[0].due_count, 9);
    assert_eq!(infos[1].id, d2);
    assert_eq!(infos[1].new_count, 0);
}

#[test]
fn export_encodes_position_solution_and_note() {
    let mut repo = PuzzleRepository::new();
    let mut host = HostCollection::new();
    let deck = host.get_or_create_deck("Main").unwrap();
    let mut batch = vec![puzzle("a", 1500, "fork")];
    ankichess::import::process_batch(&mut repo, &mut host, deck, "Main", &mut batch).unwrap();
    let (text, count) = DeckService::export_deck_csv(&repo, &host, deck).unwrap();
    assert_eq!(count, 1);
    assert_eq!(text, "fen-a,e2e4 e7e5 g1f3,a note\n");
}

#[test]
fn study_card_splits_the_solution_into_moves() {
    let mut repo = PuzzleRepository::new();
    repo.save(&puzzle("a", 1500, "fork")).unwrap();
    repo.create_link(3, "a").unwrap();
    let card = NoteService::build_study_card(&repo, 30, 3, 1, 60, 300, 600, 86400).unwrap();
    assert_eq!(card.moves, vec!["e2e4", "e7e5", "g1f3"]);
    assert_eq!(card.again_secs, 60);
    assert_eq!(card.rating, 1500);
}

#[test]
fn study_card_without_a_link_is_not_found() {
    let repo = PuzzleRepository::new();
    let r = NoteService::build_study_card(&repo, 30, 3, 1, 0, 0, 0, 0);
    assert!(matches!(r, Err(AnkiChessError::NotFound(_))));
}

#[test]
fn intervals_follow_the_scheduling_state() {
    assert_eq!(get_interval_secs(SchedState::Normal(NormalSched::NewCard)), 0);
    assert_eq!(get_interval_secs(SchedState::Normal(NormalSched::Learning(600))), 600);
    assert_eq!(get_interval_secs(SchedState::Normal(NormalSched::Review(3))), 3 * 86400);
    assert_eq!(get_interval_secs(SchedState::Preview(120)), 120);
    assert_eq!(get_interval_secs(SchedState::Rescheduling(NormalSched::Relearning(90))), 90);
}

#[test]
fn answer_grades_map_one_to_four() {
    assert!(matches!(rating_from_u8(1), Ok(ReviewRating::Again)));
    assert!(matches!(rating_from_u8(4), Ok(ReviewRating::Easy)));
    assert!(matches!(rating_from_u8(0), Err(AnkiChessError::InvalidInput(_))));
    assert!(matches!(rating_from_u8(9), Err(AnkiChessError::InvalidInput(_))));
}

#[test]
fn bootstrap_loads_openings_and_themes() {
    let mut data = ankichess::bootstrap::AppBootstrapData::new();
    data.load_openings("eco\tname\tpgn\nA00\tPolish Opening\t1. b4\nB20\tSicilian\t1. e4 c5\nbad line\n");
    assert_eq!(data.openings.len(), 2);
    assert_eq!(data.openings[0].eco, "A00");
    assert_eq!(data.openings[1].name, "Sicilian");

    let events = [
        ankichess::bootstrap::ThemeEvent::StartName("fork".to_string()),
        ankichess::bootstrap::ThemeEvent::Text("Fork".to_string()),
        ankichess::bootstrap::ThemeEvent::StartName("forkDescription".to_string()),
        ankichess::bootstrap::ThemeEvent::Text("Attack two pieces at once.".to_string()),
    ];
    data.load_themes(&events);
    assert_eq!(data.themes.len(), 1);
    assert_eq!(data.themes[0].id, "fork");
    assert_eq!(data.themes[0].label, "Fork");
    assert_eq!(data.themes[0].description, "Attack two pieces at once.");
}


#[test]
fn create_note_in_a_missing_deck_is_not_found() {
    let mut repo = PuzzleRepository::new();
    let mut host = HostCollection::new();
    let r = NoteService::create_note(&mut repo, &mut host, payload(12345, "f"));
    assert!(matches!(r, Err(AnkiChessError::NotFound(_))));
    assert_eq!(repo.puzzles.len(), 0);
    assert_eq!(host.notes.len(), 0);
}

#[test]
fn create_note_fills_the_row_from_the_payload() {
    let mut repo = PuzzleRepository::new();
    let mut host = HostCollection::new();
    let deck = host.get_or_create_deck("Main").unwrap();
    let mut p = payload(deck, "payload fen");
    p.comment = Some("a remark".to_string());
    p.themes = Some("endgame".to_string());
    NoteService::create_note(&mut repo, &mut host, p).unwrap();
    assert_eq!(repo.puzzles[0].fen, "payload fen");
    assert_eq!(repo.puzzles[0].moves, "e2e4");
    assert_eq!(repo.puzzles[0].comment, "a remark");
    assert_eq!(repo.puzzles[0].themes, "endgame");
    assert!(!repo.puzzles[0].has_setup_move);
}
