use ankichess::error::AnkiChessError;
use ankichess::host::HostCollection;
use ankichess::import::ImportService;
use ankichess::puzzle::{ChessPuzzle, CsvImportPayload, ImportOptions, PuzzleRecord};
use ankichess::repo::PuzzleRepository;
use ankichess::staging::StagingStore;

fn blank_options(deck_id: i64) -> ImportOptions {
    ImportOptions {
        deck_id,
        min_rating: None,
        max_rating: None,
        min_popularity: None,
        max_popularity: None,
        limit: None,
        themes: None,
        opening_tags: None,
    }
}

fn staging_record(id: &str, rating: u32, popularity: i32, themes: &str) -> PuzzleRecord {
    PuzzleRecord {
        puzzle_id: id.to_string(),
        fen: format!("fen-{}", id),
        moves: "e2e4 e7e5".to_string(),
        rating,
        rating_deviation: 80,
        popularity,
        nb_plays: 100,
        themes: themes.to_string(),
        game_url: String::new(),
        opening_tags: None,
    }
}

#[test]
fn flat_file_rows_with_empty_position() {
    let mut repo = PuzzleRepository::new();
    let mut host = HostCollection::new();
    let deck = host.get_or_create_deck("Puzzles").unwrap();
    let payload = CsvImportPayload {
        deck_id: deck,
        csv_content: "fenA,e2e4,noteA\n,d2d4,noteB\nfenC,c2c4,noteC\n".to_string(),
    };
    let report = ImportService::import_from_csv(&mut repo, &mut host, payload).unwrap();
    assert_eq!(report.processed, 3);
    assert_eq!(report.imported, 2);
    assert_eq!(report.skipped, 1);
    assert_eq!(repo.puzzles.len(), 2);
    // the final notification carries exactly the run's totals
    let last = report.events.last().unwrap();
    assert_eq!(last.processed_count, 3);
    assert_eq!(last.imported_count, 2);
    assert_eq!(last.skipped_count, 1);
    // one host record and one card per imported row, none for skipped rows
    assert_eq!(host.notes.len(), 2);
    assert_eq!(host.cards.len(), 2);
}

#[test]
fn flat_file_supplied_ids_deduplicate_on_reimport() {
    let mut repo = PuzzleRepository::new();
    let mut host = HostCollection::new();
    let deck = host.get_or_create_deck("Puzzles").unwrap();
    let content = "fenA,e2e4,noteA,idA\nfenB,d2d4,noteB,idB\n".to_string();
    let first = ImportService::import_from_csv(
        &mut repo,
        &mut host,
        CsvImportPayload { deck_id: deck, csv_content: content.clone() },
    )
    .unwrap();
    assert_eq!(first.imported, 2);
    let second = ImportService::import_from_csv(
        &mut repo,
        &mut host,
        CsvImportPayload { deck_id: deck, csv_content: content },
    )
    .unwrap();
    assert_eq!(second.processed, 2);
    assert_eq!(second.imported, 0);
    assert_eq!(second.skipped, 2);
    assert_eq!(repo.puzzles.len(), 2);
}

#[test]
fn existing_ids_have_no_duplicates_and_one_row_each() {
    let mut repo = PuzzleRepository::new();
    let mut host = HostCollection::new();
    let deck = host.get_or_create_deck("Puzzles").unwrap();
    let content = "fenA,e2e4,,idA\nfenB,d2d4,,idB\nfenC,c2c4,,idC\n".to_string();
    ImportService::import_from_csv(
        &mut repo,
        &mut host,
        CsvImportPayload { deck_id: deck, csv_content: content },
    )
    .unwrap();
    let ids = repo.get_existing_ids_in_deck(&host, deck);
    assert_eq!(ids.len(), 3);
    for i in 0..ids.len() {
        for j in 0..ids.len() {
            if i != j {
                assert_ne!(ids[i], ids[j]);
            }
        }
        let rows: Vec<&ChessPuzzle> =
            repo.puzzles.iter().filter(|p| p.puzzle_id == ids[i]).collect();
        assert_eq!(rows.len(), 1);
    }
}

#[test]
fn missing_deck_is_not_found() {
    let mut repo = PuzzleRepository::new();
    let mut host = HostCollection::new();
    let r = ImportService::import_from_csv(
        &mut repo,
        &mut host,
        CsvImportPayload { deck_id: 999, csv_content: "a,b\n".to_string() },
    );
    assert!(matches!(r, Err(AnkiChessError::NotFound(_))));
}

#[test]
fn missing_template_is_a_configuration_error() {
    let mut repo = PuzzleRepository::new();
    let mut host = HostCollection::new();
    let deck = host.get_or_create_deck("Puzzles").unwrap();
    host.has_basic_notetype = false;
    let r = ImportService::import_from_csv(
        &mut repo,
        &mut host,
        CsvImportPayload { deck_id: deck, csv_content: "a,b\n".to_string() },
    );
    assert!(matches!(r, Err(AnkiChessError::ConfigurationError(_))));
}

#[test]
fn ragged_flat_file_row_is_skipped_not_fatal() {
    let mut repo = PuzzleRepository::new();
    let mut host = HostCollection::new();
    let deck = host.get_or_create_deck("Puzzles").unwrap();
    // the second record has a different field count, so the csv crate
    // refuses it; the run skips and counts it and keeps going
    let report = ImportService::import_from_csv(
        &mut repo,
        &mut host,
        CsvImportPayload {
            deck_id: deck,
            csv_content: "a,b\nc,d,e,f,g\nf3,m3\n".to_string(),
        },
    )
    .unwrap();
    assert_eq!(report.processed, 3);
    assert_eq!(report.imported, 2);
    assert_eq!(report.skipped, 1);
    assert_eq!(repo.puzzles.len(), 2);
}

#[test]
fn generated_ids_carry_the_flat_file_prefix() {
    let mut repo = PuzzleRepository::new();
    let mut host = HostCollection::new();
    let deck = host.get_or_create_deck("Puzzles").unwrap();
    ImportService::import_from_csv(
        &mut repo,
        &mut host,
        CsvImportPayload { deck_id: deck, csv_content: "fenA,e2e4,note\n".to_string() },
    )
    .unwrap();
    assert_eq!(repo.puzzles.len(), 1);
    let id = &repo.puzzles[0].puzzle_id;
    assert_eq!(id.chars().count(), 36);
    assert!(id.starts_with("csv_"));
}

#[test]
fn staging_import_respects_criteria_and_limit() {
    let mut staging = StagingStore::new();
    staging.upsert(&staging_record("a", 1000, 50, "fork"));
    staging.upsert(&staging_record("b", 1500, 80, "mateIn2 fork"));
    staging.upsert(&staging_record("c", 1600, 90, "mateIn2"));
    staging.upsert(&staging_record("d", 2500, 20, "endgame"));

    let mut repo = PuzzleRepository::new();
    let mut host = HostCollection::new();
    let deck = host.get_or_create_deck("Puzzles").unwrap();
    let mut opts = blank_options(deck);
    opts.min_rating = Some(1400);
    opts.max_rating = Some(2000);
    opts.themes = Some(vec!["mateIn2".to_string()]);
    let report =
        ImportService::import_from_lichess_db(&staging, &mut repo, &mut host, opts).unwrap();
    assert_eq!(report.processed, 2);
    assert_eq!(report.imported, 2);
    assert_eq!(report.skipped, 0);
    assert_eq!(host.notes.len(), 2);
    // each host record's sort field names its puzzle and the deck
    assert!(host.notes[0].sfld == "b (Puzzles)" || host.notes[0].sfld == "c (Puzzles)");

    // a second pass over the same criteria imports nothing new
    let mut opts2 = blank_options(deck);
    opts2.min_rating = Some(1400);
    opts2.max_rating = Some(2000);
    opts2.themes = Some(vec!["mateIn2".to_string()]);
    let again =
        ImportService::import_from_lichess_db(&staging, &mut repo, &mut host, opts2).unwrap();
    assert_eq!(again.processed, 2);
    assert_eq!(again.imported, 0);
    assert_eq!(again.skipped, 2);
}

#[test]
fn staging_import_limit_caps_the_selection() {
    let mut staging = StagingStore::new();
    for k in 0..10 {
        staging.upsert(&staging_record(&format!("p{}", k), 1500, 50, "fork"));
    }
    let mut repo = PuzzleRepository::new();
    let mut host = HostCollection::new();
    let deck = host.get_or_create_deck("Puzzles").unwrap();
    let mut opts = blank_options(deck);
    opts.limit = Some(4);
    let report =
        ImportService::import_from_lichess_db(&staging, &mut repo, &mut host, opts).unwrap();
    assert_eq!(report.processed, 4);
    assert_eq!(report.imported, 4);
}

#[test]
fn staging_puzzles_are_marked_with_setup_move() {
    let mut staging = StagingStore::new();
    staging.upsert(&staging_record("a", 1200, 50, "fork"));
    let mut repo = PuzzleRepository::new();
    let mut host = HostCollection::new();
    let deck = host.get_or_create_deck("Puzzles").unwrap();
    ImportService::import_from_lichess_db(&staging, &mut repo, &mut host, blank_options(deck))
        .unwrap();
    assert_eq!(repo.puzzles.len(), 1);
    assert!(repo.puzzles[0].has_setup_move);
    assert_eq!(repo.puzzles[0].comment, "");
}

#[test]
fn failed_flush_commits_nothing() {
    let mut repo = PuzzleRepository::new();
    let mut host = HostCollection::new();
    // no deck exists, so the flush transaction must fail as a whole
    let mut batch = vec![ChessPuzzle {
        puzzle_id: "idA".to_string(),
        fen: "fenA".to_string(),
        moves: "e2e4".to_string(),
        rating: 0,
        rating_deviation: 0,
        popularity: 0,
        nb_plays: 0,
        themes: String::new(),
        game_url: String::new(),
        opening_tags: String::new(),
        comment: String::new(),
        has_setup_move: false,
    }];
    let next_nid = host.next_id;
    let r = ankichess::import::process_batch(&mut repo, &mut host, 42, "Gone", &mut batch);
    assert!(matches!(r, Err(AnkiChessError::DatabaseError(_))));
    // nothing from the batch is reachable: no puzzle row, no link, no record
    assert_eq!(repo.puzzles.len(), 0);
    assert_eq!(repo.links.len(), 0);
    assert_eq!(host.notes.len(), 0);
    assert!(matches!(repo.get_by_nid(next_nid), Ok(None)));
    assert_eq!(batch.len(), 1);
}

#[test]
fn reindexing_the_same_payload_changes_nothing_but_the_timestamp() {
    let text = "PuzzleId,FEN,Moves,Rating,RatingDeviation,Popularity,NbPlays,Themes,GameUrl,OpeningTags\n\
        a1,fen1,e2e4,1200,80,95,1000,fork,url1,Sicilian\n\
        b2,fen2,d2d4,1400,75,90,2000,pin,url2,\n";
    let mut store = StagingStore::new();
    let n1 =
        ankichess::lichessdb_service::LichessdbService::download_and_index(&mut store, text, 111)
            .unwrap();
    assert_eq!(n1, 2);
    let count_after_first = store.puzzles.len();
    let fen_first = store.puzzles[0].fen.clone();
    let n2 =
        ankichess::lichessdb_service::LichessdbService::download_and_index(&mut store, text, 222)
            .unwrap();
    assert_eq!(n2, 2);
    assert_eq!(store.puzzles.len(), count_after_first);
    assert_eq!(store.puzzles[0].fen, fen_first);
    assert_eq!(store.last_updated, Some(222));
}

#[test]
fn dataset_rows_missing_required_fields_are_skipped() {
    let text = "PuzzleId,FEN,Moves,Rating,RatingDeviation,Popularity,NbPlays,Themes,GameUrl,OpeningTags\n\
        a1,fen1,e2e4,1200,80,95,1000,fork,url1,Sicilian\n\
        ,fen2,d2d4,1400,75,90,2000,pin,url2,\n\
        c3,fen3,c2c4,notanumber,75,90,2000,pin,url3,\n";
    let mut store = StagingStore::new();
    let n =
        ankichess::lichessdb_service::LichessdbService::download_and_index(&mut store, text, 1)
            .unwrap();
    assert_eq!(n, 1);
    assert_eq!(store.puzzles.len(), 1);
    assert_eq!(store.puzzles[0].puzzle_id, "a1");
    assert_eq!(store.puzzles[0].opening_tags, Some("Sicilian".to_string()));
}

#[test]
fn staging_status_reports_count_and_timestamp() {
    let mut store = StagingStore::new();
    store.upsert(&staging_record("a", 1000, 50, "fork"));
    store.set_last_updated(777);
    let status = ankichess::lichessdb_service::LichessdbService::get_status(&store);
    assert!(status.db_exists);
    assert_eq!(status.puzzle_count, 1);
    assert_eq!(status.last_updated, Some(777));
}

#[test]
fn update_check_reads_the_published_count() {
    let body = "<html>The full database holds 4,567,890 chess puzzles today.</html>";
    let r = ankichess::lichessdb_service::LichessdbService::check_for_update(body, 100).unwrap();
    assert!(r);
    let r2 =
        ankichess::lichessdb_service::LichessdbService::check_for_update(body, 5_000_000).unwrap();
    assert!(!r2);
}

#[test]
fn update_check_falls_back_to_the_plainer_pattern() {
    let body = "<html>We currently host 123,456   puzzles for everyone.</html>";
    let r = ankichess::lichessdb_service::LichessdbService::check_for_update(body, 1).unwrap();
    assert!(r);
}

#[test]
fn update_check_without_a_count_is_not_found() {
    let body = "<html>No numbers here.</html>";
    let r = ankichess::lichessdb_service::LichessdbService::check_for_update(body, 1);
    assert!(matches!(r, Err(AnkiChessError::NotFound(_))));
}

#[test]
fn empty_flat_file_imports_nothing() {
    let mut repo = PuzzleRepository::new();
    let mut host = HostCollection::new();
    let deck = host.get_or_create_deck("Puzzles").unwrap();
    let report = ImportService::import_from_csv(
        &mut repo,
        &mut host,
        CsvImportPayload { deck_id: deck, csv_content: String::new() },
    )
    .unwrap();
    assert_eq!(report.processed, 0);
    assert_eq!(report.imported, 0);
    assert_eq!(report.skipped, 0);
}

#[test]
fn staging_upsert_replaces_by_natural_key() {
    let mut store = StagingStore::new();
    store.upsert(&staging_record("same", 1000, 10, "old"));
    let mut newer = staging_record("same", 2000, 20, "new");
    newer.fen = "replaced".to_string();
    store.upsert(&newer);
    assert_eq!(store.puzzles.len(), 1);
    assert_eq!(store.puzzles[0].rating, 2000);
    assert_eq!(store.puzzles[0].fen, "replaced");
}


#[test]
fn ragged_dataset_record_is_skipped_not_fatal() {
    let text = "PuzzleId,FEN,Moves,Rating,RatingDeviation,Popularity,NbPlays,Themes,GameUrl,OpeningTags\n\
        a1,fen1,e2e4,1200,80,95,1000,fork,url1,Sicilian\n\
        broken,row\n\
        b2,fen2,d2d4,1400,75,90,2000,pin,url2,\n";
    let mut store = StagingStore::new();
    let n =
        ankichess::lichessdb_service::LichessdbService::download_and_index(&mut store, text, 1)
            .unwrap();
    assert_eq!(n, 2);
    assert_eq!(store.puzzles.len(), 2);
    assert_eq!(store.puzzles[1].puzzle_id, "b2");
}

#[test]
fn update_check_without_a_local_store_wants_the_dataset() {
    let status = ankichess::lichessdb::DbStatus { db_exists: false, last_updated: None, puzzle_count: 0 };
    let r = ankichess::lichessdb_service::LichessdbService::check_for_update_status(
        &status,
        "no numbers here",
    )
    .unwrap();
    assert!(r);
}

#[test]
fn update_check_with_a_store_reads_the_page() {
    let status =
        ankichess::lichessdb::DbStatus { db_exists: true, last_updated: Some(1), puzzle_count: 10 };
    let body = "exactly 1,000 chess puzzles in the set";
    let r = ankichess::lichessdb_service::LichessdbService::check_for_update_status(&status, body)
        .unwrap();
    assert!(r);
}
