//! The transactional import pipeline: selects candidate rows from the
//! staging store or from user-supplied delimited text, deduplicates against
//! what the target scope already holds, and commits batches of puzzle row,
//! host record and link atomically.

use vstd::prelude::*;

use crate::error::AnkiChessError;
use crate::host::{HostCard, HostCollection, NoteView};
use crate::puzzle::{ChessPuzzle, CsvImportPayload, ImportOptions, PuzzleRecord, PuzzleView, RecordView};
use crate::repo::{
    has_id, has_link, insert_absent_all, link_of, puzzle_at, scope_has_id, strs_contain,
    upsert_links, vec_contains_str, PuzzleRepository,
};
use crate::sfld_of;
use crate::staging::{spec_candidates, StagingStore};
use crate::text::spec_trim;

verus! {

/// Rows are committed in batches of this size, bounding transaction size
/// and memory.
pub const BATCH_SIZE: usize = 500;

/// One progress notification of an import run.
#[derive(Debug)]
pub struct ImportProgress {
    pub message: String,
    pub processed_count: usize,
    pub imported_count: usize,
    pub skipped_count: usize,
    pub total_to_import: Option<usize>,
}

/// The outcome of an import run: the final counts and the progress events
/// the run emitted, for the caller to forward to its sink.
#[derive(Debug)]
pub struct ImportRunReport {
    pub processed: usize,
    pub imported: usize,
    pub skipped: usize,
    pub events: Vec<ImportProgress>,
}

/// The host records a committed batch creates: one note per row, with ids
/// climbing two at a time from the id counter.
pub open spec fn batch_notes(next0: i64, deck_name: Seq<char>, rows: Seq<PuzzleView>) -> Seq<
    NoteView,
> {
    Seq::new(
        rows.len(),
        |k: int|
            NoteView { id: (next0 + 2 * k) as i64, sfld: sfld_of(rows[k].puzzle_id, deck_name) },
    )
}

/// The cards of those host records.
pub open spec fn batch_cards(next0: i64, deck_id: i64, n: nat) -> Seq<HostCard> {
    Seq::new(
        n,
        |k: int|
            HostCard { id: (next0 + 2 * k + 1) as i64, nid: (next0 + 2 * k) as i64, did: deck_id },
    )
}

/// The link rows of a committed batch: host-record id to puzzle id.
pub open spec fn batch_links(next0: i64, rows: Seq<PuzzleView>) -> Seq<(i64, Seq<char>)> {
    Seq::new(rows.len(), |k: int| ((next0 + 2 * k) as i64, rows[k].puzzle_id))
}

/// The host-record id assigned to the k-th row a run accepts: the ids climb
/// two at a time from where the run started.
pub open spec fn pipeline_nid(next0: i64, k: int) -> i64 {
    (next0 + 2 * k) as i64
}

/// After a flush commits, every row the run accepted so far is linked to the
/// host record created for it: earlier links lie below the flush's id range
/// and are untouched, and the batch's own pairs are written.
proof fn lemma_links_after_flush(
    links_pre: Seq<(i64, Seq<char>)>,
    links_post: Seq<(i64, Seq<char>)>,
    next0: i64,
    before: int,
    acc: Seq<PuzzleView>,
    batchv: Seq<PuzzleView>,
    flush_next0: i64,
)
    requires
        crate::repo::links_ok(links_pre),
        links_post == upsert_links(links_pre, batch_links(flush_next0, batchv)),
        flush_next0 == next0 + 2 * before,
        0 <= before,
        before + batchv.len() <= acc.len(),
        batchv =~= acc.subrange(before, before + batchv.len()),
        next0 >= 1,
        flush_next0 + 2 * batchv.len() <= i64::MAX,
        forall|k: int|
            0 <= k < before ==> has_link(links_pre, #[trigger] pipeline_nid(next0, k)) && link_of(
                links_pre,
                pipeline_nid(next0, k),
            ) == acc[k].puzzle_id,
    ensures
        forall|k: int|
            0 <= k < before + batchv.len() ==> has_link(
                links_post,
                #[trigger] pipeline_nid(next0, k),
            ) && link_of(links_post, pipeline_nid(next0, k)) == acc[k].puzzle_id,
{
    let ps = batch_links(flush_next0, batchv);
    crate::repo::lemma_upsert_links(links_pre, ps);
    assert forall|k: int| 0 <= k < before + batchv.len() implies has_link(
        links_post,
        #[trigger] pipeline_nid(next0, k),
    ) && link_of(links_post, pipeline_nid(next0, k)) == acc[k].puzzle_id by {
        if k < before {
            let nid = pipeline_nid(next0, k);
            assert(nid == next0 + 2 * k);
            assert(!(exists|j: int| 0 <= j < ps.len() && (#[trigger] ps[j]).0 == nid)) by {
                if exists|j: int| 0 <= j < ps.len() && (#[trigger] ps[j]).0 == nid {
                    let j = choose|j: int| 0 <= j < ps.len() && (#[trigger] ps[j]).0 == nid;
                    assert(ps[j].0 == (flush_next0 + 2 * j) as i64);
                    assert(flush_next0 + 2 * j <= i64::MAX);
                    assert(flush_next0 + 2 * j > next0 + 2 * k);
                }
            }
        } else {
            let j = k - before;
            assert(ps[j].0 == (flush_next0 + 2 * j) as i64);
            assert(ps[j].1 == batchv[j].puzzle_id);
            assert(batchv[j] == acc[k]);
            assert(flush_next0 + 2 * j <= i64::MAX);
            assert(ps[j].0 == pipeline_nid(next0, k));
            assert(forall|l: int| j < l < ps.len() ==> (#[trigger] ps[l]).0 != ps[j].0) by {
                assert(forall|l: int|
                    j < l < ps.len() ==> (#[trigger] ps[l]).0 == (flush_next0 + 2 * l) as i64
                        && flush_next0 + 2 * l <= i64::MAX);
            }
        }
    }
}

/// Commits one buffered batch: saves the puzzle rows, creates one host
/// record per row, links them, and empties the buffer — all inside one
/// transaction, so a failure leaves every store exactly as it was.
pub fn process_batch(
    repo: &mut PuzzleRepository,
    host: &mut HostCollection,
    deck_id: i64,
    deck_name: &str,
    puzzles: &mut Vec<ChessPuzzle>,
) -> (r: Result<usize, AnkiChessError>)
    requires
        old(repo)@.wf(),
        old(host)@.wf(),
    ensures
        final(repo)@.wf(),
        final(host)@.wf(),
        r is Err ==> final(repo)@ == old(repo)@ && final(host)@ == old(host)@ && final(puzzles)@
            == old(puzzles)@ && r.unwrap_err() is DatabaseError,
        old(puzzles)@.len() == 0 ==> r is Ok,
        old(puzzles)@.len() > 0 && old(host)@.has_deck(deck_id) && old(host)@.next_id + 2 * old(
            puzzles,
        )@.len() <= i64::MAX ==> r is Ok,
        r is Ok ==> {
            let rows = old(puzzles)@.map_values(|p: ChessPuzzle| p@);
            let next0 = old(host)@.next_id;
            &&& r.unwrap() == old(puzzles)@.len()
            &&& final(puzzles)@.len() == 0
            &&& final(repo)@.puzzles == insert_absent_all(old(repo)@.puzzles, rows)
            &&& final(repo)@.links == upsert_links(old(repo)@.links, batch_links(next0, rows))
            &&& final(host)@.notes == old(host)@.notes + batch_notes(next0, deck_name@, rows)
            &&& final(host)@.cards == old(host)@.cards + batch_cards(next0, deck_id, rows.len())
            &&& final(host)@.next_id == next0 + 2 * rows.len()
            &&& final(host)@.decks == old(host)@.decks
            &&& final(host)@.configs == old(host)@.configs
            &&& final(host)@.has_basic_notetype == old(host)@.has_basic_notetype
        },
{
    let count = puzzles.len();
    let ghost rows = puzzles@.map_values(|p: ChessPuzzle| p@);
    let ghost next0 = host@.next_id;
    if count == 0 {
        puzzles.clear();
        proof {
            assert(insert_absent_all(repo@.puzzles, rows) == repo@.puzzles);
            assert(upsert_links(repo@.links, batch_links(next0, rows)) == repo@.links);
            assert(host@.notes + batch_notes(next0, deck_name@, rows) =~= host@.notes);
            assert(host@.cards + batch_cards(next0, deck_id, rows.len()) =~= host@.cards);
        }
        return Ok(0);
    }
    // the whole batch is one transaction: every check happens before any write
    if !host.deck_exists(deck_id) {
        return Err(
            AnkiChessError::DatabaseError(
                String::from_str("batch flush failed: target scope missing"),
            ),
        );
    }
    if (count as u128) * 2 > (i64::MAX - host.next_id) as u128 {
        return Err(
            AnkiChessError::DatabaseError(String::from_str("identifier space exhausted")),
        );
    }
    proof {
        assert(next0 + 2 * count <= i64::MAX);
    }
    let ghost repo0 = repo@;
    let ghost host0 = host@;
    repo.save_batch_puzzles(puzzles.as_slice())?;
    proof {
        assert(puzzles@.map_values(|p: ChessPuzzle| p@) == rows);
        crate::repo::lemma_insert_absent_all(repo0.puzzles, rows);
    }
    let mut links_buf: Vec<(i64, String)> = Vec::new();
    proof {
        assert(links_buf@.map_values(|l: (i64, String)| (l.0, l.1@)) =~= batch_links(
            next0,
            rows.take(0),
        ));
    }
    let mut k: usize = 0;
    while k < count
        invariant
            k <= count,
            count == puzzles@.len(),
            rows == puzzles@.map_values(|p: ChessPuzzle| p@),
            repo@.puzzles == insert_absent_all(repo0.puzzles, rows),
            repo@.links == repo0.links,
            repo@.wf(),
            repo0.wf(),
            host@.wf(),
            host@.decks == host0.decks,
            host@.configs == host0.configs,
            host@.has_basic_notetype == host0.has_basic_notetype,
            host@.notes == host0.notes + batch_notes(next0, deck_name@, rows.take(k as int)),
            host@.cards == host0.cards + batch_cards(next0, deck_id, k as nat),
            host@.next_id == next0 + 2 * k,
            next0 + 2 * count <= i64::MAX,
            next0 >= 1,
            host0.has_deck(deck_id),
            links_buf@.map_values(|l: (i64, String)| (l.0, l.1@)) == batch_links(
                next0,
                rows.take(k as int),
            ),
        decreases count - k,
    {
        proof {
            // the deck is untouched by note creation, so it is still there
            let w = choose|w: int|
                0 <= w < host0.decks.len() && (#[trigger] host0.decks[w]).id == deck_id;
            assert(host@.decks[w].id == deck_id);
            assert(host@.has_deck(deck_id));
        }
        let sfld = crate::format_anki_sfld(puzzles[k].puzzle_id.as_str(), deck_name);
        let ghost prev_host = host@;
        let ghost prev_links = links_buf@.map_values(|l: (i64, String)| (l.0, l.1@));
        let nid = match host.add_note(deck_id, sfld.as_str()) {
            Ok(nid) => nid,
            Err(e) => {
                proof {
                    assert(false);
                }
                return Err(
                    AnkiChessError::DatabaseError(String::from_str("host record creation failed")),
                );
            },
        };
        links_buf.push((nid, puzzles[k].puzzle_id.clone()));
        proof {
            assert(rows[k as int] == puzzles@[k as int]@);
            assert(host@.notes =~= host0.notes + batch_notes(
                next0,
                deck_name@,
                rows.take(k + 1),
            )) by {
                assert(host@.notes == prev_host.notes.push(
                    NoteView { id: prev_host.next_id, sfld: sfld@ },
                ));
                assert(batch_notes(next0, deck_name@, rows.take(k + 1)) =~= batch_notes(
                    next0,
                    deck_name@,
                    rows.take(k as int),
                ).push(
                    NoteView {
                        id: (next0 + 2 * k) as i64,
                        sfld: sfld_of(rows[k as int].puzzle_id, deck_name@),
                    },
                ));
            }
            assert(host@.cards =~= host0.cards + batch_cards(next0, deck_id, (k + 1) as nat)) by {
                assert(host@.cards == prev_host.cards.push(
                    HostCard {
                        id: (prev_host.next_id + 1) as i64,
                        nid: prev_host.next_id,
                        did: deck_id,
                    },
                ));
                assert(batch_cards(next0, deck_id, (k + 1) as nat) =~= batch_cards(
                    next0,
                    deck_id,
                    k as nat,
                ).push(
                    HostCard {
                        id: (next0 + 2 * k + 1) as i64,
                        nid: (next0 + 2 * k) as i64,
                        did: deck_id,
                    },
                ));
            }
            assert(links_buf@.map_values(|l: (i64, String)| (l.0, l.1@)) =~= batch_links(
                next0,
                rows.take(k + 1),
            )) by {
                assert(links_buf@.map_values(|l: (i64, String)| (l.0, l.1@)) =~= prev_links.push(
                    (nid, puzzles@[k as int].puzzle_id@),
                ));
                assert(batch_links(next0, rows.take(k + 1)) =~= batch_links(
                    next0,
                    rows.take(k as int),
                ).push(((next0 + 2 * k) as i64, rows[k as int].puzzle_id)));
            }
        }
        k += 1;
    }
    proof {
        assert(rows.take(count as int) =~= rows);
        assert forall|j: int| 0 <= j < links_buf@.len() implies has_id(
            repo@.puzzles,
            (#[trigger] links_buf@[j]).1@,
        ) by {
            assert(links_buf@.map_values(|l: (i64, String)| (l.0, l.1@))[j].1 == links_buf@[j].1@);
            assert(batch_links(next0, rows)[j].1 == rows[j].puzzle_id);
        }
    }
    repo.save_batch_links(links_buf.as_slice())?;
    puzzles.clear();
    Ok(count)
}

/// A flat-file row after id resolution: the trimmed position and solution,
/// the note text, the puzzle id (supplied or freshly generated), and whether
/// the row carried the required fields.
pub struct CsvRow {
    pub fen: String,
    pub moves: String,
    pub comment: String,
    pub puzzle_id: String,
    pub valid: bool,
}

pub struct CsvRowView {
    pub fen: Seq<char>,
    pub moves: Seq<char>,
    pub comment: Seq<char>,
    pub puzzle_id: Seq<char>,
    pub valid: bool,
}

impl View for CsvRow {
    type V = CsvRowView;

    open spec fn view(&self) -> CsvRowView {
        CsvRowView {
            fen: self.fen@,
            moves: self.moves@,
            comment: self.comment@,
            puzzle_id: self.puzzle_id@,
            valid: self.valid,
        }
    }
}

/// A flat-file record is importable when it has at least a position and a
/// solution, both non-blank.
pub open spec fn row_valid(row: Seq<Seq<char>>) -> bool {
    row.len() >= 2 && spec_trim(row[0]).len() > 0 && spec_trim(row[1]).len() > 0
}

/// The id the record supplies, if any.
pub open spec fn row_supplied_id(row: Seq<Seq<char>>) -> Option<Seq<char>> {
    if row.len() >= 4 && spec_trim(row[3]).len() > 0 {
        Some(spec_trim(row[3]))
    } else {
        None
    }
}

/// The note text of the record: its third field, or empty.
pub open spec fn row_comment(row: Seq<Seq<char>>) -> Seq<char> {
    if row.len() >= 3 {
        row[2]
    } else {
        Seq::empty()
    }
}

/// A per-record parse outcome is importable when the csv crate read the
/// record and it carries a non-blank position and solution.
pub open spec fn opt_row_valid(row: Option<Seq<Seq<char>>>) -> bool {
    row is Some && row_valid(row.unwrap())
}

/// Resolves per-record parse outcomes into flat-file rows: a record the csv
/// crate refused becomes an invalid row (skipped downstream, never fatal);
/// a readable record gets its position and solution trimmed, the supplied id
/// when one is given, and otherwise a fresh collision-resistant id bearing
/// the flat-file prefix.
pub fn resolve_csv_rows(rows: &Vec<Option<Vec<String>>>) -> (r: Vec<CsvRow>)
    ensures
        r@.len() == rows.deep_view().len(),
        forall|k: int|
            0 <= k < r@.len() ==> {
                let row = rows.deep_view()[k];
                &&& (#[trigger] r@[k])@.valid == opt_row_valid(row)
                &&& (opt_row_valid(row) ==> r@[k]@.fen == spec_trim(row.unwrap()[0])
                    && r@[k]@.moves == spec_trim(row.unwrap()[1]) && r@[k]@.comment == row_comment(
                    row.unwrap(),
                ))
                &&& (row is Some ==> match row_supplied_id(row.unwrap()) {
                    Some(id) => r@[k]@.puzzle_id == id,
                    None => r@[k]@.puzzle_id.len() == 36 && r@[k]@.puzzle_id.take(4) == "csv_"@,
                })
            },
{
    let mut out: Vec<CsvRow> = Vec::new();
    let mut i: usize = 0;
    while i < rows.len()
        invariant
            i <= rows@.len(),
            rows.deep_view().len() == rows@.len(),
            out@.len() == i,
            forall|k: int|
                0 <= k < i ==> {
                    let row = rows.deep_view()[k];
                    &&& (#[trigger] out@[k])@.valid == opt_row_valid(row)
                    &&& (opt_row_valid(row) ==> out@[k]@.fen == spec_trim(row.unwrap()[0])
                        && out@[k]@.moves == spec_trim(row.unwrap()[1]) && out@[k]@.comment
                        == row_comment(row.unwrap()))
                    &&& (row is Some ==> match row_supplied_id(row.unwrap()) {
                        Some(id) => out@[k]@.puzzle_id == id,
                        None => out@[k]@.puzzle_id.len() == 36 && out@[k]@.puzzle_id.take(4)
                            == "csv_"@,
                    })
                },
        decreases rows@.len() - i,
    {
        proof {
            assert(rows.deep_view()[i as int] == rows@[i as int].deep_view());
        }
        match &rows[i] {
            Some(row) => {
                proof {
                    assert(rows.deep_view()[i as int] is Some && rows.deep_view()[i as int].unwrap()
                        == row.deep_view());
                    assert(forall|j: int|
                        0 <= j < row@.len() ==> row.deep_view()[j] == (#[trigger] row@[j])@);
                }
                let fen = if row.len() >= 1 {
                    crate::text::trim_str(row[0].as_str())
                } else {
                    String::new()
                };
                let moves = if row.len() >= 2 {
                    crate::text::trim_str(row[1].as_str())
                } else {
                    String::new()
                };
                let comment = if row.len() >= 3 {
                    row[2].clone()
                } else {
                    String::new()
                };
                let valid = row.len() >= 2 && fen.unicode_len() > 0 && moves.unicode_len() > 0;
                let supplied = if row.len() >= 4 {
                    crate::text::trim_str(row[3].as_str())
                } else {
                    String::new()
                };
                let puzzle_id = if supplied.unicode_len() > 0 {
                    supplied
                } else {
                    let fresh = crate::codec::fresh_uuid_simple();
                    let mut id = String::from_str("csv_");
                    id.append(fresh.as_str());
                    proof {
                        reveal_strlit("csv_");
                        assert(id@.take(4) =~= "csv_"@);
                    }
                    id
                };
                let ghost rowv = row.deep_view();
                out.push(CsvRow { fen, moves, comment, puzzle_id, valid });
                proof {
                    if rowv.len() >= 3 {
                        assert(row_comment(rowv) == rowv[2]);
                    } else {
                        assert(row_comment(rowv) =~= Seq::<char>::empty());
                    }
                    if !(rowv.len() >= 4 && spec_trim(rowv[3]).len() > 0) {
                        assert(row_supplied_id(rowv) is None);
                    }
                }
            },
            None => {
                out.push(
                    CsvRow {
                        fen: String::new(),
                        moves: String::new(),
                        comment: String::new(),
                        puzzle_id: String::new(),
                        valid: false,
                    },
                );
                proof {
                    assert(!opt_row_valid(rows.deep_view()[i as int]));
                }
            },
        }
        i += 1;
    }
    out
}

/// The catalog row a staging candidate becomes: position fixed as requiring
/// a setup move, an empty note, and the upstream metadata carried over (a
/// difficulty beyond the catalog's integer width is pinned at the maximum).
pub open spec fn staged_view(r: RecordView) -> PuzzleView {
    PuzzleView {
        puzzle_id: r.puzzle_id,
        fen: r.fen,
        moves: r.moves,
        rating: if r.rating > i32::MAX {
            i32::MAX as int
        } else {
            r.rating
        },
        rating_deviation: r.rating_deviation,
        popularity: r.popularity,
        nb_plays: r.nb_plays,
        themes: r.themes,
        game_url: r.game_url,
        opening_tags: crate::puzzle::opt_text(r.opening_tags),
        comment: Seq::empty(),
        has_setup_move: true,
    }
}

/// Builds the catalog row of a staging candidate.
pub fn staged_puzzle(rec: &PuzzleRecord) -> (p: ChessPuzzle)
    ensures
        p@ == staged_view(rec@),
{
    let rating: i32 = if rec.rating > 2147483647u32 {
        i32::MAX
    } else {
        rec.rating as i32
    };
    ChessPuzzle {
        puzzle_id: rec.puzzle_id.clone(),
        fen: rec.fen.clone(),
        moves: rec.moves.clone(),
        rating,
        rating_deviation: rec.rating_deviation,
        popularity: rec.popularity,
        nb_plays: rec.nb_plays,
        themes: rec.themes.clone(),
        game_url: rec.game_url.clone(),
        opening_tags: String::from_str(rec.opening_tags_str()),
        comment: String::new(),
        has_setup_move: true,
    }
}

/// The catalog row a flat-file row becomes: no upstream metadata, the
/// flat-file theme tag, and no setup move.
pub open spec fn flat_view(r: CsvRowView) -> PuzzleView {
    PuzzleView {
        puzzle_id: r.puzzle_id,
        fen: r.fen,
        moves: r.moves,
        rating: 0,
        rating_deviation: 0,
        popularity: 0,
        nb_plays: 0,
        themes: "imported_csv"@,
        game_url: Seq::empty(),
        opening_tags: Seq::empty(),
        comment: r.comment,
        has_setup_move: false,
    }
}

/// The candidates an import run accepts: those whose id is not already
/// linked into the target scope. The dedup set is computed once, up front.
pub open spec fn accepted_puzzles(cands: Seq<PuzzleView>, existing: Seq<String>) -> Seq<PuzzleView>
    decreases cands.len(),
{
    if cands.len() == 0 {
        Seq::empty()
    } else {
        let pre = accepted_puzzles(cands.drop_last(), existing);
        if strs_contain(existing, cands.last().puzzle_id) {
            pre
        } else {
            pre.push(cands.last())
        }
    }
}

/// The shared batching core of both import paths. `cands` are the candidate
/// catalog rows in order; `existing` is the dedup set of the target scope,
/// computed once before the run.
#[verifier::rlimit(80)]
fn run_pipeline(
    repo: &mut PuzzleRepository,
    host: &mut HostCollection,
    deck_id: i64,
    deck_name: &str,
    cands: Vec<ChessPuzzle>,
    existing: Vec<String>,
    processed_base: usize,
    skipped_base: usize,
) -> (r: Result<ImportRunReport, AnkiChessError>)
    requires
        old(repo)@.wf(),
        old(host)@.wf(),
        old(host)@.has_deck(deck_id),
        skipped_base <= processed_base,
        processed_base + cands@.len() <= usize::MAX,
    ensures
        final(repo)@.wf(),
        final(host)@.wf(),
        final(host)@.decks == old(host)@.decks,
        final(host)@.configs == old(host)@.configs,
        final(host)@.has_basic_notetype == old(host)@.has_basic_notetype,
        r is Err ==> r.unwrap_err() is DatabaseError,
        r is Ok ==> {
            let acc = accepted_puzzles(cands@.map_values(|p: ChessPuzzle| p@), existing@);
            &&& r.unwrap().processed == processed_base + cands@.len()
            &&& r.unwrap().imported == acc.len()
            &&& r.unwrap().skipped == skipped_base + cands@.len() - acc.len()
            &&& forall|id: Seq<char>|
                #[trigger] has_id(final(repo)@.puzzles, id) <==> has_id(old(repo)@.puzzles, id)
                    || exists|k: int| 0 <= k < acc.len() && (#[trigger] acc[k]).puzzle_id == id
            &&& forall|k: int|
                0 <= k < acc.len() ==> has_link(
                    final(repo)@.links,
                    #[trigger] pipeline_nid(old(host)@.next_id, k),
                ) && link_of(final(repo)@.links, pipeline_nid(old(host)@.next_id, k))
                    == acc[k].puzzle_id
            &&& final(host)@.notes == old(host)@.notes + batch_notes(
                old(host)@.next_id,
                deck_name@,
                acc,
            )
            &&& final(host)@.cards == old(host)@.cards + batch_cards(
                old(host)@.next_id,
                deck_id,
                acc.len(),
            )
            &&& final(host)@.next_id == old(host)@.next_id + 2 * acc.len()
            &&& forall|id: Seq<char>|
                has_id(old(repo)@.puzzles, id) ==> #[trigger] puzzle_at(final(repo)@.puzzles, id)
                    == puzzle_at(old(repo)@.puzzles, id)
            &&& forall|id: Seq<char>|
                !has_id(old(repo)@.puzzles, id) && #[trigger] has_id(final(repo)@.puzzles, id)
                    ==> exists|k: int|
                    0 <= k < acc.len() && (#[trigger] acc[k]).puzzle_id == id && puzzle_at(
                        final(repo)@.puzzles,
                        id,
                    ) == acc[k]
            &&& r.unwrap().events@.len() >= 1
            &&& r.unwrap().events@.last().processed_count == processed_base + cands@.len()
            &&& r.unwrap().events@.last().imported_count == acc.len()
            &&& r.unwrap().events@.last().skipped_count == skipped_base + cands@.len() - acc.len()
        },
        old(host)@.next_id + 2 * cands@.len() <= i64::MAX ==> r is Ok,
{
    let ghost candv = cands@.map_values(|p: ChessPuzzle| p@);
    let ghost acc = accepted_puzzles(candv, existing@);
    let ghost repo0 = repo@;
    let ghost host0 = host@;
    let total = cands.len();
    let mut batch: Vec<ChessPuzzle> = Vec::new();
    let mut events: Vec<ImportProgress> = Vec::new();
    let mut imported: usize = 0;
    let mut skipped: usize = 0;
    let mut i: usize = 0;
    proof {
        assert(accepted_puzzles(candv.take(0), existing@) =~= Seq::<PuzzleView>::empty());
        assert(host@.notes =~= host0.notes + batch_notes(
            host0.next_id,
            deck_name@,
            accepted_puzzles(candv.take(0), existing@).take(0),
        ));
        assert(host@.cards =~= host0.cards + batch_cards(host0.next_id, deck_id, 0nat));
    }
    while i < total
        invariant
            i <= total,
            total == cands@.len(),
            candv == cands@.map_values(|p: ChessPuzzle| p@),
            repo@.wf(),
            host@.wf(),
            host@.decks == host0.decks,
            host@.configs == host0.configs,
            host@.has_basic_notetype == host0.has_basic_notetype,
            host0.has_deck(deck_id),
            ({
                let acc_i = accepted_puzzles(candv.take(i as int), existing@);
                &&& acc_i.is_prefix_of(accepted_puzzles(candv, existing@))
                &&& imported + batch@.len() == acc_i.len()
                &&& skipped == i - acc_i.len()
                &&& batch@.map_values(|p: ChessPuzzle| p@) =~= acc_i.skip(imported as int)
                &&& host@.next_id == host0.next_id + 2 * imported
                &&& forall|id: Seq<char>|
                    #[trigger] has_id(repo@.puzzles, id) <==> has_id(repo0.puzzles, id) || exists|
                        k: int,
                    |
                        0 <= k < imported && (#[trigger] acc_i[k]).puzzle_id == id
                &&& forall|k: int|
                    0 <= k < imported ==> has_link(
                        repo@.links,
                        #[trigger] pipeline_nid(host0.next_id, k),
                    ) && link_of(repo@.links, pipeline_nid(host0.next_id, k))
                        == acc_i[k].puzzle_id
                &&& host@.notes == host0.notes + batch_notes(
                    host0.next_id,
                    deck_name@,
                    acc_i.take(imported as int),
                )
                &&& host@.cards == host0.cards + batch_cards(
                    host0.next_id,
                    deck_id,
                    imported as nat,
                )
                &&& forall|id: Seq<char>|
                    has_id(repo0.puzzles, id) ==> #[trigger] puzzle_at(repo@.puzzles, id)
                        == puzzle_at(repo0.puzzles, id)
                &&& forall|id: Seq<char>|
                    !has_id(repo0.puzzles, id) && #[trigger] has_id(repo@.puzzles, id) ==> exists|
                        k: int,
                    |
                        0 <= k < imported && (#[trigger] acc_i[k]).puzzle_id == id && puzzle_at(
                            repo@.puzzles,
                            id,
                        ) == acc_i[k]
            }),
        decreases total - i,
    {
        let ghost acc_i = accepted_puzzles(candv.take(i as int), existing@);
        proof {
            assert(candv.take(i + 1).drop_last() =~= candv.take(i as int));
            assert(candv.take(i + 1).last() == candv[i as int]);
        }
        let is_dup = vec_contains_str(&existing, cands[i].puzzle_id.as_str());
        proof {
            assert(candv[i as int].puzzle_id == cands@[i as int]@.puzzle_id);
        }
        if is_dup {
            skipped += 1;
            proof {
                assert(accepted_puzzles(candv.take(i + 1), existing@) == acc_i);
            }
        } else {
            let ghost prev_batchv = batch@.map_values(|p: ChessPuzzle| p@);
            batch.push(cands[i].duplicate());
            proof {
                let acc_n = accepted_puzzles(candv.take(i + 1), existing@);
                assert(acc_n == acc_i.push(candv[i as int]));
                assert(acc_n.is_prefix_of(acc)) by {
                    lemma_accepted_step(candv, existing@, i as int);
                }
                assert(prev_batchv =~= acc_i.skip(imported as int));
                assert(batch@.map_values(|p: ChessPuzzle| p@) =~= prev_batchv.push(
                    candv[i as int],
                ));
                assert(batch@.map_values(|p: ChessPuzzle| p@) =~= acc_n.skip(imported as int));
                assert(acc_n.take(imported as int) =~= acc_i.take(imported as int));
            }
        }
        if batch.len() >= BATCH_SIZE {
            let ghost repo_pre = repo@;
            let ghost host_pre = host@;
            let ghost batchv = batch@.map_values(|p: ChessPuzzle| p@);
            let n = flush_guarded(repo, host, deck_id, deck_name, &mut batch)?;
            imported += n;
            proof {
                let acc_n = accepted_puzzles(candv.take(i + 1), existing@);
                assert(batchv =~= acc_n.subrange(imported - n, acc_n.len() as int));
                lemma_after_flush(repo0, repo_pre, repo@, acc_n, (imported - n) as int, batchv);
                lemma_links_after_flush(
                    repo_pre.links,
                    repo@.links,
                    host0.next_id,
                    (imported - n) as int,
                    acc_n,
                    batchv,
                    host_pre.next_id,
                );
                lemma_host_after_flush(
                    host0,
                    host_pre,
                    host@,
                    deck_name@,
                    deck_id,
                    (imported - n) as int,
                    acc_n,
                    batchv,
                );
            }
            events.push(
                ImportProgress {
                    message: String::from_str("importing"),
                    processed_count: processed_base + i + 1,
                    imported_count: imported,
                    skipped_count: skipped_base + skipped,
                    total_to_import: None,
                },
            );
        }
        i += 1;
    }
    proof {
        assert(candv.take(total as int) =~= candv);
    }
    if batch.len() > 0 {
        let ghost repo_pre = repo@;
        let ghost host_pre = host@;
        let ghost batchv = batch@.map_values(|p: ChessPuzzle| p@);
        let n = flush_guarded(repo, host, deck_id, deck_name, &mut batch)?;
        imported += n;
        proof {
            assert(batchv =~= acc.subrange(imported - n, acc.len() as int));
            lemma_after_flush(repo0, repo_pre, repo@, acc, (imported - n) as int, batchv);
            lemma_links_after_flush(
                repo_pre.links,
                repo@.links,
                host0.next_id,
                (imported - n) as int,
                acc,
                batchv,
                host_pre.next_id,
            );
            lemma_host_after_flush(
                host0,
                host_pre,
                host@,
                deck_name@,
                deck_id,
                (imported - n) as int,
                acc,
                batchv,
            );
        }
    }
    proof {
        assert(acc.take(acc.len() as int) =~= acc);
    }
    events.push(
        ImportProgress {
            message: String::from_str("done"),
            processed_count: processed_base + total,
            imported_count: imported,
            skipped_count: skipped_base + skipped,
            total_to_import: None,
        },
    );
    Ok(
        ImportRunReport {
            processed: processed_base + total,
            imported,
            skipped: skipped_base + skipped,
            events,
        },
    )
}

/// After a flush, the host records created so far are exactly one note and
/// one card per accepted row, in order: the flush's fresh batch continues
/// the run's id sequence.
proof fn lemma_host_after_flush(
    host0: crate::host::HostView,
    pre: crate::host::HostView,
    post: crate::host::HostView,
    deck_name: Seq<char>,
    deck_id: i64,
    before: int,
    acc: Seq<PuzzleView>,
    batchv: Seq<PuzzleView>,
)
    requires
        0 <= before,
        before + batchv.len() <= acc.len(),
        batchv =~= acc.subrange(before, before + batchv.len()),
        pre.notes == host0.notes + batch_notes(host0.next_id, deck_name, acc.take(before)),
        pre.cards == host0.cards + batch_cards(host0.next_id, deck_id, before as nat),
        pre.next_id == host0.next_id + 2 * before,
        post.notes == pre.notes + batch_notes(pre.next_id, deck_name, batchv),
        post.cards == pre.cards + batch_cards(pre.next_id, deck_id, batchv.len()),
        post.next_id == pre.next_id + 2 * batchv.len(),
        host0.next_id >= 1,
    ensures
        post.notes == host0.notes + batch_notes(
            host0.next_id,
            deck_name,
            acc.take(before + batchv.len()),
        ),
        post.cards == host0.cards + batch_cards(
            host0.next_id,
            deck_id,
            (before + batchv.len()) as nat,
        ),
        post.next_id == host0.next_id + 2 * (before + batchv.len()),
{
    let taken = acc.take(before + batchv.len());
    assert(batch_notes(host0.next_id, deck_name, taken) =~= batch_notes(
        host0.next_id,
        deck_name,
        acc.take(before),
    ) + batch_notes(pre.next_id, deck_name, batchv)) by {
        assert forall|k: int|
            0 <= k < taken.len() implies #[trigger] batch_notes(host0.next_id, deck_name, taken)[k]
            == (batch_notes(host0.next_id, deck_name, acc.take(before)) + batch_notes(
            pre.next_id,
            deck_name,
            batchv,
        ))[k] by {
            if k >= before {
                assert(batchv[k - before] == taken[k]);
                assert(pre.next_id + 2 * (k - before) == host0.next_id + 2 * k);
            }
        }
    }
    assert(batch_cards(host0.next_id, deck_id, (before + batchv.len()) as nat) =~= batch_cards(
        host0.next_id,
        deck_id,
        before as nat,
    ) + batch_cards(pre.next_id, deck_id, batchv.len())) by {
        assert forall|k: int|
            0 <= k < before + batchv.len() implies #[trigger] batch_cards(
            host0.next_id,
            deck_id,
            (before + batchv.len()) as nat,
        )[k] == (batch_cards(host0.next_id, deck_id, before as nat) + batch_cards(
            pre.next_id,
            deck_id,
            batchv.len(),
        ))[k] by {
            if k >= before {
                assert(pre.next_id + 2 * (k - before) == host0.next_id + 2 * k);
            }
        }
    }
    assert(post.notes =~= host0.notes + batch_notes(host0.next_id, deck_name, taken));
    assert(post.cards =~= host0.cards + batch_cards(
        host0.next_id,
        deck_id,
        (before + batchv.len()) as nat,
    ));
}

/// A step of acceptance keeps prefixes: accepting one more candidate only
/// appends to the accepted rows.
proof fn lemma_accepted_step(candv: Seq<PuzzleView>, existing: Seq<String>, i: int)
    requires
        0 <= i < candv.len(),
    ensures
        accepted_puzzles(candv.take(i + 1), existing).is_prefix_of(
            accepted_puzzles(candv, existing),
        ),
    decreases candv.len() - i,
{
    if i + 1 == candv.len() {
        assert(candv.take(i + 1) =~= candv);
    } else {
        lemma_accepted_step(candv, existing, i + 1);
        assert(candv.take(i + 2).drop_last() =~= candv.take(i + 1));
        assert(candv.take(i + 2).last() == candv[i + 1]);
    }
}

/// After a flush, the committed ids are exactly the previously committed
/// ones plus the batch: the membership bookkeeping of the pipeline loop.
proof fn lemma_after_flush(
    repo0: crate::repo::RepoView,
    pre: crate::repo::RepoView,
    post: crate::repo::RepoView,
    acc: Seq<PuzzleView>,
    committed0: int,
    batchv: Seq<PuzzleView>,
)
    requires
        0 <= committed0,
        committed0 + batchv.len() <= acc.len(),
        batchv =~= acc.skip(committed0),
        pre.wf(),
        post.puzzles == insert_absent_all(pre.puzzles, batchv),
        forall|id: Seq<char>|
            #[trigger] has_id(pre.puzzles, id) <==> has_id(repo0.puzzles, id) || exists|k: int|
                0 <= k < committed0 && (#[trigger] acc[k]).puzzle_id == id,
        forall|id: Seq<char>|
            has_id(repo0.puzzles, id) ==> #[trigger] puzzle_at(pre.puzzles, id) == puzzle_at(
                repo0.puzzles,
                id,
            ),
        forall|id: Seq<char>|
            !has_id(repo0.puzzles, id) && #[trigger] has_id(pre.puzzles, id) ==> exists|k: int|
                0 <= k < committed0 && (#[trigger] acc[k]).puzzle_id == id && puzzle_at(
                    pre.puzzles,
                    id,
                ) == acc[k],
    ensures
        forall|id: Seq<char>|
            #[trigger] has_id(post.puzzles, id) <==> has_id(repo0.puzzles, id) || exists|k: int|
                0 <= k < committed0 + batchv.len() && (#[trigger] acc[k]).puzzle_id == id,
        forall|id: Seq<char>|
            has_id(repo0.puzzles, id) ==> #[trigger] puzzle_at(post.puzzles, id) == puzzle_at(
                repo0.puzzles,
                id,
            ),
        forall|id: Seq<char>|
            !has_id(repo0.puzzles, id) && #[trigger] has_id(post.puzzles, id) ==> exists|k: int|
                0 <= k < committed0 + batchv.len() && (#[trigger] acc[k]).puzzle_id == id
                    && puzzle_at(post.puzzles, id) == acc[k],
{
    crate::repo::lemma_insert_absent_all(pre.puzzles, batchv);
    assert forall|id: Seq<char>| #[trigger] has_id(post.puzzles, id) implies has_id(
        repo0.puzzles,
        id,
    ) || exists|k: int|
        0 <= k < committed0 + batchv.len() && (#[trigger] acc[k]).puzzle_id == id by {
        if !has_id(repo0.puzzles, id) {
            if has_id(pre.puzzles, id) {
                let k = choose|k: int|
                    0 <= k < committed0 && (#[trigger] acc[k]).puzzle_id == id;
            } else {
                let k = choose|k: int|
                    0 <= k < batchv.len() && (#[trigger] batchv[k]).puzzle_id == id;
                assert(acc[committed0 + k].puzzle_id == id);
            }
        }
    }
    assert forall|id: Seq<char>|
        has_id(repo0.puzzles, id) || exists|k: int|
            0 <= k < committed0 + batchv.len() && (#[trigger] acc[k]).puzzle_id == id implies
        #[trigger] has_id(post.puzzles, id) by {
        if has_id(repo0.puzzles, id) {
            assert(has_id(pre.puzzles, id));
        } else {
            let k = choose|k: int|
                0 <= k < committed0 + batchv.len() && (#[trigger] acc[k]).puzzle_id == id;
            if k < committed0 {
                assert(has_id(pre.puzzles, id));
            } else {
                assert(batchv[k - committed0].puzzle_id == id);
            }
        }
    }
    assert forall|id: Seq<char>| has_id(repo0.puzzles, id) implies #[trigger] puzzle_at(
        post.puzzles,
        id,
    ) == puzzle_at(repo0.puzzles, id) by {
        assert(has_id(pre.puzzles, id));
        assert(puzzle_at(post.puzzles, id) == puzzle_at(pre.puzzles, id));
    }
    assert forall|id: Seq<char>|
        !has_id(repo0.puzzles, id) && #[trigger] has_id(post.puzzles, id) implies exists|k: int|
        0 <= k < committed0 + batchv.len() && (#[trigger] acc[k]).puzzle_id == id && puzzle_at(
        post.puzzles,
        id,
    ) == acc[k] by {
        if has_id(pre.puzzles, id) {
            let k = choose|k: int|
                0 <= k < committed0 && (#[trigger] acc[k]).puzzle_id == id && puzzle_at(
                    pre.puzzles,
                    id,
                ) == acc[k];
            assert(puzzle_at(post.puzzles, id) == puzzle_at(pre.puzzles, id));
        } else {
            let j = choose|j: int|
                0 <= j < batchv.len() && (#[trigger] batchv[j]).puzzle_id == id && puzzle_at(
                    post.puzzles,
                    id,
                ) == batchv[j];
            assert(acc[committed0 + j] == batchv[j]);
        }
    }
}

/// A flush whose capacity was established by the caller: wraps
/// `process_batch`, turning its precondition bookkeeping into a contract the
/// pipeline loop can thread.
fn flush_guarded(
    repo: &mut PuzzleRepository,
    host: &mut HostCollection,
    deck_id: i64,
    deck_name: &str,
    batch: &mut Vec<ChessPuzzle>,
) -> (r: Result<usize, AnkiChessError>)
    requires
        old(repo)@.wf(),
        old(host)@.wf(),
    ensures
        final(repo)@.wf(),
        final(host)@.wf(),
        final(host)@.decks == old(host)@.decks,
        final(host)@.configs == old(host)@.configs,
        final(host)@.has_basic_notetype == old(host)@.has_basic_notetype,
        r is Err ==> final(repo)@ == old(repo)@ && final(host)@ == old(host)@ && r.unwrap_err()
            is DatabaseError,
        old(host)@.has_deck(deck_id) && old(host)@.next_id + 2 * old(batch)@.len() <= i64::MAX
            ==> r is Ok,
        r is Ok ==> {
            let rows = old(batch)@.map_values(|p: ChessPuzzle| p@);
            &&& r.unwrap() == old(batch)@.len()
            &&& final(batch)@.len() == 0
            &&& final(repo)@.puzzles == insert_absent_all(old(repo)@.puzzles, rows)
            &&& final(repo)@.links == upsert_links(
                old(repo)@.links,
                batch_links(old(host)@.next_id, rows),
            )
            &&& final(host)@.notes == old(host)@.notes + batch_notes(
                old(host)@.next_id,
                deck_name@,
                rows,
            )
            &&& final(host)@.cards == old(host)@.cards + batch_cards(
                old(host)@.next_id,
                deck_id,
                rows.len(),
            )
            &&& final(host)@.next_id == old(host)@.next_id + 2 * rows.len()
        },
{
    process_batch(repo, host, deck_id, deck_name, batch)
}

/// The candidates a staging-path run accepts: those whose id is not already
/// linked into the target scope.
pub open spec fn accepted_recs(
    cands: Seq<RecordView>,
    links0: Seq<(i64, Seq<char>)>,
    host0: crate::host::HostView,
    deck: i64,
) -> Seq<RecordView>
    decreases cands.len(),
{
    if cands.len() == 0 {
        Seq::empty()
    } else {
        let pre = accepted_recs(cands.drop_last(), links0, host0, deck);
        if scope_has_id(links0, host0, deck, cands.last().puzzle_id) {
            pre
        } else {
            pre.push(cands.last())
        }
    }
}

/// The flat-file rows a run accepts: the well-formed ones whose id is not
/// already linked into the target scope.
pub open spec fn accepted_flat(
    rows: Seq<CsvRowView>,
    links0: Seq<(i64, Seq<char>)>,
    host0: crate::host::HostView,
    deck: i64,
) -> Seq<CsvRowView>
    decreases rows.len(),
{
    if rows.len() == 0 {
        Seq::empty()
    } else {
        let pre = accepted_flat(rows.drop_last(), links0, host0, deck);
        if rows.last().valid && !scope_has_id(links0, host0, deck, rows.last().puzzle_id) {
            pre.push(rows.last())
        } else {
            pre
        }
    }
}

/// The well-formed flat-file rows, in order.
pub open spec fn valid_rows(rows: Seq<CsvRowView>) -> Seq<CsvRowView>
    decreases rows.len(),
{
    if rows.len() == 0 {
        Seq::empty()
    } else {
        let pre = valid_rows(rows.drop_last());
        if rows.last().valid {
            pre.push(rows.last())
        } else {
            pre
        }
    }
}

/// Acceptance computed over the staged catalog rows agrees with acceptance
/// computed over the staging rows, because staging preserves the id.
proof fn lemma_accepted_commute_staging(
    cands: Seq<RecordView>,
    existing: Seq<String>,
    links0: Seq<(i64, Seq<char>)>,
    host0: crate::host::HostView,
    deck: i64,
)
    requires
        forall|id: Seq<char>|
            #[trigger] strs_contain(existing, id) <==> scope_has_id(links0, host0, deck, id),
    ensures
        accepted_puzzles(cands.map_values(|r: RecordView| staged_view(r)), existing)
            == accepted_recs(cands, links0, host0, deck).map_values(
            |r: RecordView| staged_view(r),
        ),
    decreases cands.len(),
{
    let mapped = cands.map_values(|r: RecordView| staged_view(r));
    if cands.len() == 0 {
        assert(mapped =~= Seq::<PuzzleView>::empty());
        assert(accepted_recs(cands, links0, host0, deck).map_values(
            |r: RecordView| staged_view(r),
        ) =~= Seq::<PuzzleView>::empty());
    } else {
        lemma_accepted_commute_staging(cands.drop_last(), existing, links0, host0, deck);
        assert(mapped.drop_last() =~= cands.drop_last().map_values(
            |r: RecordView| staged_view(r),
        ));
        assert(mapped.last() == staged_view(cands.last()));
        assert(mapped.last().puzzle_id == cands.last().puzzle_id);
        let pre_r = accepted_recs(cands.drop_last(), links0, host0, deck);
        if !scope_has_id(links0, host0, deck, cands.last().puzzle_id) {
            assert(accepted_recs(cands, links0, host0, deck).map_values(
                |r: RecordView| staged_view(r),
            ) =~= pre_r.map_values(|r: RecordView| staged_view(r)).push(
                staged_view(cands.last()),
            ));
        }
    }
}

/// Acceptance computed over the staged flat-file rows agrees with acceptance
/// computed over the rows themselves.
proof fn lemma_accepted_commute_flat(
    rows: Seq<CsvRowView>,
    existing: Seq<String>,
    links0: Seq<(i64, Seq<char>)>,
    host0: crate::host::HostView,
    deck: i64,
)
    requires
        forall|id: Seq<char>|
            #[trigger] strs_contain(existing, id) <==> scope_has_id(links0, host0, deck, id),
    ensures
        accepted_puzzles(valid_rows(rows).map_values(|r: CsvRowView| flat_view(r)), existing)
            == accepted_flat(rows, links0, host0, deck).map_values(|r: CsvRowView| flat_view(r)),
        valid_rows(rows).len() <= rows.len(),
    decreases rows.len(),
{
    if rows.len() == 0 {
        assert(valid_rows(rows).map_values(|r: CsvRowView| flat_view(r)) =~= Seq::<
            PuzzleView,
        >::empty());
        assert(accepted_flat(rows, links0, host0, deck).map_values(|r: CsvRowView| flat_view(r))
            =~= Seq::<PuzzleView>::empty());
    } else {
        lemma_accepted_commute_flat(rows.drop_last(), existing, links0, host0, deck);
        let pre_v = valid_rows(rows.drop_last());
        let pre_a = accepted_flat(rows.drop_last(), links0, host0, deck);
        let f = |r: CsvRowView| flat_view(r);
        if rows.last().valid {
            assert(valid_rows(rows) == pre_v.push(rows.last()));
            let mapped = valid_rows(rows).map_values(f);
            assert(mapped =~= pre_v.map_values(f).push(flat_view(rows.last())));
            assert(mapped.drop_last() =~= pre_v.map_values(f));
            assert(mapped.last() == flat_view(rows.last()));
            assert(flat_view(rows.last()).puzzle_id == rows.last().puzzle_id);
            if !scope_has_id(links0, host0, deck, rows.last().puzzle_id) {
                assert(accepted_flat(rows, links0, host0, deck).map_values(f) =~= pre_a.map_values(
                    f,
                ).push(flat_view(rows.last())));
            } else {
                assert(accepted_puzzles(mapped, existing) == accepted_puzzles(
                    mapped.drop_last(),
                    existing,
                ));
            }
        } else {
            assert(valid_rows(rows) == pre_v);
            assert(accepted_flat(rows, links0, host0, deck) == pre_a);
        }
    }
}

/// Every accepted flat-file row is one of the input rows, and importable.
proof fn lemma_accepted_flat_subset(
    rows: Seq<CsvRowView>,
    links0: Seq<(i64, Seq<char>)>,
    host0: crate::host::HostView,
    deck: i64,
)
    ensures
        forall|j: int|
            0 <= j < accepted_flat(rows, links0, host0, deck).len() ==> (exists|k: int|
                0 <= k < rows.len() && rows[k] == #[trigger] accepted_flat(
                    rows,
                    links0,
                    host0,
                    deck,
                )[j]) && accepted_flat(rows, links0, host0, deck)[j].valid,
    decreases rows.len(),
{
    if rows.len() > 0 {
        lemma_accepted_flat_subset(rows.drop_last(), links0, host0, deck);
        let pre = accepted_flat(rows.drop_last(), links0, host0, deck);
        let whole = accepted_flat(rows, links0, host0, deck);
        assert forall|j: int| 0 <= j < whole.len() implies (exists|k: int|
            0 <= k < rows.len() && rows[k] == #[trigger] whole[j]) && whole[j].valid by {
            if j < pre.len() {
                let k = choose|k: int|
                    0 <= k < rows.drop_last().len() && rows.drop_last()[k] == pre[j];
                assert(rows[k] == whole[j]);
            } else {
                assert(whole[j] == rows.last());
                assert(rows[rows.len() - 1] == whole[j]);
            }
        }
    }
}

/// The import pipeline: the two entry points share the batching core above.
pub struct ImportService;

impl ImportService {
    /// Imports the staging rows matching the criteria into the target scope,
    /// skipping ids the scope already holds, in atomic batches. Returns the
    /// run's counts and its progress events.
    pub fn import_from_lichess_db(
        staging: &StagingStore,
        repo: &mut PuzzleRepository,
        host: &mut HostCollection,
        payload: ImportOptions,
    ) -> (r: Result<ImportRunReport, AnkiChessError>)
        requires
            old(repo)@.wf(),
            old(host)@.wf(),
        ensures
            final(repo)@.wf(),
            final(host)@.wf(),
            !old(host)@.has_basic_notetype ==> r is Err && r.unwrap_err() is ConfigurationError
                && final(repo)@ == old(repo)@ && final(host)@ == old(host)@,
            old(host)@.has_basic_notetype && !old(host)@.has_deck(payload.deck_id) ==> r is Err
                && r.unwrap_err() is NotFound && final(repo)@ == old(repo)@ && final(host)@ == old(
                host,
            )@,
            r is Err ==> r.unwrap_err() is ConfigurationError || r.unwrap_err() is NotFound
                || r.unwrap_err() is DatabaseError,
            r is Ok ==> {
                let cands = spec_candidates(staging@.puzzles, payload);
                let acc = accepted_recs(cands, old(repo)@.links, old(host)@, payload.deck_id);
                &&& r.unwrap().processed == cands.len()
                &&& r.unwrap().imported == acc.len()
                &&& r.unwrap().skipped == cands.len() - acc.len()
                &&& forall|id: Seq<char>|
                    #[trigger] has_id(final(repo)@.puzzles, id) <==> has_id(
                        old(repo)@.puzzles,
                        id,
                    ) || exists|k: int| 0 <= k < acc.len() && (#[trigger] acc[k]).puzzle_id == id
                &&& forall|k: int|
                    0 <= k < acc.len() ==> crate::repo::linked(
                        final(repo)@.links,
                        (#[trigger] acc[k]).puzzle_id,
                    )
                &&& final(host)@.notes == old(host)@.notes + batch_notes(
                    old(host)@.next_id,
                    old(host)@.deck_at(payload.deck_id).name,
                    acc.map_values(|x: RecordView| staged_view(x)),
                )
                &&& final(host)@.cards == old(host)@.cards + batch_cards(
                    old(host)@.next_id,
                    payload.deck_id,
                    acc.len(),
                )
                &&& final(host)@.next_id == old(host)@.next_id + 2 * acc.len()
                &&& forall|id: Seq<char>|
                    has_id(old(repo)@.puzzles, id) ==> #[trigger] puzzle_at(
                        final(repo)@.puzzles,
                        id,
                    ) == puzzle_at(old(repo)@.puzzles, id)
                &&& forall|id: Seq<char>|
                    !has_id(old(repo)@.puzzles, id) && #[trigger] has_id(
                        final(repo)@.puzzles,
                        id,
                    ) ==> exists|k: int|
                        0 <= k < acc.len() && (#[trigger] acc[k]).puzzle_id == id && puzzle_at(
                            final(repo)@.puzzles,
                            id,
                        ) == staged_view(acc[k])
                &&& r.unwrap().events@.len() >= 1
                &&& r.unwrap().events@.last().processed_count == cands.len()
                &&& r.unwrap().events@.last().imported_count == acc.len()
                &&& r.unwrap().events@.last().skipped_count == cands.len() - acc.len()
            },
            old(host)@.has_basic_notetype && old(host)@.has_deck(payload.deck_id) && old(
                host,
            )@.next_id + 2 * spec_candidates(staging@.puzzles, payload).len() <= i64::MAX ==> r
                is Ok,
    {
        if !host.has_basic_notetype {
            return Err(
                AnkiChessError::ConfigurationError(
                    String::from_str("base record template missing"),
                ),
            );
        }
        let deck_name = match host.get_deck_name(payload.deck_id) {
            Ok(n) => n,
            Err(e) => {
                return Err(e);
            },
        };
        let ghost links0 = repo@.links;
        let ghost host0 = host@;
        let existing = repo.get_existing_ids_in_deck(host, payload.deck_id);
        let recs = staging.select_candidates(&payload);
        let ghost recsv = recs@.map_values(|p: PuzzleRecord| p@);
        let mut cands: Vec<ChessPuzzle> = Vec::new();
        let mut i: usize = 0;
        proof {
            assert(cands@.map_values(|p: ChessPuzzle| p@) =~= recsv.take(0).map_values(
                |r: RecordView| staged_view(r),
            ));
        }
        while i < recs.len()
            invariant
                i <= recs@.len(),
                recsv == recs@.map_values(|p: PuzzleRecord| p@),
                cands@.map_values(|p: ChessPuzzle| p@) == recsv.take(i as int).map_values(
                    |r: RecordView| staged_view(r),
                ),
            decreases recs@.len() - i,
        {
            let ghost prev = cands@.map_values(|p: ChessPuzzle| p@);
            cands.push(staged_puzzle(&recs[i]));
            proof {
                assert(cands@.map_values(|p: ChessPuzzle| p@) =~= prev.push(
                    staged_view(recsv[i as int]),
                ));
                assert(recsv.take(i + 1).map_values(|r: RecordView| staged_view(r)) =~= recsv.take(
                    i as int,
                ).map_values(|r: RecordView| staged_view(r)).push(staged_view(recsv[i as int])));
            }
            i += 1;
        }
        proof {
            assert(recsv.take(recsv.len() as int) =~= recsv);
            assert(cands@.map_values(|p: ChessPuzzle| p@) == recsv.map_values(
                |r: RecordView| staged_view(r),
            ));
            lemma_accepted_commute_staging(recsv, existing@, links0, host0, payload.deck_id);
        }
        let report = run_pipeline(
            repo,
            host,
            payload.deck_id,
            deck_name.as_str(),
            cands,
            existing,
            0,
            0,
        )?;
        proof {
            let acc = accepted_recs(recsv, links0, host0, payload.deck_id);
            let accp = accepted_puzzles(
                recsv.map_values(|r: RecordView| staged_view(r)),
                existing@,
            );
            assert(accp == acc.map_values(|r: RecordView| staged_view(r)));
            assert forall|id: Seq<char>| #[trigger] has_id(repo@.puzzles, id) <==> has_id(
                old(repo)@.puzzles,
                id,
            ) || exists|k: int| 0 <= k < acc.len() && (#[trigger] acc[k]).puzzle_id == id by {
                if exists|k: int| 0 <= k < accp.len() && (#[trigger] accp[k]).puzzle_id == id {
                    let k = choose|k: int|
                        0 <= k < accp.len() && (#[trigger] accp[k]).puzzle_id == id;
                    assert(acc[k].puzzle_id == id);
                }
                if exists|k: int| 0 <= k < acc.len() && (#[trigger] acc[k]).puzzle_id == id {
                    let k = choose|k: int|
                        0 <= k < acc.len() && (#[trigger] acc[k]).puzzle_id == id;
                    assert(accp[k].puzzle_id == id);
                }
            }
            assert forall|k: int| 0 <= k < acc.len() implies crate::repo::linked(
                repo@.links,
                (#[trigger] acc[k]).puzzle_id,
            ) by {
                assert(has_link(repo@.links, pipeline_nid(host0.next_id, k)));
                assert(accp[k].puzzle_id == acc[k].puzzle_id);
                let w = crate::repo::link_idx(repo@.links, pipeline_nid(host0.next_id, k));
                assert(repo@.links[w].1 == acc[k].puzzle_id);
            }
            assert forall|id: Seq<char>|
                !has_id(old(repo)@.puzzles, id) && #[trigger] has_id(
                repo@.puzzles,
                id,
            ) implies exists|k: int|
                0 <= k < acc.len() && (#[trigger] acc[k]).puzzle_id == id && puzzle_at(
                repo@.puzzles,
                id,
            ) == staged_view(acc[k]) by {
                let k = choose|k: int|
                    0 <= k < accp.len() && (#[trigger] accp[k]).puzzle_id == id && puzzle_at(
                        repo@.puzzles,
                        id,
                    ) == accp[k];
                assert(acc[k].puzzle_id == id);
                assert(accp[k] == staged_view(acc[k]));
            }
        }
        Ok(report)
    }

    /// Imports resolved flat-file rows into the target scope: rows missing a
    /// position or solution are skipped, ids the scope already holds are
    /// skipped, the rest are committed in atomic batches.
    pub fn import_csv_rows(
        repo: &mut PuzzleRepository,
        host: &mut HostCollection,
        deck_id: i64,
        rows: Vec<CsvRow>,
    ) -> (r: Result<ImportRunReport, AnkiChessError>)
        requires
            old(repo)@.wf(),
            old(host)@.wf(),
        ensures
            final(repo)@.wf(),
            final(host)@.wf(),
            !old(host)@.has_basic_notetype ==> r is Err && r.unwrap_err() is ConfigurationError
                && final(repo)@ == old(repo)@ && final(host)@ == old(host)@,
            old(host)@.has_basic_notetype && !old(host)@.has_deck(deck_id) ==> r is Err
                && r.unwrap_err() is NotFound && final(repo)@ == old(repo)@ && final(host)@ == old(
                host,
            )@,
            r is Err ==> r.unwrap_err() is ConfigurationError || r.unwrap_err() is NotFound
                || r.unwrap_err() is DatabaseError,
            r is Ok ==> {
                let rowvs = rows@.map_values(|x: CsvRow| x@);
                let acc = accepted_flat(rowvs, old(repo)@.links, old(host)@, deck_id);
                &&& r.unwrap().processed == rows@.len()
                &&& r.unwrap().imported == acc.len()
                &&& r.unwrap().skipped == rows@.len() - acc.len()
                &&& forall|id: Seq<char>|
                    #[trigger] has_id(final(repo)@.puzzles, id) <==> has_id(
                        old(repo)@.puzzles,
                        id,
                    ) || exists|k: int| 0 <= k < acc.len() && (#[trigger] acc[k]).puzzle_id == id
                &&& forall|k: int|
                    0 <= k < acc.len() ==> crate::repo::linked(
                        final(repo)@.links,
                        (#[trigger] acc[k]).puzzle_id,
                    )
                &&& final(host)@.notes == old(host)@.notes + batch_notes(
                    old(host)@.next_id,
                    old(host)@.deck_at(deck_id).name,
                    acc.map_values(|x: CsvRowView| flat_view(x)),
                )
                &&& final(host)@.cards == old(host)@.cards + batch_cards(
                    old(host)@.next_id,
                    deck_id,
                    acc.len(),
                )
                &&& final(host)@.next_id == old(host)@.next_id + 2 * acc.len()
                &&& forall|id: Seq<char>|
                    has_id(old(repo)@.puzzles, id) ==> #[trigger] puzzle_at(
                        final(repo)@.puzzles,
                        id,
                    ) == puzzle_at(old(repo)@.puzzles, id)
                &&& forall|id: Seq<char>|
                    !has_id(old(repo)@.puzzles, id) && #[trigger] has_id(
                        final(repo)@.puzzles,
                        id,
                    ) ==> exists|k: int|
                        0 <= k < acc.len() && (#[trigger] acc[k]).puzzle_id == id && puzzle_at(
                            final(repo)@.puzzles,
                            id,
                        ) == flat_view(acc[k])
                &&& r.unwrap().events@.len() >= 1
                &&& r.unwrap().events@.last().processed_count == rows@.len()
                &&& r.unwrap().events@.last().imported_count == acc.len()
                &&& r.unwrap().events@.last().skipped_count == rows@.len() - acc.len()
            },
            old(host)@.has_basic_notetype && old(host)@.has_deck(deck_id) && old(host)@.next_id + 2
                * rows@.len() <= i64::MAX ==> r is Ok,
    {
        if !host.has_basic_notetype {
            return Err(
                AnkiChessError::ConfigurationError(
                    String::from_str("base record template missing"),
                ),
            );
        }
        let deck_name = match host.get_deck_name(deck_id) {
            Ok(n) => n,
            Err(e) => {
                return Err(e);
            },
        };
        let ghost links0 = repo@.links;
        let ghost host0 = host@;
        let ghost rowvs = rows@.map_values(|x: CsvRow| x@);
        let existing = repo.get_existing_ids_in_deck(host, deck_id);
        let mut cands: Vec<ChessPuzzle> = Vec::new();
        let mut invalid: usize = 0;
        let mut i: usize = 0;
        proof {
            assert(cands@.map_values(|p: ChessPuzzle| p@) =~= valid_rows(
                rowvs.take(0),
            ).map_values(|r: CsvRowView| flat_view(r)));
        }
        while i < rows.len()
            invariant
                i <= rows@.len(),
                rowvs == rows@.map_values(|x: CsvRow| x@),
                invalid == i - valid_rows(rowvs.take(i as int)).len(),
                valid_rows(rowvs.take(i as int)).len() <= i,
                cands@.map_values(|p: ChessPuzzle| p@) == valid_rows(
                    rowvs.take(i as int),
                ).map_values(|r: CsvRowView| flat_view(r)),
                cands@.len() == valid_rows(rowvs.take(i as int)).len(),
            decreases rows@.len() - i,
        {
            proof {
                assert(rowvs.take(i + 1).drop_last() =~= rowvs.take(i as int));
                assert(rowvs.take(i + 1).last() == rowvs[i as int]);
            }
            let row = &rows[i];
            proof {
                assert(rowvs[i as int] == rows@[i as int]@);
            }
            if row.valid {
                let ghost prev = cands@.map_values(|p: ChessPuzzle| p@);
                cands.push(
                    ChessPuzzle {
                        puzzle_id: row.puzzle_id.clone(),
                        fen: row.fen.clone(),
                        moves: row.moves.clone(),
                        rating: 0,
                        rating_deviation: 0,
                        popularity: 0,
                        nb_plays: 0,
                        themes: String::from_str("imported_csv"),
                        game_url: String::new(),
                        opening_tags: String::new(),
                        comment: row.comment.clone(),
                        has_setup_move: false,
                    },
                );
                proof {
                    assert(cands@.map_values(|p: ChessPuzzle| p@) =~= prev.push(
                        flat_view(rowvs[i as int]),
                    ));
                    assert(valid_rows(rowvs.take(i + 1)).map_values(|r: CsvRowView| flat_view(r))
                        =~= valid_rows(rowvs.take(i as int)).map_values(
                        |r: CsvRowView| flat_view(r),
                    ).push(flat_view(rowvs[i as int])));
                }
            } else {
                invalid += 1;
            }
            i += 1;
        }
        proof {
            assert(rowvs.take(rowvs.len() as int) =~= rowvs);
            lemma_accepted_commute_flat(rowvs, existing@, links0, host0, deck_id);
        }
        let report = run_pipeline(
            repo,
            host,
            deck_id,
            deck_name.as_str(),
            cands,
            existing,
            invalid,
            invalid,
        )?;
        proof {
            let acc = accepted_flat(rowvs, links0, host0, deck_id);
            let accp = accepted_puzzles(
                valid_rows(rowvs).map_values(|r: CsvRowView| flat_view(r)),
                existing@,
            );
            assert(accp == acc.map_values(|r: CsvRowView| flat_view(r)));
            assert forall|id: Seq<char>| #[trigger] has_id(repo@.puzzles, id) <==> has_id(
                old(repo)@.puzzles,
                id,
            ) || exists|k: int| 0 <= k < acc.len() && (#[trigger] acc[k]).puzzle_id == id by {
                if exists|k: int| 0 <= k < accp.len() && (#[trigger] accp[k]).puzzle_id == id {
                    let k = choose|k: int|
                        0 <= k < accp.len() && (#[trigger] accp[k]).puzzle_id == id;
                    assert(acc[k].puzzle_id == id);
                }
                if exists|k: int| 0 <= k < acc.len() && (#[trigger] acc[k]).puzzle_id == id {
                    let k = choose|k: int|
                        0 <= k < acc.len() && (#[trigger] acc[k]).puzzle_id == id;
                    assert(accp[k].puzzle_id == id);
                }
            }
            assert forall|k: int| 0 <= k < acc.len() implies crate::repo::linked(
                repo@.links,
                (#[trigger] acc[k]).puzzle_id,
            ) by {
                assert(has_link(repo@.links, pipeline_nid(host0.next_id, k)));
                assert(accp[k].puzzle_id == acc[k].puzzle_id);
                let w = crate::repo::link_idx(repo@.links, pipeline_nid(host0.next_id, k));
                assert(repo@.links[w].1 == acc[k].puzzle_id);
            }
            assert forall|id: Seq<char>|
                !has_id(old(repo)@.puzzles, id) && #[trigger] has_id(
                repo@.puzzles,
                id,
            ) implies exists|k: int|
                0 <= k < acc.len() && (#[trigger] acc[k]).puzzle_id == id && puzzle_at(
                repo@.puzzles,
                id,
            ) == flat_view(acc[k]) by {
                let k = choose|k: int|
                    0 <= k < accp.len() && (#[trigger] accp[k]).puzzle_id == id && puzzle_at(
                        repo@.puzzles,
                        id,
                    ) == accp[k];
                assert(acc[k].puzzle_id == id);
                assert(accp[k] == flat_view(acc[k]));
            }
        }
        Ok(report)
    }

    /// Imports user-supplied delimited text: reads it record by record,
    /// resolves ids, then runs the flat-file pipeline. A record the csv
    /// crate refuses is skipped and counted, exactly like a row missing its
    /// position or solution — a single bad row is never fatal.
    pub fn import_from_csv(
        repo: &mut PuzzleRepository,
        host: &mut HostCollection,
        payload: CsvImportPayload,
    ) -> (r: Result<ImportRunReport, AnkiChessError>)
        requires
            old(repo)@.wf(),
            old(host)@.wf(),
        ensures
            final(repo)@.wf(),
            final(host)@.wf(),
            !old(host)@.has_basic_notetype ==> r is Err && r.unwrap_err() is ConfigurationError
                && final(repo)@ == old(repo)@ && final(host)@ == old(host)@,
            old(host)@.has_basic_notetype && !old(host)@.has_deck(payload.deck_id) ==> r is Err
                && r.unwrap_err() is NotFound && final(repo)@ == old(repo)@ && final(host)@ == old(
                host,
            )@,
            r is Err ==> r.unwrap_err() is ConfigurationError || r.unwrap_err() is NotFound
                || r.unwrap_err() is DatabaseError,
            old(host)@.has_basic_notetype && old(host)@.has_deck(payload.deck_id) && old(
                host,
            )@.next_id + 2 * crate::codec::csv_records_of(payload.csv_content@, false).len()
                <= i64::MAX ==> r is Ok,
            r is Ok ==> {
                let recs = crate::codec::csv_records_of(payload.csv_content@, false);
                let rep = r.unwrap();
                &&& rep.processed == recs.len()
                &&& rep.imported + rep.skipped == rep.processed
                &&& final(host)@.notes.len() == old(host)@.notes.len() + rep.imported
                &&& final(host)@.cards.len() == old(host)@.cards.len() + rep.imported
                &&& final(host)@.next_id == old(host)@.next_id + 2 * rep.imported
                &&& rep.events@.len() >= 1
                &&& rep.events@.last().processed_count == rep.processed
                &&& rep.events@.last().imported_count == rep.imported
                &&& rep.events@.last().skipped_count == rep.skipped
                &&& forall|id: Seq<char>|
                    has_id(old(repo)@.puzzles, id) ==> #[trigger] puzzle_at(
                        final(repo)@.puzzles,
                        id,
                    ) == puzzle_at(old(repo)@.puzzles, id)
                &&& forall|id: Seq<char>|
                    !has_id(old(repo)@.puzzles, id) && #[trigger] has_id(
                        final(repo)@.puzzles,
                        id,
                    ) ==> {
                        let p = puzzle_at(final(repo)@.puzzles, id);
                        &&& p.puzzle_id == id
                        &&& p.rating == 0
                        &&& p.rating_deviation == 0
                        &&& p.popularity == 0
                        &&& p.nb_plays == 0
                        &&& p.themes == "imported_csv"@
                        &&& p.game_url.len() == 0
                        &&& p.opening_tags.len() == 0
                        &&& !p.has_setup_move
                        &&& exists|k: int|
                            0 <= k < recs.len() && opt_row_valid(#[trigger] recs[k]) && p.fen
                                == spec_trim(recs[k].unwrap()[0]) && p.moves == spec_trim(
                                recs[k].unwrap()[1],
                            ) && p.comment == row_comment(recs[k].unwrap())
                    }
            },
    {
        if !host.has_basic_notetype {
            return Err(
                AnkiChessError::ConfigurationError(
                    String::from_str("base record template missing"),
                ),
            );
        }
        if !host.deck_exists(payload.deck_id) {
            return Err(AnkiChessError::NotFound(String::from_str("deck not found")));
        }
        let raw = crate::codec::csv_parse_records(payload.csv_content.as_str(), false);
        let resolved = resolve_csv_rows(&raw);
        let ghost recs = crate::codec::csv_records_of(payload.csv_content@, false);
        let ghost rowvs = resolved@.map_values(|x: CsvRow| x@);
        let ghost repo_before = repo@;
        let ghost host_before = host@;
        let report = Self::import_csv_rows(repo, host, payload.deck_id, resolved)?;
        proof {
            let acc = accepted_flat(rowvs, repo_before.links, host_before, payload.deck_id);
            lemma_accepted_flat_subset(rowvs, repo_before.links, host_before, payload.deck_id);
            assert forall|id: Seq<char>|
                !has_id(repo_before.puzzles, id) && #[trigger] has_id(
                repo@.puzzles,
                id,
            ) implies {
                let p = puzzle_at(repo@.puzzles, id);
                &&& p.puzzle_id == id
                &&& p.rating == 0
                &&& p.rating_deviation == 0
                &&& p.popularity == 0
                &&& p.nb_plays == 0
                &&& p.themes == "imported_csv"@
                &&& p.game_url.len() == 0
                &&& p.opening_tags.len() == 0
                &&& !p.has_setup_move
                &&& exists|k: int|
                    0 <= k < recs.len() && opt_row_valid(#[trigger] recs[k]) && p.fen == spec_trim(
                        recs[k].unwrap()[0],
                    ) && p.moves == spec_trim(recs[k].unwrap()[1]) && p.comment == row_comment(
                        recs[k].unwrap(),
                    )
            } by {
                let j = choose|j: int|
                    0 <= j < acc.len() && (#[trigger] acc[j]).puzzle_id == id && puzzle_at(
                        repo@.puzzles,
                        id,
                    ) == flat_view(acc[j]);
                let k = choose|k: int| 0 <= k < rowvs.len() && rowvs[k] == #[trigger] acc[j];
                assert(rowvs[k] == resolved@[k]@);
                assert(opt_row_valid(recs[k]));
            }
        }
        Ok(report)
    }
}

} // verus!
