//! The compute core of the bulk-dataset acquirer: validates and indexes the
//! decompressed delimited dataset into the staging store inside one logical
//! transaction, reports the store's status, and decides whether the upstream
//! dataset has grown beyond the local mirror.

use vstd::prelude::*;

use crate::error::AnkiChessError;
use crate::lichessdb::DbStatus;
use crate::puzzle::{PuzzleRecord, RecordView};
use crate::staging::{upsert_all, StagingStore};
use crate::text::spec_parse_int;

verus! {

/// The string parses as a `u32`.
pub open spec fn parses_u32(s: Seq<char>) -> bool {
    &&& spec_parse_int(s) is Some
    &&& 0 <= spec_parse_int(s).unwrap() <= u32::MAX
}

/// The string parses as an `i32`.
pub open spec fn parses_i32n(s: Seq<char>) -> bool {
    &&& spec_parse_int(s) is Some
    &&& i32::MIN <= spec_parse_int(s).unwrap() <= i32::MAX
}

/// A dataset record is valid when it carries its ten columns, the id,
/// position and solution are non-empty, and the four numeric columns parse.
pub open spec fn dataset_row_valid(row: Seq<Seq<char>>) -> bool {
    &&& row.len() >= 10
    &&& row[0].len() > 0
    &&& row[1].len() > 0
    &&& row[2].len() > 0
    &&& parses_u32(row[3])
    &&& parses_i32n(row[4])
    &&& parses_i32n(row[5])
    &&& parses_i32n(row[6])
}

/// The staging row a valid dataset record becomes; an empty category-tag
/// column is stored as absent.
pub open spec fn dataset_record(row: Seq<Seq<char>>) -> RecordView
    recommends
        dataset_row_valid(row),
{
    RecordView {
        puzzle_id: row[0],
        fen: row[1],
        moves: row[2],
        rating: spec_parse_int(row[3]).unwrap(),
        rating_deviation: spec_parse_int(row[4]).unwrap(),
        popularity: spec_parse_int(row[5]).unwrap(),
        nb_plays: spec_parse_int(row[6]).unwrap(),
        themes: row[7],
        game_url: row[8],
        opening_tags: if row[9].len() == 0 {
            None
        } else {
            Some(row[9])
        },
    }
}

/// A per-record parse outcome is usable when the csv crate read the record
/// and its fields validate.
pub open spec fn dataset_rec_valid(row: Option<Seq<Seq<char>>>) -> bool {
    row is Some && dataset_row_valid(row.unwrap())
}

/// The valid records of the parsed dataset, in order: records the csv crate
/// refused and records failing field validation contribute nothing.
pub open spec fn valid_dataset_records(rows: Seq<Option<Seq<Seq<char>>>>) -> Seq<RecordView>
    decreases rows.len(),
{
    if rows.len() == 0 {
        Seq::empty()
    } else {
        let pre = valid_dataset_records(rows.drop_last());
        if dataset_rec_valid(rows.last()) {
            pre.push(dataset_record(rows.last().unwrap()))
        } else {
            pre
        }
    }
}

/// The first capture group of the first match of the pattern in the text:
/// a function of pattern and text alone.
pub uninterp spec fn regex_capture_of(pattern: Seq<char>, text: Seq<char>) -> Option<Seq<char>>;

/// Relies on regex::Regex::new and Regex::captures: the text of the first
/// capture group of the first match. Returns `None` when the pattern is
/// invalid or nothing matches; deterministic in pattern and text.
#[verifier::external_body]
fn regex_capture(pattern: &str, text: &str) -> (r: Option<String>)
    ensures
        r is Some <==> regex_capture_of(pattern@, text@) is Some,
        r is Some ==> r.unwrap()@ == regex_capture_of(pattern@, text@).unwrap(),
{
    regex::Regex::new(pattern).ok().and_then(|re| re.captures(text)).and_then(|c| c.get(1)).map(
        |m| m.as_str().to_string(),
    )
}

/// The digits of the text with every comma removed.
pub open spec fn strip_commas(s: Seq<char>) -> Seq<char>
    decreases s.len(),
{
    if s.len() == 0 {
        Seq::empty()
    } else {
        let pre = strip_commas(s.drop_last());
        if s.last() == ',' {
            pre
        } else {
            pre.push(s.last())
        }
    }
}

/// Parses a human-formatted count such as a comma-grouped number.
pub fn parse_count(s: &str) -> (r: Option<i64>)
    ensures
        r is Some ==> spec_parse_int(strip_commas(s@)) == Some(r.unwrap() as int),
        r is None ==> spec_parse_int(strip_commas(s@)) is None || spec_parse_int(
            strip_commas(s@),
        ).unwrap() > i64::MAX || spec_parse_int(strip_commas(s@)).unwrap() < i64::MIN,
{
    let n = s.unicode_len();
    let mut out = String::new();
    let mut i: usize = 0;
    proof {
        assert(out@ =~= strip_commas(s@.take(0)));
    }
    while i < n
        invariant
            i <= n,
            n == s@.len(),
            out@ == strip_commas(s@.take(i as int)),
        decreases n - i,
    {
        proof {
            assert(s@.take(i + 1).drop_last() =~= s@.take(i as int));
            assert(s@.take(i + 1).last() == s@[i as int]);
        }
        let c = s.get_char(i);
        if c != ',' {
            out.push(c);
        }
        i += 1;
    }
    proof {
        assert(s@.take(n as int) =~= s@);
    }
    crate::text::parse_i64(out.as_str())
}

/// What the update decision returns for a page body and a local row count:
/// the first pattern's count decides when it reads and parses; a first-
/// pattern count that does not parse as a signed machine count is
/// `InvalidInput`; with no first match, a positive fallback count decides;
/// anything else is `NotFound`.
pub open spec fn update_check_spec(
    body: Seq<char>,
    local_count: i64,
    r: Result<bool, AnkiChessError>,
) -> bool {
    let c1 = regex_capture_of("([\\d,]+)[\\s\\S]{1,50}chess puzzles"@, body);
    let c2 = regex_capture_of("([\\d,]{5,12})\\s+puzzles"@, body);
    &&& (c1 is Some && spec_parse_int(strip_commas(c1.unwrap())) is Some && i64::MIN
        <= spec_parse_int(strip_commas(c1.unwrap())).unwrap() <= i64::MAX ==> r == Ok::<
        bool,
        AnkiChessError,
    >(spec_parse_int(strip_commas(c1.unwrap())).unwrap() > local_count))
    &&& (c1 is Some && !(spec_parse_int(strip_commas(c1.unwrap())) is Some && i64::MIN
        <= spec_parse_int(strip_commas(c1.unwrap())).unwrap() <= i64::MAX) ==> r is Err
        && r.unwrap_err() is InvalidInput)
    &&& (c1 is None && c2 is Some && spec_parse_int(strip_commas(c2.unwrap())) is Some && 0
        < spec_parse_int(strip_commas(c2.unwrap())).unwrap() <= i64::MAX ==> r == Ok::<
        bool,
        AnkiChessError,
    >(spec_parse_int(strip_commas(c2.unwrap())).unwrap() > local_count))
    &&& (c1 is None && c2 is Some && !(spec_parse_int(strip_commas(c2.unwrap())) is Some && 0
        < spec_parse_int(strip_commas(c2.unwrap())).unwrap() <= i64::MAX) ==> r is Err
        && r.unwrap_err() is NotFound)
    &&& (c1 is None && c2 is None ==> r is Err && r.unwrap_err() is NotFound)
}

/// The dataset acquirer's compute core and status queries.
pub struct LichessdbService;

impl LichessdbService {
    /// Indexes the decompressed dataset text into the staging store: the
    /// text is read record by record, each record is validated, valid rows
    /// are upserted by natural key, and records that fail to read or to
    /// validate are skipped and never fatal. The refresh timestamp is
    /// written last — one logical transaction over the whole load. Returns
    /// how many rows were indexed.
    pub fn download_and_index(
        store: &mut StagingStore,
        dataset_text: &str,
        now_millis: u64,
    ) -> (r: Result<u64, AnkiChessError>)
        requires
            crate::staging::records_ok(old(store)@.puzzles),
        ensures
            crate::staging::records_ok(final(store)@.puzzles),
            r is Ok,
            ({
                let recs = valid_dataset_records(
                    crate::codec::csv_records_of(dataset_text@, true),
                );
                &&& final(store)@.puzzles == upsert_all(old(store)@.puzzles, recs)
                &&& final(store)@.last_updated == Some(now_millis)
                &&& r.unwrap() == recs.len()
            }),
    {
        let rows = crate::codec::csv_parse_records(dataset_text, true);
        let ghost rowvs = crate::codec::csv_records_of(dataset_text@, true);
        let ghost s0 = store@.puzzles;
        let mut count: usize = 0;
        let mut i: usize = 0;
        proof {
            assert(valid_dataset_records(rowvs.take(0)) =~= Seq::<RecordView>::empty());
        }
        while i < rows.len()
            invariant
                i <= rows@.len(),
                rows.deep_view() == rowvs,
                rows.deep_view().len() == rows@.len(),
                crate::staging::records_ok(s0),
                crate::staging::records_ok(store@.puzzles),
                store@.puzzles == upsert_all(s0, valid_dataset_records(rowvs.take(i as int))),
                store@.last_updated == old(store)@.last_updated,
                count == valid_dataset_records(rowvs.take(i as int)).len(),
                count <= i,
            decreases rows@.len() - i,
        {
            proof {
                assert(rowvs.take(i + 1).drop_last() =~= rowvs.take(i as int));
                assert(rowvs.take(i + 1).last() == rowvs[i as int]);
                assert(rows.deep_view()[i as int] == rows@[i as int].deep_view());
            }
            match &rows[i] {
                Some(row) => {
                    proof {
                        assert(rowvs[i as int] is Some && rowvs[i as int].unwrap()
                            == row.deep_view());
                        assert(forall|j: int|
                            0 <= j < row@.len() ==> row.deep_view()[j] == (#[trigger] row@[j])@);
                    }
                    match Self::validate_row(row) {
                        Some(rec) => {
                            proof {
                                assert(dataset_rec_valid(rowvs[i as int]));
                                assert(rec@ == dataset_record(rowvs[i as int].unwrap()));
                                assert(valid_dataset_records(rowvs.take(i + 1))
                                    == valid_dataset_records(rowvs.take(i as int)).push(rec@));
                                let vr = valid_dataset_records(rowvs.take(i + 1));
                                assert(vr.drop_last() =~= valid_dataset_records(
                                    rowvs.take(i as int),
                                ));
                                assert(vr.last() == rec@);
                                assert(upsert_all(s0, vr) == crate::staging::upsert_rec(
                                    upsert_all(s0, vr.drop_last()),
                                    rec@,
                                ));
                            }
                            store.upsert(&rec);
                            count += 1;
                        },
                        None => {
                            proof {
                                assert(!dataset_rec_valid(rowvs[i as int]));
                            }
                        },
                    }
                },
                None => {
                    proof {
                        assert(!dataset_rec_valid(rowvs[i as int]));
                    }
                },
            }
            i += 1;
        }
        proof {
            assert(rowvs.take(rowvs.len() as int) =~= rowvs);
        }
        store.set_last_updated(now_millis);
        Ok(count as u64)
    }

    /// Validates one parsed dataset record and builds its staging row.
    fn validate_row(row: &Vec<String>) -> (r: Option<PuzzleRecord>)
        ensures
            r is Some <==> dataset_row_valid(row.deep_view()),
            r is Some ==> r.unwrap()@ == dataset_record(row.deep_view()),
    {
        proof {
            assert(forall|j: int|
                0 <= j < row@.len() ==> row.deep_view()[j] == (#[trigger] row@[j])@);
        }
        if row.len() < 10 {
            return None;
        }
        if row[0].as_str().unicode_len() == 0 || row[1].as_str().unicode_len() == 0
            || row[2].as_str().unicode_len() == 0 {
            return None;
        }
        let rating = match crate::text::parse_i64(row[3].as_str()) {
            Some(v) => {
                if 0 <= v && v <= u32::MAX as i64 {
                    v as u32
                } else {
                    return None;
                }
            },
            None => {
                return None;
            },
        };
        let rating_deviation = match Self::parse_i32_col(row[4].as_str()) {
            Some(v) => v,
            None => {
                return None;
            },
        };
        let popularity = match Self::parse_i32_col(row[5].as_str()) {
            Some(v) => v,
            None => {
                return None;
            },
        };
        let nb_plays = match Self::parse_i32_col(row[6].as_str()) {
            Some(v) => v,
            None => {
                return None;
            },
        };
        let opening_tags = if row[9].as_str().unicode_len() == 0 {
            None
        } else {
            Some(row[9].clone())
        };
        Some(
            PuzzleRecord {
                puzzle_id: row[0].clone(),
                fen: row[1].clone(),
                moves: row[2].clone(),
                rating,
                rating_deviation,
                popularity,
                nb_plays,
                themes: row[7].clone(),
                game_url: row[8].clone(),
                opening_tags,
            },
        )
    }

    /// Parses one numeric dataset column as an `i32`.
    fn parse_i32_col(s: &str) -> (r: Option<i32>)
        ensures
            r is Some <==> parses_i32n(s@),
            r is Some ==> r.unwrap() as int == spec_parse_int(s@).unwrap(),
    {
        match crate::text::parse_i64(s) {
            Some(v) => {
                if -2147483648i64 <= v && v <= 2147483647i64 {
                    Some(v as i32)
                } else {
                    None
                }
            },
            None => None,
        }
    }

    /// The staging store's status: its refresh timestamp and row count.
    pub fn get_status(store: &StagingStore) -> (r: DbStatus)
        ensures
            r.db_exists,
            r.last_updated == store@.last_updated,
            store@.puzzles.len() <= i64::MAX ==> r.puzzle_count == store@.puzzles.len(),
    {
        let n = store.puzzles.len() as u64;
        let puzzle_count: i64 = if n > i64::MAX as u64 {
            i64::MAX
        } else {
            n as i64
        };
        DbStatus { db_exists: true, last_updated: store.last_updated, puzzle_count }
    }

    /// Whether the upstream dataset holds more rows than the local mirror:
    /// reads the published row count out of the upstream index page and
    /// compares. `NotFound` when no count can be read out of the page.
    pub fn check_for_update(page_body: &str, local_count: i64) -> (r: Result<
        bool,
        AnkiChessError,
    >)
        ensures
            update_check_spec(page_body@, local_count, r),
    {
        match regex_capture("([\\d,]+)[\\s\\S]{1,50}chess puzzles", page_body) {
            Some(count_str) => {
                match parse_count(count_str.as_str()) {
                    Some(online_count) => {
                        return Ok(online_count > local_count);
                    },
                    None => {
                        return Err(
                            AnkiChessError::InvalidInput(
                                String::from_str("failed to parse the published count"),
                            ),
                        );
                    },
                }
            },
            None => {},
        }
        match regex_capture("([\\d,]{5,12})\\s+puzzles", page_body) {
            Some(count_str) => {
                let online_count = match parse_count(count_str.as_str()) {
                    Some(v) => v,
                    None => 0,
                };
                if online_count > 0 {
                    return Ok(online_count > local_count);
                }
            },
            None => {},
        }
        Err(
            AnkiChessError::NotFound(
                String::from_str("no published puzzle count could be read out of the page"),
            ),
        )
    }

    /// The update decision with the store's status taken into account: a
    /// store that does not exist yet always wants the dataset; otherwise the
    /// published count decides against the store's row count.
    pub fn check_for_update_status(status: &DbStatus, page_body: &str) -> (r: Result<
        bool,
        AnkiChessError,
    >)
        ensures
            !status.db_exists ==> r == Ok::<bool, AnkiChessError>(true),
            status.db_exists ==> update_check_spec(page_body@, status.puzzle_count, r),
    {
        if !status.db_exists {
            return Ok(true);
        }
        Self::check_for_update(page_body, status.puzzle_count)
    }
}

} // verus!
