//! Note-level operations: single-item creation, the note update path, card
//! detail lookup, note deletion, study-card assembly, and the browse query
//! engine (filter, order, count and paginate).

use vstd::prelude::*;

use crate::card::{
    AddNotePayload, BrowseCardInfo, BrowseCardView, BrowseOptions, PaginatedBrowseResult,
    StudyCard, UpdateNotePayload,
};
use crate::error::AnkiChessError;
use crate::filter::{spec_page_bounds, spec_parse_filter, BrowseFilter, FilterView};
use crate::host::{HostCard, HostCollection};
use crate::puzzle::{ChessPuzzle, PuzzleView};
use crate::repo::{has_id, has_link, link_of, puzzle_at, PuzzleRepository};
use crate::text::{contains_ci_spec, spec_split_ws, spec_trim};

verus! {

/// The text of an optional string option, an absent one read as empty.
pub open spec fn opt_str(o: Option<String>) -> Seq<char> {
    match o {
        Some(t) => t@,
        None => Seq::empty(),
    }
}

/// The browse row of a card joined with its linked puzzle.
pub open spec fn browse_view(c: HostCard, p: PuzzleView) -> BrowseCardView {
    BrowseCardView {
        card_id: c.id as int,
        note_id: c.nid as int,
        puzzle_id: p.puzzle_id,
        fen: p.fen,
        solution: p.moves,
        rating: p.rating,
        rating_deviation: p.rating_deviation,
        popularity: p.popularity,
        nb_plays: p.nb_plays,
        themes: p.themes,
        game_url: p.game_url,
        opening_tags: p.opening_tags,
        comment: p.comment,
        has_setup_move: p.has_setup_move,
    }
}

/// The join of the scope's cards with the links and puzzle rows, in card
/// order: one browse row per card in the scope whose note is linked.
pub open spec fn join_rows(
    cards: Seq<HostCard>,
    links: Seq<(i64, Seq<char>)>,
    puzzles: Seq<PuzzleView>,
    deck_id: i64,
) -> Seq<BrowseCardView>
    decreases cards.len(),
{
    if cards.len() == 0 {
        Seq::empty()
    } else {
        let pre = join_rows(cards.drop_last(), links, puzzles, deck_id);
        let c = cards.last();
        if c.did == deck_id && has_link(links, c.nid) {
            pre.push(browse_view(c, puzzle_at(puzzles, link_of(links, c.nid))))
        } else {
            pre
        }
    }
}

/// Whether a browse row satisfies the parsed filter predicate. The text
/// fallback searches id, tags, note and category tags, case-insensitively.
pub open spec fn matches_filter(f: FilterView, row: BrowseCardView) -> bool {
    match f {
        FilterView::All => true,
        FilterView::Range(a, b) => a <= row.rating && row.rating <= b,
        FilterView::Gt(n) => row.rating > n,
        FilterView::Lt(n) => row.rating < n,
        FilterView::Text(t) => contains_ci_spec(row.puzzle_id, t) || contains_ci_spec(
            row.themes,
            t,
        ) || contains_ci_spec(row.comment, t) || contains_ci_spec(row.opening_tags, t),
    }
}

/// The browse rows passing the filter, in join order.
pub open spec fn filtered_rows(rows: Seq<BrowseCardView>, f: FilterView) -> Seq<BrowseCardView>
    decreases rows.len(),
{
    if rows.len() == 0 {
        Seq::empty()
    } else {
        let pre = filtered_rows(rows.drop_last(), f);
        if matches_filter(f, rows.last()) {
            pre.push(rows.last())
        } else {
            pre
        }
    }
}

/// The browse sort orders; an unrecognized name falls back to the default,
/// most-recently-created card first.
pub enum SortOrder {
    Default,
    RatingDesc,
    RatingAsc,
    PopularityDesc,
}

pub open spec fn spec_parse_sort(s: Seq<char>) -> SortOrder {
    if s == "rating-desc"@ {
        SortOrder::RatingDesc
    } else if s == "rating-asc"@ {
        SortOrder::RatingAsc
    } else if s == "popularity"@ {
        SortOrder::PopularityDesc
    } else {
        SortOrder::Default
    }
}

pub fn parse_sort(s: &str) -> (r: SortOrder)
    ensures
        r == spec_parse_sort(s@),
{
    if crate::text::str_eq(s, "rating-desc") {
        SortOrder::RatingDesc
    } else if crate::text::str_eq(s, "rating-asc") {
        SortOrder::RatingAsc
    } else if crate::text::str_eq(s, "popularity") {
        SortOrder::PopularityDesc
    } else {
        SortOrder::Default
    }
}

/// The ordering each sort applies: a total preorder on browse rows.
pub open spec fn row_le(ord: SortOrder, a: BrowseCardView, b: BrowseCardView) -> bool {
    match ord {
        SortOrder::Default => a.card_id >= b.card_id,
        SortOrder::RatingDesc => a.rating >= b.rating,
        SortOrder::RatingAsc => a.rating <= b.rating,
        SortOrder::PopularityDesc => a.popularity >= b.popularity,
    }
}

fn row_le_exec(ord: &SortOrder, a: &BrowseCardInfo, b: &BrowseCardInfo) -> (r: bool)
    ensures
        r == row_le(*ord, a@, b@),
{
    match ord {
        SortOrder::Default => a.card_id >= b.card_id,
        SortOrder::RatingDesc => a.rating >= b.rating,
        SortOrder::RatingAsc => a.rating <= b.rating,
        SortOrder::PopularityDesc => a.popularity >= b.popularity,
    }
}

/// Where a row goes in an ordered run: after every row it does not precede.
pub open spec fn ins_pos(s: Seq<BrowseCardView>, ord: SortOrder, x: BrowseCardView) -> int
    decreases s.len(),
{
    if s.len() == 0 {
        0
    } else if row_le(ord, s[0], x) {
        1 + ins_pos(s.drop_first(), ord, x)
    } else {
        0
    }
}

/// The stable insertion sort of the browse rows under the given order.
pub open spec fn ins_sorted(s: Seq<BrowseCardView>, ord: SortOrder) -> Seq<BrowseCardView>
    decreases s.len(),
{
    if s.len() == 0 {
        Seq::empty()
    } else {
        let pre = ins_sorted(s.drop_last(), ord);
        pre.insert(ins_pos(pre, ord, s.last()), s.last())
    }
}

/// The insertion position is the first place whose row the new one precedes.
pub proof fn lemma_ins_pos(s: Seq<BrowseCardView>, ord: SortOrder, x: BrowseCardView)
    ensures
        0 <= ins_pos(s, ord, x) <= s.len(),
        forall|k: int| 0 <= k < ins_pos(s, ord, x) ==> row_le(ord, #[trigger] s[k], x),
        ins_pos(s, ord, x) < s.len() ==> !row_le(ord, s[ins_pos(s, ord, x)], x),
    decreases s.len(),
{
    if s.len() > 0 && row_le(ord, s[0], x) {
        lemma_ins_pos(s.drop_first(), ord, x);
        let p = ins_pos(s, ord, x);
        assert(forall|k: int| 0 <= k < s.drop_first().len() ==> s.drop_first()[k] == s[k + 1]);
        assert forall|k: int| 0 <= k < p implies row_le(ord, #[trigger] s[k], x) by {
            if k > 0 {
                assert(s.drop_first()[k - 1] == s[k]);
            }
        }
    }
}

/// The sort law: the sorted rows are ordered and are a permutation of the
/// input rows.
pub proof fn lemma_ins_sorted(s: Seq<BrowseCardView>, ord: SortOrder)
    ensures
        ins_sorted(s, ord).len() == s.len(),
        forall|i: int, j: int|
            0 <= i < j < s.len() ==> row_le(
                ord,
                #[trigger] ins_sorted(s, ord)[i],
                #[trigger] ins_sorted(s, ord)[j],
            ),
        ins_sorted(s, ord).to_multiset() == s.to_multiset(),
    decreases s.len(),
{
    broadcast use vstd::seq_lib::group_to_multiset_ensures;

    if s.len() > 0 {
        lemma_ins_sorted(s.drop_last(), ord);
        let pre = ins_sorted(s.drop_last(), ord);
        let x = s.last();
        let p = ins_pos(pre, ord, x);
        lemma_ins_pos(pre, ord, x);
        let whole = ins_sorted(s, ord);
        assert(whole == pre.insert(p, x));
        assert(forall|k: int| 0 <= k < p ==> whole[k] == pre[k]);
        assert(whole[p] == x);
        assert(forall|k: int| p < k < whole.len() ==> whole[k] == pre[k - 1]);
        assert forall|i: int, j: int| 0 <= i < j < whole.len() implies row_le(
            ord,
            #[trigger] whole[i],
            #[trigger] whole[j],
        ) by {
            if j < p {
            } else if j == p {
                assert(row_le(ord, pre[i], x));
            } else if i == p {
                // x precedes the row it displaced, which precedes the rest
                assert(!row_le(ord, pre[p], x));
                assert(row_le(ord, x, pre[p])) by {
                    match ord {
                        SortOrder::Default => {},
                        SortOrder::RatingDesc => {},
                        SortOrder::RatingAsc => {},
                        SortOrder::PopularityDesc => {},
                    }
                }
                if j - 1 > p {
                    assert(row_le(ord, pre[p], pre[j - 1]));
                }
            } else if i < p {
                assert(row_le(ord, pre[i], pre[j - 1]));
            } else {
                assert(row_le(ord, pre[i - 1], pre[j - 1]));
            }
        }
        // the inserted sequence is the permutation the multiset sees
        assert(whole =~= pre.take(p).push(x) + pre.skip(p));
        vstd::seq_lib::lemma_multiset_commutative(pre.take(p).push(x), pre.skip(p));
        assert(pre.take(p).push(x).to_multiset() =~= pre.take(p).to_multiset().insert(x));
        assert(pre =~= pre.take(p) + pre.skip(p));
        vstd::seq_lib::lemma_multiset_commutative(pre.take(p), pre.skip(p));
        assert(whole.to_multiset() =~= pre.to_multiset().insert(x));
        assert(s.drop_last().push(x) =~= s);
        assert(s.to_multiset() =~= s.drop_last().to_multiset().insert(x));
    }
}

/// Sorts browse rows by insertion, matching `ins_sorted` exactly.
fn sort_rows(rows: Vec<BrowseCardInfo>, ord: &SortOrder) -> (r: Vec<BrowseCardInfo>)
    ensures
        r@.map_values(|c: BrowseCardInfo| c@) == ins_sorted(
            rows@.map_values(|c: BrowseCardInfo| c@),
            *ord,
        ),
{
    let ghost rowsv = rows@.map_values(|c: BrowseCardInfo| c@);
    let mut out: Vec<BrowseCardInfo> = Vec::new();
    let mut i: usize = 0;
    proof {
        assert(out@.map_values(|c: BrowseCardInfo| c@) =~= ins_sorted(rowsv.take(0), *ord));
    }
    while i < rows.len()
        invariant
            i <= rows@.len(),
            rowsv == rows@.map_values(|c: BrowseCardInfo| c@),
            out@.map_values(|c: BrowseCardInfo| c@) == ins_sorted(rowsv.take(i as int), *ord),
            out@.len() == i,
        decreases rows@.len() - i,
    {
        let ghost pre = out@.map_values(|c: BrowseCardInfo| c@);
        let x = rows[i].duplicate();
        let ghost xv = rowsv[i as int];
        proof {
            lemma_ins_pos(pre, *ord, xv);
        }
        let mut p: usize = 0;
        while p < out.len() && row_le_exec(ord, &out[p], &x)
            invariant
                p <= out@.len(),
                out@.len() == i,
                pre == out@.map_values(|c: BrowseCardInfo| c@),
                xv == x@,
                forall|k: int| 0 <= k < p ==> row_le(*ord, #[trigger] pre[k], xv),
            decreases out@.len() - p,
        {
            proof {
                assert(pre[p as int] == out@[p as int]@);
            }
            p += 1;
        }
        proof {
            let sp = ins_pos(pre, *ord, xv);
            if p < out@.len() {
                assert(pre[p as int] == out@[p as int]@);
                assert(!row_le(*ord, pre[p as int], xv));
            }
            if (p as int) < sp {
                assert(!row_le(*ord, pre[p as int], xv));
                assert(row_le(*ord, pre[p as int], xv));
            }
            if (p as int) > sp {
                assert(row_le(*ord, pre[sp], xv));
                assert(!row_le(*ord, pre[sp], xv));
            }
        }
        out.insert(p, x);
        proof {
            assert(out@.map_values(|c: BrowseCardInfo| c@) =~= pre.insert(p as int, xv));
            assert(rowsv.take(i + 1).drop_last() =~= rowsv.take(i as int));
            assert(rowsv.take(i + 1).last() == rowsv[i as int]);
        }
        i += 1;
    }
    proof {
        assert(rowsv.take(rowsv.len() as int) =~= rowsv);
    }
    out
}

/// The catalog row a single-item creation payload stands for, under a given
/// id: the payload's position, solution and note, defaults for the rest, and
/// no setup move.
pub open spec fn payload_puzzle_view(payload: AddNotePayload, id: Seq<char>) -> PuzzleView {
    PuzzleView {
        puzzle_id: id,
        fen: payload.fen@,
        moves: payload.solution@,
        rating: match payload.rating {
            Some(r) => r as int,
            None => 0,
        },
        rating_deviation: 0,
        popularity: 0,
        nb_plays: 0,
        themes: match payload.themes {
            Some(t) => t@,
            None => "manual"@,
        },
        game_url: opt_str(payload.game_url),
        opening_tags: opt_str(payload.opening_tags),
        comment: opt_str(payload.comment),
        has_setup_move: false,
    }
}

/// The note-level service: creation, update, detail lookup, deletion, study
/// assembly and browsing.
pub struct NoteService;

impl NoteService {
    /// The catalog row a single-item creation payload becomes, under the
    /// given freshly generated id.
    pub fn puzzle_from_payload(payload: &AddNotePayload, puzzle_id: String) -> (p: ChessPuzzle)
        ensures
            p@ == payload_puzzle_view(*payload, puzzle_id@),
    {
        ChessPuzzle {
            puzzle_id,
            fen: payload.fen.clone(),
            moves: payload.solution.clone(),
            rating: match payload.rating {
                Some(r) => r,
                None => 0,
            },
            rating_deviation: 0,
            popularity: 0,
            nb_plays: 0,
            themes: match &payload.themes {
                Some(t) => t.clone(),
                None => String::from_str("manual"),
            },
            game_url: match &payload.game_url {
                Some(t) => t.clone(),
                None => String::new(),
            },
            opening_tags: match &payload.opening_tags {
                Some(t) => t.clone(),
                None => String::new(),
            },
            comment: match &payload.comment {
                Some(t) => t.clone(),
                None => String::new(),
            },
            has_setup_move: false,
        }
    }

    /// The single-item creation path under a caller-chosen id: saves the
    /// catalog row, creates the host record, and links them. Fails with
    /// `NotFound` when the scope or the base template is missing, and with
    /// `ConstraintError` when the host record id is somehow already linked.
    pub fn create_note_with_id(
        repo: &mut PuzzleRepository,
        host: &mut HostCollection,
        payload: &AddNotePayload,
        puzzle_id: String,
    ) -> (r: Result<i64, AnkiChessError>)
        requires
            old(repo)@.wf(),
            old(host)@.wf(),
        ensures
            final(repo)@.wf(),
            final(host)@.wf(),
            !old(host)@.has_deck(payload.deck_id) ==> r is Err && r.unwrap_err() is NotFound
                && final(repo)@ == old(repo)@ && final(host)@ == old(host)@,
            old(host)@.has_deck(payload.deck_id) && old(host)@.has_basic_notetype && old(
                host,
            )@.next_id + 2 <= i64::MAX && !has_link(old(repo)@.links, old(host)@.next_id) ==> r
                is Ok,
            r is Ok ==> {
                let nid = old(host)@.next_id;
                let pv = payload_puzzle_view(*payload, puzzle_id@);
                &&& old(host)@.has_deck(payload.deck_id)
                &&& old(host)@.has_basic_notetype
                &&& r.unwrap() == nid
                &&& (!has_id(old(repo)@.puzzles, puzzle_id@) ==> final(repo)@.puzzles == old(
                    repo,
                )@.puzzles.push(pv))
                &&& has_id(final(repo)@.puzzles, puzzle_id@)
                &&& puzzle_at(final(repo)@.puzzles, puzzle_id@).fen == payload.fen@
                &&& puzzle_at(final(repo)@.puzzles, puzzle_id@).moves == payload.solution@
                &&& puzzle_at(final(repo)@.puzzles, puzzle_id@).comment == opt_str(payload.comment)
                &&& final(repo)@.links == old(repo)@.links.push((nid, puzzle_id@))
                &&& final(host)@.notes == old(host)@.notes.push(
                    crate::host::NoteView {
                        id: nid,
                        sfld: crate::sfld_of(
                            puzzle_id@,
                            old(host)@.deck_at(payload.deck_id).name,
                        ),
                    },
                )
                &&& final(host)@.cards == old(host)@.cards.push(
                    HostCard { id: (nid + 1) as i64, nid, did: payload.deck_id },
                )
                &&& final(host)@.next_id == nid + 2
            },
    {
        let deck_name = match host.get_deck_name(payload.deck_id) {
            Ok(n) => n,
            Err(e) => {
                return Err(e);
            },
        };
        let puzzle = Self::puzzle_from_payload(payload, puzzle_id);
        let anki_sfld = crate::format_anki_sfld(puzzle.puzzle_id.as_str(), deck_name.as_str());
        repo.save(&puzzle)?;
        if !host.has_basic_notetype {
            return Err(AnkiChessError::NotFound(String::from_str("base record template missing")));
        }
        let nid = host.add_note(payload.deck_id, anki_sfld.as_str())?;
        proof {
            crate::repo::lemma_unique_content_row(repo@, puzzle@.puzzle_id);
            let pid = puzzle@.puzzle_id;
            if has_id(old(repo)@.puzzles, pid) {
                let i = crate::repo::idx_of(old(repo)@.puzzles, pid);
                assert(repo@.puzzles[i].puzzle_id == pid);
                assert(has_id(repo@.puzzles, pid));
                let j = crate::repo::idx_of(repo@.puzzles, pid);
                if j != i {
                    assert(false);
                }
                assert(puzzle_at(repo@.puzzles, pid).fen == payload.fen@);
            } else {
                let i = (repo@.puzzles.len() - 1) as int;
                assert(repo@.puzzles[i].puzzle_id == pid);
                assert(has_id(repo@.puzzles, pid));
                let j = crate::repo::idx_of(repo@.puzzles, pid);
                if j != i {
                    assert(false);
                }
                assert(puzzle_at(repo@.puzzles, pid) == puzzle@);
            }
        }
        match repo.create_link(nid, puzzle.puzzle_id.as_str()) {
            Ok(()) => {
                proof {
                    assert(repo@.links[(repo@.links.len() - 1) as int] == (
                        nid,
                        puzzle@.puzzle_id,
                    ));
                    assert(has_link(repo@.links, nid));
                    let w = crate::repo::link_idx(repo@.links, nid);
                    if w != repo@.links.len() - 1 {
                        assert(false);
                    }
                }
                Ok(nid)
            },
            Err(e) => Err(e),
        }
    }

    /// The single-item creation path: assigns a fresh collision-resistant id
    /// and creates row, host record and link.
    pub fn create_note(
        repo: &mut PuzzleRepository,
        host: &mut HostCollection,
        payload: AddNotePayload,
    ) -> (r: Result<i64, AnkiChessError>)
        requires
            old(repo)@.wf(),
            old(host)@.wf(),
        ensures
            final(repo)@.wf(),
            final(host)@.wf(),
            !old(host)@.has_deck(payload.deck_id) ==> r is Err && r.unwrap_err() is NotFound
                && final(repo)@ == old(repo)@ && final(host)@ == old(host)@,
            old(host)@.has_deck(payload.deck_id) && old(host)@.has_basic_notetype && old(
                host,
            )@.next_id + 2 <= i64::MAX && !has_link(old(repo)@.links, old(host)@.next_id) ==> r
                is Ok,
            r is Ok ==> {
                let nid = old(host)@.next_id;
                &&& r.unwrap() == nid
                &&& final(host)@.next_id == nid + 2
                &&& final(host)@.notes.len() == old(host)@.notes.len() + 1
                &&& final(host)@.cards == old(host)@.cards.push(
                    HostCard { id: (nid + 1) as i64, nid, did: payload.deck_id },
                )
                &&& exists|id: Seq<char>|
                    {
                        &&& id.len() == 32
                        &&& final(repo)@.links == old(repo)@.links.push((nid, id))
                        &&& #[trigger] has_id(final(repo)@.puzzles, id)
                        &&& puzzle_at(final(repo)@.puzzles, id).fen == payload.fen@
                        &&& puzzle_at(final(repo)@.puzzles, id).moves == payload.solution@
                        &&& puzzle_at(final(repo)@.puzzles, id).comment == opt_str(payload.comment)
                        &&& (!has_id(old(repo)@.puzzles, id) ==> final(repo)@.puzzles == old(
                            repo,
                        )@.puzzles.push(payload_puzzle_view(payload, id)))
                        &&& final(host)@.notes.last().sfld == crate::sfld_of(
                            id,
                            old(host)@.deck_at(payload.deck_id).name,
                        )
                    }
            },
    {
        let fresh = crate::codec::fresh_uuid_simple();
        let ghost fid = fresh@;
        let r = Self::create_note_with_id(repo, host, &payload, fresh);
        proof {
            if r is Ok {
                assert(has_id(repo@.puzzles, fid));
            }
        }
        r
    }

    /// The note update path: rewrites position, solution and note of the
    /// linked puzzle. An empty position is `InvalidInput`; a note id without
    /// a link is `NotFound`.
    pub fn update_note(repo: &mut PuzzleRepository, payload: &UpdateNotePayload) -> (r: Result<
        (),
        AnkiChessError,
    >)
        requires
            old(repo)@.wf(),
        ensures
            final(repo)@.wf(),
            payload.fen@.len() == 0 ==> r is Err && r.unwrap_err() is InvalidInput && final(repo)@
                == old(repo)@,
            payload.fen@.len() > 0 && !has_link(old(repo)@.links, payload.note_id) ==> r is Err
                && r.unwrap_err() is NotFound && final(repo)@ == old(repo)@,
            payload.fen@.len() > 0 && has_link(old(repo)@.links, payload.note_id) ==> r is Ok
                && final(repo)@.links == old(repo)@.links && final(repo)@.puzzles == old(
                repo,
            )@.puzzles.update(
                crate::repo::idx_of(
                    old(repo)@.puzzles,
                    link_of(old(repo)@.links, payload.note_id),
                ),
                PuzzleView {
                    fen: payload.fen@,
                    moves: payload.solution@,
                    comment: payload.comment@,
                    ..puzzle_at(
                        old(repo)@.puzzles,
                        link_of(old(repo)@.links, payload.note_id),
                    )
                },
            ),
    {
        if payload.fen.as_str().unicode_len() == 0 {
            return Err(AnkiChessError::InvalidInput(String::from_str("FEN cannot be empty")));
        }
        let success = repo.update_fields_by_nid(
            payload.note_id,
            payload.fen.as_str(),
            payload.solution.as_str(),
            payload.comment.as_str(),
        )?;
        if !success {
            return Err(
                AnkiChessError::NotFound(String::from_str("no puzzle is linked to this note id")),
            );
        }
        Ok(())
    }

    /// Detail lookup for one card: the card's ids joined with its linked
    /// puzzle. `NotFound` when the card or the link is missing.
    pub fn get_card_details(
        repo: &PuzzleRepository,
        host: &HostCollection,
        card_id: i64,
    ) -> (r: Result<BrowseCardInfo, AnkiChessError>)
        requires
            repo@.wf(),
            host@.wf(),
        ensures
            !host@.has_card(card_id) ==> r is Err && r.unwrap_err() is NotFound,
            host@.has_card(card_id) && !has_link(repo@.links, host@.card_at(card_id).nid) ==> r
                is Err && r.unwrap_err() is NotFound,
            host@.has_card(card_id) && has_link(repo@.links, host@.card_at(card_id).nid) ==> r
                is Ok && r.unwrap()@ == browse_view(
                host@.card_at(card_id),
                puzzle_at(repo@.puzzles, link_of(repo@.links, host@.card_at(card_id).nid)),
            ),
    {
        let card = match host.find_card(card_id) {
            Some(c) => c,
            None => {
                return Err(AnkiChessError::NotFound(String::from_str("card not found")));
            },
        };
        let puzzle = match repo.get_by_nid(card.nid)? {
            Some(p) => p,
            None => {
                return Err(
                    AnkiChessError::NotFound(
                        String::from_str("no puzzle data is linked to this note id"),
                    ),
                );
            },
        };
        Ok(
            BrowseCardInfo {
                card_id: card.id,
                note_id: card.nid,
                puzzle_id: puzzle.puzzle_id,
                fen: puzzle.fen,
                solution: puzzle.moves,
                rating: puzzle.rating,
                rating_deviation: puzzle.rating_deviation,
                popularity: puzzle.popularity,
                nb_plays: puzzle.nb_plays,
                themes: puzzle.themes,
                game_url: puzzle.game_url,
                opening_tags: puzzle.opening_tags,
                comment: puzzle.comment,
                has_setup_move: puzzle.has_setup_move,
            },
        )
    }

    /// Deletes the links of the given notes inside one repository
    /// transaction, then removes the host records themselves: a link never
    /// outlives its host record.
    pub fn delete_notes(
        repo: &mut PuzzleRepository,
        host: &mut HostCollection,
        note_ids: &[i64],
    ) -> (r: Result<(), AnkiChessError>)
        requires
            old(repo)@.wf(),
            old(host)@.wf(),
        ensures
            final(repo)@.wf(),
            final(host)@.wf(),
            r is Ok,
            final(repo)@.puzzles == old(repo)@.puzzles,
            final(repo)@.links == crate::repo::links_without(old(repo)@.links, note_ids@),
            final(host)@.notes == crate::host::notes_without(old(host)@.notes, note_ids@),
            final(host)@.cards == crate::host::cards_without_nids(old(host)@.cards, note_ids@),
            final(host)@.decks == old(host)@.decks,
            final(host)@.configs == old(host)@.configs,
    {
        repo.delete_links(note_ids)?;
        host.remove_notes(note_ids);
        Ok(())
    }

    /// Assembles the study card for a queued card the host scheduler picked:
    /// looks up the linked puzzle and splits its solution into single moves.
    /// `NotFound` when the note has no linked puzzle.
    pub fn build_study_card(
        repo: &PuzzleRepository,
        card_id: i64,
        nid: i64,
        deck_id: i64,
        again_secs: u32,
        hard_secs: u32,
        good_secs: u32,
        easy_secs: u32,
    ) -> (r: Result<StudyCard, AnkiChessError>)
        requires
            repo@.wf(),
        ensures
            !has_link(repo@.links, nid) ==> r is Err && r.unwrap_err() is NotFound,
            has_link(repo@.links, nid) ==> r is Ok && {
                let p = puzzle_at(repo@.puzzles, link_of(repo@.links, nid));
                let card = r.unwrap();
                &&& card.card_id == card_id
                &&& card.note_id == nid
                &&& card.deck_id == deck_id
                &&& card.again_secs == again_secs
                &&& card.hard_secs == hard_secs
                &&& card.good_secs == good_secs
                &&& card.easy_secs == easy_secs
                &&& card.puzzle_id@ == p.puzzle_id
                &&& card.fen@ == p.fen
                &&& card.moves.deep_view() == spec_split_ws(p.moves)
                &&& card.rating as int == p.rating
                &&& card.comment@ == p.comment
                &&& card.has_setup_move == p.has_setup_move
            },
    {
        let puzzle = match repo.get_by_nid(nid)? {
            Some(p) => p,
            None => {
                return Err(
                    AnkiChessError::NotFound(
                        String::from_str("the queued note has no linked puzzle"),
                    ),
                );
            },
        };
        let moves = crate::text::split_ws(puzzle.moves.as_str());
        Ok(
            StudyCard {
                card_id,
                note_id: nid,
                deck_id,
                again_secs,
                hard_secs,
                good_secs,
                easy_secs,
                puzzle_id: puzzle.puzzle_id,
                fen: puzzle.fen,
                moves,
                rating: puzzle.rating,
                rating_deviation: puzzle.rating_deviation,
                popularity: puzzle.popularity,
                nb_plays: puzzle.nb_plays,
                themes: puzzle.themes,
                game_url: puzzle.game_url,
                opening_tags: puzzle.opening_tags,
                comment: puzzle.comment,
                has_setup_move: puzzle.has_setup_move,
            },
        )
    }

    /// The browse query engine: joins the scope's cards with their puzzles,
    /// applies the parsed filter, counts the matches, orders them, and
    /// returns the requested page with the total.
    pub fn browse_cards(
        repo: &PuzzleRepository,
        host: &HostCollection,
        options: &BrowseOptions,
    ) -> (r: Result<PaginatedBrowseResult, AnkiChessError>)
        requires
            repo@.wf(),
            host@.wf(),
        ensures
            r is Ok,
            ({
                let f = spec_parse_filter(spec_trim(opt_str(options.filter_text)));
                let ord = spec_parse_sort(opt_sort(options.sort_order));
                let joined = join_rows(host@.cards, repo@.links, repo@.puzzles, options.deck_id);
                let filt = filtered_rows(joined, f);
                let sorted = ins_sorted(filt, ord);
                let pb = spec_page_bounds(
                    options.page as int,
                    options.page_size as int,
                    filt.len() as int,
                );
                &&& r.unwrap().total_cards == filt.len()
                &&& r.unwrap().cards@.map_values(|c: BrowseCardInfo| c@) == sorted.subrange(
                    pb.0,
                    pb.1,
                )
            }),
    {
        let filter_text = match &options.filter_text {
            Some(t) => t.as_str(),
            None => {
                let e = "";
                proof {
                    reveal_strlit("");
                    assert(e@ =~= Seq::<char>::empty());
                }
                e
            },
        };
        let f = crate::filter::parse_filter(filter_text);
        let ord = match &options.sort_order {
            Some(s) => parse_sort(s.as_str()),
            None => parse_sort("default"),
        };
        // join: one row per card of the scope whose note is linked
        let mut joined: Vec<BrowseCardInfo> = Vec::new();
        let mut i: usize = 0;
        proof {
            assert(joined@.map_values(|c: BrowseCardInfo| c@) =~= join_rows(
                host@.cards.take(0),
                repo@.links,
                repo@.puzzles,
                options.deck_id,
            ));
        }
        while i < host.cards.len()
            invariant
                i <= host@.cards.len(),
                repo@.wf(),
                host@.wf(),
                joined@.map_values(|c: BrowseCardInfo| c@) == join_rows(
                    host@.cards.take(i as int),
                    repo@.links,
                    repo@.puzzles,
                    options.deck_id,
                ),
            decreases host@.cards.len() - i,
        {
            let ghost pre = joined@.map_values(|c: BrowseCardInfo| c@);
            proof {
                assert(host@.cards.take(i + 1).drop_last() =~= host@.cards.take(i as int));
                assert(host@.cards.take(i + 1).last() == host@.cards[i as int]);
            }
            let c = host.cards[i];
            if c.did == options.deck_id {
                match repo.get_by_nid(c.nid)? {
                    Some(p) => {
                        joined.push(
                            BrowseCardInfo {
                                card_id: c.id,
                                note_id: c.nid,
                                puzzle_id: p.puzzle_id,
                                fen: p.fen,
                                solution: p.moves,
                                rating: p.rating,
                                rating_deviation: p.rating_deviation,
                                popularity: p.popularity,
                                nb_plays: p.nb_plays,
                                themes: p.themes,
                                game_url: p.game_url,
                                opening_tags: p.opening_tags,
                                comment: p.comment,
                                has_setup_move: p.has_setup_move,
                            },
                        );
                        proof {
                            assert(joined@.map_values(|c: BrowseCardInfo| c@) =~= pre.push(
                                browse_view(
                                    host@.cards[i as int],
                                    puzzle_at(
                                        repo@.puzzles,
                                        link_of(repo@.links, host@.cards[i as int].nid),
                                    ),
                                ),
                            ));
                        }
                    },
                    None => {},
                }
            }
            i += 1;
        }
        proof {
            assert(host@.cards.take(host@.cards.len() as int) =~= host@.cards);
        }
        // filter
        let ghost joinedv = joined@.map_values(|c: BrowseCardInfo| c@);
        let mut kept: Vec<BrowseCardInfo> = Vec::new();
        let mut k: usize = 0;
        proof {
            assert(kept@.map_values(|c: BrowseCardInfo| c@) =~= filtered_rows(
                joinedv.take(0),
                f@,
            ));
        }
        while k < joined.len()
            invariant
                k <= joined@.len(),
                joinedv == joined@.map_values(|c: BrowseCardInfo| c@),
                kept@.map_values(|c: BrowseCardInfo| c@) == filtered_rows(
                    joinedv.take(k as int),
                    f@,
                ),
            decreases joined@.len() - k,
        {
            let ghost prev = kept@.map_values(|c: BrowseCardInfo| c@);
            proof {
                assert(joinedv.take(k + 1).drop_last() =~= joinedv.take(k as int));
                assert(joinedv.take(k + 1).last() == joinedv[k as int]);
            }
            if row_matches(&f, &joined[k]) {
                kept.push(joined[k].duplicate());
                proof {
                    assert(kept@.map_values(|c: BrowseCardInfo| c@) =~= prev.push(
                        joinedv[k as int],
                    ));
                }
            }
            k += 1;
        }
        proof {
            assert(joinedv.take(joinedv.len() as int) =~= joinedv);
        }
        let total = kept.len();
        // order, then slice the requested page
        let sorted = sort_rows(kept, &ord);
        let (start, end) = crate::filter::page_bounds(options.page, options.page_size, total);
        let ghost sortedv = sorted@.map_values(|c: BrowseCardInfo| c@);
        let mut page: Vec<BrowseCardInfo> = Vec::new();
        let mut j: usize = start;
        proof {
            lemma_ins_sorted(filtered_rows(joinedv, f@), ord);
            assert(page@.map_values(|c: BrowseCardInfo| c@) =~= sortedv.subrange(
                start as int,
                start as int,
            ));
        }
        while j < end
            invariant
                start <= j <= end,
                end <= sorted@.len(),
                sortedv == sorted@.map_values(|c: BrowseCardInfo| c@),
                page@.map_values(|c: BrowseCardInfo| c@) == sortedv.subrange(
                    start as int,
                    j as int,
                ),
            decreases end - j,
        {
            let ghost prev = page@.map_values(|c: BrowseCardInfo| c@);
            page.push(sorted[j].duplicate());
            proof {
                assert(page@.map_values(|c: BrowseCardInfo| c@) =~= prev.push(
                    sortedv[j as int],
                ));
                assert(sortedv.subrange(start as int, j + 1) =~= sortedv.subrange(
                    start as int,
                    j as int,
                ).push(sortedv[j as int]));
            }
            j += 1;
        }
        Ok(PaginatedBrowseResult { cards: page, total_cards: total })
    }
}

/// The sort-order text of the browse options, an absent one read as the
/// default order's name.
pub open spec fn opt_sort(o: Option<String>) -> Seq<char> {
    match o {
        Some(t) => t@,
        None => "default"@,
    }
}

/// Whether a browse row passes the parsed filter.
fn row_matches(f: &BrowseFilter, row: &BrowseCardInfo) -> (r: bool)
    ensures
        r == matches_filter(f@, row@),
{
    match f {
        BrowseFilter::All => true,
        BrowseFilter::Range(a, b) => *a <= row.rating && row.rating <= *b,
        BrowseFilter::Gt(n) => row.rating > *n,
        BrowseFilter::Lt(n) => row.rating < *n,
        BrowseFilter::Text(t) => {
            crate::text::contains_ci(row.puzzle_id.as_str(), t.as_str()) || crate::text::contains_ci(
                row.themes.as_str(),
                t.as_str(),
            ) || crate::text::contains_ci(row.comment.as_str(), t.as_str())
                || crate::text::contains_ci(row.opening_tags.as_str(), t.as_str())
        },
    }
}

/// A host scheduling state outside the filtered system.
#[derive(Debug, Clone, Copy, PartialEq, Eq, Structural)]
pub enum NormalSched {
    NewCard,
    Learning(u32),
    Relearning(u32),
    Review(u32),
}

/// A host scheduling state: normal, or one of the filtered states.
#[derive(Debug, Clone, Copy, PartialEq, Eq, Structural)]
pub enum SchedState {
    Normal(NormalSched),
    Preview(u32),
    Rescheduling(NormalSched),
}

/// The interval a scheduling state answers with, in seconds: learning states
/// carry seconds, review states carry days; a day count too large for the
/// second scale is pinned at the maximum.
pub open spec fn spec_interval_secs_normal(s: NormalSched) -> u32 {
    match s {
        NormalSched::NewCard => 0u32,
        NormalSched::Learning(secs) => secs,
        NormalSched::Relearning(secs) => secs,
        NormalSched::Review(days) => if days > u32::MAX / 86400 {
            u32::MAX
        } else {
            (days * 86400) as u32
        },
    }
}

pub open spec fn spec_interval_secs(s: SchedState) -> u32 {
    match s {
        SchedState::Normal(n) => spec_interval_secs_normal(n),
        SchedState::Preview(secs) => secs,
        SchedState::Rescheduling(n) => spec_interval_secs_normal(n),
    }
}

/// The interval in seconds a scheduling state stands for.
pub fn get_interval_secs(state: SchedState) -> (r: u32)
    ensures
        r == spec_interval_secs(state),
{
    match state {
        SchedState::Normal(n) => interval_secs_normal(n),
        SchedState::Preview(secs) => secs,
        SchedState::Rescheduling(n) => interval_secs_normal(n),
    }
}

fn interval_secs_normal(s: NormalSched) -> (r: u32)
    ensures
        r == spec_interval_secs_normal(s),
{
    match s {
        NormalSched::NewCard => 0,
        NormalSched::Learning(secs) => secs,
        NormalSched::Relearning(secs) => secs,
        NormalSched::Review(days) => {
            if days > u32::MAX / 86400 {
                u32::MAX
            } else {
                days * 86400
            }
        },
    }
}

/// An answer grade, as the caller rates a reviewed card.
#[derive(Debug, Clone, Copy, PartialEq, Eq, Structural)]
pub enum ReviewRating {
    Again,
    Hard,
    Good,
    Easy,
}

/// Maps the caller's numeric grade to an answer rating: one through four,
/// anything else is `InvalidInput`.
pub fn rating_from_u8(rating: u8) -> (r: Result<ReviewRating, AnkiChessError>)
    ensures
        rating == 1 ==> r == Ok::<ReviewRating, AnkiChessError>(ReviewRating::Again),
        rating == 2 ==> r == Ok::<ReviewRating, AnkiChessError>(ReviewRating::Hard),
        rating == 3 ==> r == Ok::<ReviewRating, AnkiChessError>(ReviewRating::Good),
        rating == 4 ==> r == Ok::<ReviewRating, AnkiChessError>(ReviewRating::Easy),
        rating == 0 || rating > 4 ==> r is Err && r.unwrap_err() is InvalidInput,
{
    match rating {
        1 => Ok(ReviewRating::Again),
        2 => Ok(ReviewRating::Hard),
        3 => Ok(ReviewRating::Good),
        4 => Ok(ReviewRating::Easy),
        _ => Err(
            AnkiChessError::InvalidInput(
                String::from_str("rating must be one of the four answer grades"),
            ),
        ),
    }
}

} // verus!
