//! The content repository: the `content` (puzzles) and `links` tables, with
//! referential integrity maintained by this module alone — every link row
//! references an existing puzzle row, and orphan rows are collected here.

use vstd::prelude::*;

use std::collections::HashMap;

use crate::error::AnkiChessError;
use crate::host::HostCollection;
use crate::puzzle::{ChessPuzzle, PuzzleView};

verus! {

broadcast use vstd::std_specs::hash::group_hash_axioms;

/// Puzzle ids are distinct.
pub open spec fn puzzles_ok(s: Seq<PuzzleView>) -> bool {
    forall|i: int, j: int|
        0 <= i < j < s.len() ==> (#[trigger] s[i]).puzzle_id != (#[trigger] s[j]).puzzle_id
}

pub open spec fn has_id(s: Seq<PuzzleView>, id: Seq<char>) -> bool {
    exists|i: int| 0 <= i < s.len() && (#[trigger] s[i]).puzzle_id == id
}

pub open spec fn idx_of(s: Seq<PuzzleView>, id: Seq<char>) -> int
    recommends
        has_id(s, id),
{
    choose|i: int| 0 <= i < s.len() && (#[trigger] s[i]).puzzle_id == id
}

/// The puzzle row carrying the given id.
pub open spec fn puzzle_at(s: Seq<PuzzleView>, id: Seq<char>) -> PuzzleView
    recommends
        has_id(s, id),
{
    s[idx_of(s, id)]
}

/// Link host-record ids are distinct.
pub open spec fn links_ok(ls: Seq<(i64, Seq<char>)>) -> bool {
    forall|i: int, j: int| 0 <= i < j < ls.len() ==> (#[trigger] ls[i]).0 != (#[trigger] ls[j]).0
}

/// Referential integrity: every link references an existing puzzle row.
pub open spec fn links_into(ls: Seq<(i64, Seq<char>)>, s: Seq<PuzzleView>) -> bool {
    forall|i: int| 0 <= i < ls.len() ==> has_id(s, (#[trigger] ls[i]).1)
}

pub open spec fn has_link(ls: Seq<(i64, Seq<char>)>, nid: i64) -> bool {
    exists|i: int| 0 <= i < ls.len() && (#[trigger] ls[i]).0 == nid
}

pub open spec fn link_idx(ls: Seq<(i64, Seq<char>)>, nid: i64) -> int
    recommends
        has_link(ls, nid),
{
    choose|i: int| 0 <= i < ls.len() && (#[trigger] ls[i]).0 == nid
}

/// The puzzle id the host record `nid` is linked to.
pub open spec fn link_of(ls: Seq<(i64, Seq<char>)>, nid: i64) -> Seq<char>
    recommends
        has_link(ls, nid),
{
    ls[link_idx(ls, nid)].1
}

/// A puzzle row is referenced (not an orphan) when some link points at it.
pub open spec fn linked(ls: Seq<(i64, Seq<char>)>, id: Seq<char>) -> bool {
    exists|i: int| 0 <= i < ls.len() && (#[trigger] ls[i]).1 == id
}

/// Some string in the vector has exactly these characters.
pub open spec fn strs_contain(v: Seq<String>, id: Seq<char>) -> bool {
    exists|a: int| 0 <= a < v.len() && (#[trigger] v[a])@ == id
}

/// The id is linked into the scope: some link row carries it and its host
/// record has a card in the deck.
pub open spec fn scope_has_id(
    links: Seq<(i64, Seq<char>)>,
    host: crate::host::HostView,
    deck_id: i64,
    id: Seq<char>,
) -> bool {
    exists|k: int|
        0 <= k < links.len() && (#[trigger] links[k]).1 == id && host.note_in_deck(
            links[k].0,
            deck_id,
        )
}

pub struct RepoView {
    pub puzzles: Seq<PuzzleView>,
    pub links: Seq<(i64, Seq<char>)>,
}

impl RepoView {
    pub open spec fn wf(self) -> bool {
        &&& puzzles_ok(self.puzzles)
        &&& links_ok(self.links)
        &&& links_into(self.links, self.puzzles)
    }
}

/// The repository owning the two tables. Nothing else writes them.
pub struct PuzzleRepository {
    pub puzzles: Vec<ChessPuzzle>,
    pub links: Vec<(i64, String)>,
}

impl View for PuzzleRepository {
    type V = RepoView;

    open spec fn view(&self) -> RepoView {
        RepoView {
            puzzles: self.puzzles@.map_values(|p: ChessPuzzle| p@),
            links: self.links@.map_values(|l: (i64, String)| (l.0, l.1@)),
        }
    }
}

/// In any well-formed repository, two puzzle rows with the same id are the
/// same row: an id in the scope's existing-id set has exactly one content
/// row behind it.
pub proof fn lemma_unique_content_row(r: RepoView, id: Seq<char>)
    requires
        r.wf(),
    ensures
        forall|i: int, j: int|
            0 <= i < r.puzzles.len() && 0 <= j < r.puzzles.len() && (
            #[trigger] r.puzzles[i]).puzzle_id == id && (#[trigger] r.puzzles[j]).puzzle_id == id
                ==> i == j,
{
}

/// The dedup law of the import pipeline: any id linked into a scope of a
/// well-formed repository has a content row, and exactly one — the scope's
/// existing-id set never points at missing or ambiguous content.
pub proof fn lemma_dedup_invariant(
    r: RepoView,
    host: crate::host::HostView,
    deck_id: i64,
    id: Seq<char>,
)
    requires
        r.wf(),
        scope_has_id(r.links, host, deck_id, id),
    ensures
        has_id(r.puzzles, id),
        forall|i: int, j: int|
            0 <= i < r.puzzles.len() && 0 <= j < r.puzzles.len() && (
            #[trigger] r.puzzles[i]).puzzle_id == id && (#[trigger] r.puzzles[j]).puzzle_id == id
                ==> i == j,
{
    let k = choose|k: int|
        0 <= k < r.links.len() && (#[trigger] r.links[k]).1 == id && host.note_in_deck(
            r.links[k].0,
            deck_id,
        );
    assert(has_id(r.puzzles, r.links[k].1));
    lemma_unique_content_row(r, id);
}

/// The atomicity law of the batch flush: a failed flush leaves the
/// repository exactly as it was, so a row the batch would have introduced
/// does not exist afterwards and no host-record link reaches it.
pub proof fn lemma_flush_atomicity(before: RepoView, after: RepoView, id: Seq<char>)
    requires
        before.wf(),
        after == before,
        !has_id(before.puzzles, id),
    ensures
        !has_id(after.puzzles, id),
        forall|nid: i64| #[trigger] has_link(after.links, nid) ==> link_of(after.links, nid) != id,
{
    assert forall|nid: i64| #[trigger] has_link(after.links, nid) implies link_of(after.links, nid)
        != id by {
        let k = link_idx(after.links, nid);
        assert(has_id(after.puzzles, after.links[k].1));
    }
}

/// Insert-if-absent of a batch, in order: the semantics of `save_batch_puzzles`.
pub open spec fn insert_absent_all(s: Seq<PuzzleView>, rows: Seq<PuzzleView>) -> Seq<PuzzleView>
    decreases rows.len(),
{
    if rows.len() == 0 {
        s
    } else {
        let pre = insert_absent_all(s, rows.drop_last());
        if has_id(pre, rows.last().puzzle_id) {
            pre
        } else {
            pre.push(rows.last())
        }
    }
}

/// Insert-or-replace of one link row.
pub open spec fn upsert_link(ls: Seq<(i64, Seq<char>)>, p: (i64, Seq<char>)) -> Seq<
    (i64, Seq<char>),
> {
    if has_link(ls, p.0) {
        ls.update(link_idx(ls, p.0), p)
    } else {
        ls.push(p)
    }
}

/// Insert-or-replace of link rows, in order: the semantics of
/// `save_batch_links`.
pub open spec fn upsert_links(ls: Seq<(i64, Seq<char>)>, ps: Seq<(i64, Seq<char>)>) -> Seq<
    (i64, Seq<char>),
>
    decreases ps.len(),
{
    if ps.len() == 0 {
        ls
    } else {
        upsert_link(upsert_links(ls, ps.drop_last()), ps.last())
    }
}

/// What one link upsert batch does, pair by pair: every pair ends up
/// present with the target of its last occurrence, and links outside the
/// batch are untouched.
pub proof fn lemma_upsert_links(ls: Seq<(i64, Seq<char>)>, ps: Seq<(i64, Seq<char>)>)
    requires
        links_ok(ls),
    ensures
        links_ok(upsert_links(ls, ps)),
        forall|nid: i64|
            #[trigger] has_link(upsert_links(ls, ps), nid) <==> has_link(ls, nid) || exists|k: int|
                0 <= k < ps.len() && (#[trigger] ps[k]).0 == nid,
        forall|k: int|
            0 <= k < ps.len() && (forall|l: int| k < l < ps.len() ==> (#[trigger] ps[l]).0 != ps[k].0)
                ==> has_link(upsert_links(ls, ps), (#[trigger] ps[k]).0) && link_of(
                upsert_links(ls, ps),
                ps[k].0,
            ) == ps[k].1,
        forall|nid: i64|
            has_link(ls, nid) && !(exists|k: int| 0 <= k < ps.len() && (#[trigger] ps[k]).0 == nid)
                ==> #[trigger] link_of(upsert_links(ls, ps), nid) == link_of(ls, nid),
    decreases ps.len(),
{
    if ps.len() > 0 {
        lemma_upsert_links(ls, ps.drop_last());
        let pre = upsert_links(ls, ps.drop_last());
        let whole = upsert_links(ls, ps);
        let last = ps.last();
        lemma_upsert_one_link(pre, last);
        assert(whole == upsert_link(pre, last));
        assert forall|nid: i64| #[trigger] has_link(whole, nid) implies has_link(ls, nid)
            || exists|k: int| 0 <= k < ps.len() && (#[trigger] ps[k]).0 == nid by {
            if nid == last.0 {
                assert(ps[ps.len() - 1].0 == nid);
            } else {
                assert(has_link(pre, nid));
                if !has_link(ls, nid) {
                    let k = choose|k: int|
                        0 <= k < ps.drop_last().len() && (#[trigger] ps.drop_last()[k]).0 == nid;
                    assert(ps[k].0 == nid);
                }
            }
        }
        assert forall|nid: i64|
            has_link(ls, nid) || exists|k: int| 0 <= k < ps.len() && (#[trigger] ps[k]).0 == nid
            implies #[trigger] has_link(whole, nid) by {
            if nid == last.0 {
            } else if has_link(ls, nid) {
                assert(has_link(pre, nid));
            } else {
                let k = choose|k: int| 0 <= k < ps.len() && (#[trigger] ps[k]).0 == nid;
                assert(k < ps.len() - 1);
                assert(ps.drop_last()[k].0 == nid);
                assert(has_link(pre, nid));
            }
        }
        assert forall|k: int|
            0 <= k < ps.len() && (forall|l: int| k < l < ps.len() ==> (#[trigger] ps[l]).0 != ps[k].0)
                implies has_link(whole, (#[trigger] ps[k]).0) && link_of(whole, ps[k].0)
            == ps[k].1 by {
            if k == ps.len() - 1 {
            } else {
                assert(ps[ps.len() - 1].0 != ps[k].0);
                assert(ps.drop_last()[k] == ps[k]);
                assert(forall|l: int|
                    k < l < ps.drop_last().len() ==> (#[trigger] ps.drop_last()[l]).0
                        != ps.drop_last()[k].0);
                assert(link_of(pre, ps[k].0) == ps[k].1);
                assert(link_of(whole, ps[k].0) == link_of(pre, ps[k].0));
            }
        }
        assert forall|nid: i64|
            has_link(ls, nid) && !(exists|k: int| 0 <= k < ps.len() && (#[trigger] ps[k]).0 == nid)
                implies #[trigger] link_of(whole, nid) == link_of(ls, nid) by {
            assert(ps[ps.len() - 1].0 != nid);
            assert(forall|k: int|
                0 <= k < ps.drop_last().len() ==> (#[trigger] ps.drop_last()[k]).0 != nid) by {
                assert(forall|k: int|
                    0 <= k < ps.drop_last().len() ==> ps.drop_last()[k] == (#[trigger] ps[k]));
            }
            assert(link_of(pre, nid) == link_of(ls, nid));
            assert(link_of(whole, nid) == link_of(pre, nid));
        }
    }
}

/// What one link upsert does.
proof fn lemma_upsert_one_link(ls: Seq<(i64, Seq<char>)>, p: (i64, Seq<char>))
    requires
        links_ok(ls),
    ensures
        links_ok(upsert_link(ls, p)),
        forall|nid: i64|
            #[trigger] has_link(upsert_link(ls, p), nid) <==> has_link(ls, nid) || nid == p.0,
        has_link(upsert_link(ls, p), p.0),
        link_of(upsert_link(ls, p), p.0) == p.1,
        forall|nid: i64|
            has_link(ls, nid) && nid != p.0 ==> #[trigger] link_of(upsert_link(ls, p), nid)
                == link_of(ls, nid),
{
    if has_link(ls, p.0) {
        let i = link_idx(ls, p.0);
        let t = upsert_link(ls, p);
        assert(t == ls.update(i, p));
        assert(0 <= i < ls.len() && ls[i].0 == p.0);
        assert(forall|k: int| 0 <= k < ls.len() && k != i ==> t[k] == ls[k]);
        assert(t[i] == p);
        assert forall|a: int, b: int| 0 <= a < b < t.len() implies (#[trigger] t[a]).0 != (
        #[trigger] t[b]).0 by {
            assert(t[a].0 == ls[a].0 || (a == i && t[a].0 == p.0));
            assert(t[b].0 == ls[b].0 || (b == i && t[b].0 == p.0));
        }
        assert forall|nid: i64| #[trigger] has_link(t, nid) implies has_link(ls, nid) || nid
            == p.0 by {
            let k = choose|k: int| 0 <= k < t.len() && (#[trigger] t[k]).0 == nid;
            if k != i {
                assert(ls[k].0 == nid);
            }
        }
        assert(has_link(t, p.0)) by {
            assert(t[i].0 == p.0);
        }
        assert(link_of(t, p.0) == p.1) by {
            let k = link_idx(t, p.0);
            if k != i {
                assert(t[k].0 == ls[k].0);
                assert(ls[k].0 != ls[i].0);
            }
        }
        assert forall|nid: i64| has_link(ls, nid) && nid != p.0 implies #[trigger] link_of(t, nid)
            == link_of(ls, nid) by {
            let k = link_idx(ls, nid);
            assert(0 <= k < ls.len() && ls[k].0 == nid);
            assert(k != i);
            assert(t[k] == ls[k]);
            assert(has_link(t, nid)) by {
                assert(t[k].0 == nid);
            }
            let k2 = link_idx(t, nid);
            if k2 != k {
                assert(t[k2].0 == nid && t[k].0 == nid);
                assert(false);
            }
        }
    } else {
        let t = upsert_link(ls, p);
        assert(t == ls.push(p));
        assert(forall|k: int| 0 <= k < ls.len() ==> t[k] == ls[k]);
        assert(t[ls.len() as int] == p);
        assert forall|a: int, b: int| 0 <= a < b < t.len() implies (#[trigger] t[a]).0 != (
        #[trigger] t[b]).0 by {
            if b == ls.len() {
                if t[a].0 == p.0 {
                    assert(ls[a].0 == p.0);
                    assert(has_link(ls, p.0));
                }
            }
        }
        assert forall|nid: i64| #[trigger] has_link(t, nid) implies has_link(ls, nid) || nid
            == p.0 by {
            let k = choose|k: int| 0 <= k < t.len() && (#[trigger] t[k]).0 == nid;
            if k < ls.len() {
                assert(ls[k].0 == nid);
            }
        }
        assert(has_link(t, p.0)) by {
            assert(t[ls.len() as int].0 == p.0);
        }
        assert(link_of(t, p.0) == p.1) by {
            let k = link_idx(t, p.0);
            if k != ls.len() as int {
                assert(ls[k].0 == p.0);
            }
        }
        assert forall|nid: i64| has_link(ls, nid) && nid != p.0 implies #[trigger] link_of(t, nid)
            == link_of(ls, nid) by {
            let k = link_idx(ls, nid);
            assert(t[k] == ls[k]);
            assert(has_link(t, nid)) by {
                assert(t[k].0 == nid);
            }
            let k2 = link_idx(t, nid);
            if k2 != k {
                if k2 == ls.len() as int {
                    assert(t[k2].0 == p.0);
                } else {
                    assert(false);
                }
            }
        }
    }
}

/// The link rows kept after deleting the given host-record ids.
pub open spec fn links_without(ls: Seq<(i64, Seq<char>)>, nids: Seq<i64>) -> Seq<(i64, Seq<char>)>
    decreases ls.len(),
{
    if ls.len() == 0 {
        Seq::empty()
    } else {
        let pre = links_without(ls.drop_last(), nids);
        if nids.contains(ls.last().0) {
            pre
        } else {
            pre.push(ls.last())
        }
    }
}

/// The puzzle rows kept by orphan collection: exactly the referenced ones.
pub open spec fn gc_kept(s: Seq<PuzzleView>, ls: Seq<(i64, Seq<char>)>) -> Seq<PuzzleView>
    decreases s.len(),
{
    if s.len() == 0 {
        Seq::empty()
    } else {
        let pre = gc_kept(s.drop_last(), ls);
        if linked(ls, s.last().puzzle_id) {
            pre.push(s.last())
        } else {
            pre
        }
    }
}

/// Membership in `links_without`: a link survives the deletion exactly when
/// its host-record id is not among the deleted ones.
pub proof fn lemma_links_without(ls: Seq<(i64, Seq<char>)>, nids: Seq<i64>)
    ensures
        forall|l: (i64, Seq<char>)|
            #[trigger] links_without(ls, nids).contains(l) <==> ls.contains(l) && !nids.contains(
                l.0,
            ),
        links_ok(ls) ==> links_ok(links_without(ls, nids)),
        forall|nid: i64|
            #[trigger] has_link(links_without(ls, nids), nid) ==> has_link(ls, nid)
                && !nids.contains(nid),
        forall|nid: i64|
            links_ok(ls) && has_link(ls, nid) && !nids.contains(nid) ==> #[trigger] has_link(
                links_without(ls, nids),
                nid,
            ) && link_of(links_without(ls, nids), nid) == link_of(ls, nid),
    decreases ls.len(),
{
    if ls.len() > 0 {
        lemma_links_without(ls.drop_last(), nids);
        let pre = links_without(ls.drop_last(), nids);
        let whole = links_without(ls, nids);
        if links_ok(ls) {
            assert(forall|i: int| 0 <= i < ls.drop_last().len() ==> ls.drop_last()[i] == ls[i]);
            assert(links_ok(ls.drop_last()));
        }
        assert forall|l: (i64, Seq<char>)| #[trigger] whole.contains(l) implies ls.contains(l)
            && !nids.contains(l.0) by {
            let i = choose|i: int| 0 <= i < whole.len() && whole[i] == l;
            if i < pre.len() {
                assert(pre.contains(l));
                let j = choose|j: int| 0 <= j < ls.drop_last().len() && ls.drop_last()[j] == l;
                assert(ls[j] == l);
            } else {
                assert(l == ls.last());
                assert(ls[ls.len() - 1] == l);
            }
        }
        assert forall|l: (i64, Seq<char>)| ls.contains(l) && !nids.contains(l.0) implies
            #[trigger] whole.contains(l) by {
            let i = choose|i: int| 0 <= i < ls.len() && ls[i] == l;
            if i < ls.len() - 1 {
                assert(ls.drop_last()[i] == l);
                assert(ls.drop_last().contains(l));
                assert(pre.contains(l));
                let j = choose|j: int| 0 <= j < pre.len() && pre[j] == l;
                assert(whole[j] == l);
            } else {
                assert(l == ls.last());
                if !nids.contains(ls.last().0) {
                    assert(whole[whole.len() - 1] == l);
                }
            }
        }
        if links_ok(ls) {
            assert forall|i: int, j: int| 0 <= i < j < whole.len() implies (
            #[trigger] whole[i]).0 != (#[trigger] whole[j]).0 by {
                if j == pre.len() {
                    assert(whole[j] == ls.last());
                    assert(pre.contains(pre[i]));
                    let k = choose|k: int|
                        0 <= k < ls.drop_last().len() && ls.drop_last()[k] == pre[i];
                    assert(ls[k] == pre[i]);
                    assert(ls[k].0 != ls[ls.len() - 1].0);
                }
            }
        }
        assert forall|nid: i64| #[trigger] has_link(whole, nid) implies has_link(ls, nid)
            && !nids.contains(nid) by {
            let i = choose|i: int| 0 <= i < whole.len() && (#[trigger] whole[i]).0 == nid;
            assert(whole.contains(whole[i]));
            let l = whole[i];
            let j = choose|j: int| 0 <= j < ls.len() && ls[j] == l;
        }
        assert forall|nid: i64|
            links_ok(ls) && has_link(ls, nid) && !nids.contains(nid) implies #[trigger] has_link(
            whole,
            nid,
        ) && link_of(whole, nid) == link_of(ls, nid) by {
            let i = choose|i: int| 0 <= i < ls.len() && (#[trigger] ls[i]).0 == nid;
            let l = ls[i];
            assert(ls.contains(l));
            assert(whole.contains(l));
            let j = choose|j: int| 0 <= j < whole.len() && whole[j] == l;
            assert(has_link(whole, nid));
            // uniqueness on both sides pins the chosen indices to the same pair
            let wi = link_idx(whole, nid);
            assert(whole.contains(whole[wi]));
            let k = choose|k: int| 0 <= k < ls.len() && ls[k] == whole[wi];
            assert(ls[k].0 == nid && ls[i].0 == nid);
            if k != i {
                assert(false);
            }
            let li = link_idx(ls, nid);
            if li != i {
                assert(false);
            }
        }
    }
}

/// Membership in `insert_absent_all`: existing rows are kept unchanged, an
/// id exists afterwards exactly when it existed before or occurs in the
/// batch, and a freshly inserted row carries exactly one of the batch rows.
pub proof fn lemma_insert_absent_all(s: Seq<PuzzleView>, rows: Seq<PuzzleView>)
    requires
        puzzles_ok(s),
    ensures
        puzzles_ok(insert_absent_all(s, rows)),
        forall|id: Seq<char>|
            #[trigger] has_id(insert_absent_all(s, rows), id) <==> has_id(s, id) || exists|k: int|
                0 <= k < rows.len() && (#[trigger] rows[k]).puzzle_id == id,
        s.is_prefix_of(insert_absent_all(s, rows)),
        forall|id: Seq<char>|
            has_id(s, id) ==> #[trigger] puzzle_at(insert_absent_all(s, rows), id) == puzzle_at(
                s,
                id,
            ),
        forall|id: Seq<char>|
            !has_id(s, id) && #[trigger] has_id(insert_absent_all(s, rows), id) ==> exists|k: int|
                0 <= k < rows.len() && (#[trigger] rows[k]).puzzle_id == id && puzzle_at(
                    insert_absent_all(s, rows),
                    id,
                ) == rows[k],
    decreases rows.len(),
{
    if rows.len() == 0 {
        assert(forall|id: Seq<char>|
            #[trigger] has_id(s, id) ==> puzzle_at(insert_absent_all(s, rows), id) == puzzle_at(
                s,
                id,
            ));
    } else {
        lemma_insert_absent_all(s, rows.drop_last());
        let pre = insert_absent_all(s, rows.drop_last());
        let whole = insert_absent_all(s, rows);
        let last = rows.last();
        if !has_id(pre, last.puzzle_id) {
            // the pushed row has a fresh id, so uniqueness is kept
            assert(forall|i: int| 0 <= i < pre.len() ==> whole[i] == pre[i]);
            assert(whole[pre.len() as int] == last);
            assert forall|i: int, j: int| 0 <= i < j < whole.len() implies (
            #[trigger] whole[i]).puzzle_id != (#[trigger] whole[j]).puzzle_id by {
                if j == pre.len() {
                    if whole[i].puzzle_id == last.puzzle_id {
                        assert(has_id(pre, last.puzzle_id));
                    }
                }
            }
        }
        assert forall|id: Seq<char>| #[trigger] has_id(whole, id) implies has_id(s, id) || exists|
            k: int,
        |
            0 <= k < rows.len() && (#[trigger] rows[k]).puzzle_id == id by {
            let i = choose|i: int| 0 <= i < whole.len() && (#[trigger] whole[i]).puzzle_id == id;
            if i < pre.len() {
                assert(has_id(pre, id));
                if !has_id(s, id) {
                    let k = choose|k: int|
                        0 <= k < rows.drop_last().len() && (
                        #[trigger] rows.drop_last()[k]).puzzle_id == id;
                    assert(rows[k].puzzle_id == id);
                }
            } else {
                assert(whole[i] == last);
                assert(rows[rows.len() - 1].puzzle_id == id);
            }
        }
        assert forall|id: Seq<char>|
            has_id(s, id) || exists|k: int| 0 <= k < rows.len() && (#[trigger] rows[k]).puzzle_id
                == id implies #[trigger] has_id(whole, id) by {
            if has_id(s, id) {
                assert(has_id(pre, id));
                let i = choose|i: int| 0 <= i < pre.len() && (#[trigger] pre[i]).puzzle_id == id;
                if whole.len() > pre.len() {
                    assert(whole[i] == pre[i]);
                } else {
                    assert(whole == pre);
                }
                assert(has_id(whole, id));
            } else {
                let k = choose|k: int|
                    0 <= k < rows.len() && (#[trigger] rows[k]).puzzle_id == id;
                if k < rows.len() - 1 {
                    assert(rows.drop_last()[k].puzzle_id == id);
                    assert(has_id(pre, id));
                    let i = choose|i: int|
                        0 <= i < pre.len() && (#[trigger] pre[i]).puzzle_id == id;
                    if whole.len() > pre.len() {
                        assert(whole[i] == pre[i]);
                    }
                    assert(has_id(whole, id));
                } else {
                    if has_id(pre, id) {
                        let i = choose|i: int|
                            0 <= i < pre.len() && (#[trigger] pre[i]).puzzle_id == id;
                        if whole.len() > pre.len() {
                            assert(whole[i] == pre[i]);
                        }
                        assert(has_id(whole, id));
                    } else {
                        assert(whole[pre.len() as int] == last);
                        assert(has_id(whole, id));
                    }
                }
            }
        }
        assert forall|id: Seq<char>| has_id(s, id) implies #[trigger] puzzle_at(whole, id)
            == puzzle_at(s, id) by {
            assert(puzzle_at(pre, id) == puzzle_at(s, id));
            assert(has_id(pre, id));
            let i = link_free_idx_helper(pre, id);
            assert(pre[i].puzzle_id == id);
            if whole.len() > pre.len() {
                assert(whole[i] == pre[i]);
            }
            assert(has_id(whole, id));
            let j = link_free_idx_helper(whole, id);
            if j != i {
                assert(false);
            }
        }
        assert forall|id: Seq<char>| !has_id(s, id) && #[trigger] has_id(whole, id) implies exists|
            k: int,
        |
            0 <= k < rows.len() && (#[trigger] rows[k]).puzzle_id == id && puzzle_at(whole, id)
                == rows[k] by {
            if has_id(pre, id) {
                let k = choose|k: int|
                    0 <= k < rows.drop_last().len() && (#[trigger] rows.drop_last()[k]).puzzle_id
                        == id && puzzle_at(pre, id) == rows.drop_last()[k];
                assert(rows[k] == rows.drop_last()[k]);
                let i = link_free_idx_helper(pre, id);
                if whole.len() > pre.len() {
                    assert(whole[i] == pre[i]);
                }
                let j = link_free_idx_helper(whole, id);
                if j != i {
                    assert(false);
                }
                assert(puzzle_at(whole, id) == puzzle_at(pre, id));
            } else {
                // only the freshly pushed last row can carry the id
                let w = choose|w: int|
                    0 <= w < whole.len() && (#[trigger] whole[w]).puzzle_id == id;
                if whole.len() == pre.len() {
                    assert(whole == pre);
                    assert(false);
                }
                if w < pre.len() {
                    assert(pre[w].puzzle_id == id);
                    assert(false);
                }
                assert(whole[w] == last && last.puzzle_id == id);
                assert(rows[rows.len() - 1].puzzle_id == id);
                let j = link_free_idx_helper(whole, id);
                if j != w {
                    assert(false);
                }
                assert(puzzle_at(whole, id) == last);
            }
        }
    }
}

/// The index of the row with the given id (under uniqueness, the only one).
proof fn link_free_idx_helper(s: Seq<PuzzleView>, id: Seq<char>) -> (i: int)
    requires
        has_id(s, id),
        puzzles_ok(s),
    ensures
        0 <= i < s.len() && s[i].puzzle_id == id,
        i == idx_of(s, id),
{
    let i = choose|i: int| 0 <= i < s.len() && (#[trigger] s[i]).puzzle_id == id;
    let j = idx_of(s, id);
    if i != j {
        assert(false);
    }
    i
}

/// Membership in `gc_kept`: a row survives collection exactly when a link
/// references it. This is the orphan-collection law.
pub proof fn lemma_gc_kept(s: Seq<PuzzleView>, ls: Seq<(i64, Seq<char>)>)
    requires
        puzzles_ok(s),
    ensures
        puzzles_ok(gc_kept(s, ls)),
        gc_kept(s, ls).len() <= s.len(),
        forall|id: Seq<char>|
            #[trigger] has_id(gc_kept(s, ls), id) <==> has_id(s, id) && linked(ls, id),
        forall|i: int|
            0 <= i < gc_kept(s, ls).len() ==> exists|j: int|
                0 <= j < s.len() && s[j] == #[trigger] gc_kept(s, ls)[i],
    decreases s.len(),
{
    if s.len() > 0 {
        assert(forall|i: int| 0 <= i < s.drop_last().len() ==> s.drop_last()[i] == s[i]);
        assert(puzzles_ok(s.drop_last()));
        lemma_gc_kept(s.drop_last(), ls);
        let pre = gc_kept(s.drop_last(), ls);
        let whole = gc_kept(s, ls);
        assert forall|i: int| 0 <= i < whole.len() implies exists|j: int|
            0 <= j < s.len() && s[j] == #[trigger] whole[i] by {
            if i < pre.len() {
                let j = choose|j: int| 0 <= j < s.drop_last().len() && s.drop_last()[j] == pre[i];
                assert(s[j] == whole[i]);
            } else {
                assert(whole[i] == s.last());
                assert(s[s.len() - 1] == whole[i]);
            }
        }
        assert forall|i: int, j: int| 0 <= i < j < whole.len() implies (
        #[trigger] whole[i]).puzzle_id != (#[trigger] whole[j]).puzzle_id by {
            if j == pre.len() {
                assert(whole[j] == s.last());
                let k = choose|k: int| 0 <= k < s.drop_last().len() && s.drop_last()[k] == whole[i];
                assert(s[k].puzzle_id != s[s.len() - 1].puzzle_id);
            }
        }
        assert forall|id: Seq<char>| #[trigger] has_id(whole, id) implies has_id(s, id) && linked(
            ls,
            id,
        ) by {
            let i = choose|i: int| 0 <= i < whole.len() && (#[trigger] whole[i]).puzzle_id == id;
            if i < pre.len() {
                assert(has_id(pre, id));
                let k = choose|k: int|
                    0 <= k < s.drop_last().len() && (#[trigger] s.drop_last()[k]).puzzle_id == id;
                assert(s[k].puzzle_id == id);
            } else {
                assert(whole[i] == s.last());
                assert(s[s.len() - 1].puzzle_id == id);
            }
        }
        assert forall|id: Seq<char>| has_id(s, id) && linked(ls, id) implies #[trigger] has_id(
            whole,
            id,
        ) by {
            let i = choose|i: int| 0 <= i < s.len() && (#[trigger] s[i]).puzzle_id == id;
            if i < s.len() - 1 {
                assert(s.drop_last()[i].puzzle_id == id);
                assert(has_id(s.drop_last(), id));
                assert(has_id(pre, id));
                let k = choose|k: int| 0 <= k < pre.len() && (#[trigger] pre[k]).puzzle_id == id;
                if whole.len() > pre.len() {
                    assert(whole[k] == pre[k]);
                }
                assert(has_id(whole, id));
            } else {
                assert(s.last().puzzle_id == id);
                assert(whole[whole.len() - 1] == s.last());
                assert(has_id(whole, id));
            }
        }
    }
}

impl PuzzleRepository {
    /// A fresh, empty repository: the replacement of table creation.
    pub fn new() -> (r: PuzzleRepository)
        ensures
            r@.wf(),
            r@.puzzles.len() == 0,
            r@.links.len() == 0,
    {
        PuzzleRepository { puzzles: Vec::new(), links: Vec::new() }
    }

    /// The index of the puzzle row with this id, if any.
    fn find_puzzle(&self, id: &str) -> (r: Option<usize>)
        requires
            self@.wf(),
        ensures
            r is Some <==> has_id(self@.puzzles, id@),
            r is Some ==> 0 <= r.unwrap() < self@.puzzles.len() && self@.puzzles[r.unwrap() as int].puzzle_id
                == id@ && r.unwrap() as int == idx_of(self@.puzzles, id@),
    {
        let mut i: usize = 0;
        while i < self.puzzles.len()
            invariant
                i <= self@.puzzles.len(),
                forall|j: int| 0 <= j < i ==> (#[trigger] self@.puzzles[j]).puzzle_id != id@,
            decreases self@.puzzles.len() - i,
        {
            if crate::text::str_eq(self.puzzles[i].puzzle_id.as_str(), id) {
                proof {
                    assert(self@.puzzles[i as int].puzzle_id == id@);
                    let w = idx_of(self@.puzzles, id@);
                    if w != i as int {
                        assert(false);
                    }
                }
                return Some(i);
            }
            i += 1;
        }
        None
    }

    /// The index of the link row with this host-record id, if any.
    fn find_link(&self, nid: i64) -> (r: Option<usize>)
        requires
            self@.wf(),
        ensures
            r is Some <==> has_link(self@.links, nid),
            r is Some ==> 0 <= r.unwrap() < self@.links.len() && self@.links[r.unwrap() as int].0
                == nid && r.unwrap() as int == link_idx(self@.links, nid),
    {
        let mut i: usize = 0;
        while i < self.links.len()
            invariant
                i <= self@.links.len(),
                forall|j: int| 0 <= j < i ==> (#[trigger] self@.links[j]).0 != nid,
            decreases self@.links.len() - i,
        {
            if self.links[i].0 == nid {
                proof {
                    assert(self@.links[i as int].0 == nid);
                    let w = link_idx(self@.links, nid);
                    if w != i as int {
                        assert(false);
                    }
                }
                return Some(i);
            }
            i += 1;
        }
        None
    }

    /// Idempotent upsert scoped to the mutable fields: inserts the row, or,
    /// when a row with this id already exists, updates only its position,
    /// solution and note.
    pub fn save(&mut self, p: &ChessPuzzle) -> (r: Result<(), AnkiChessError>)
        requires
            old(self)@.wf(),
        ensures
            final(self)@.wf(),
            r is Ok,
            final(self)@.links == old(self)@.links,
            has_id(old(self)@.puzzles, p@.puzzle_id) ==> final(self)@.puzzles == old(
                self,
            )@.puzzles.update(
                idx_of(old(self)@.puzzles, p@.puzzle_id),
                PuzzleView {
                    fen: p@.fen,
                    moves: p@.moves,
                    comment: p@.comment,
                    ..puzzle_at(old(self)@.puzzles, p@.puzzle_id)
                },
            ),
            !has_id(old(self)@.puzzles, p@.puzzle_id) ==> final(self)@.puzzles == old(
                self,
            )@.puzzles.push(p@),
    {
        let ghost orig = self@;
        match self.find_puzzle(p.puzzle_id.as_str()) {
            Some(i) => {
                let cur = &self.puzzles[i];
                let merged = ChessPuzzle {
                    puzzle_id: cur.puzzle_id.clone(),
                    fen: p.fen.clone(),
                    moves: p.moves.clone(),
                    rating: cur.rating,
                    rating_deviation: cur.rating_deviation,
                    popularity: cur.popularity,
                    nb_plays: cur.nb_plays,
                    themes: cur.themes.clone(),
                    game_url: cur.game_url.clone(),
                    opening_tags: cur.opening_tags.clone(),
                    comment: p.comment.clone(),
                    has_setup_move: cur.has_setup_move,
                };
                self.puzzles[i] = merged;
                proof {
                    assert(self@.puzzles =~= orig.puzzles.update(
                        i as int,
                        PuzzleView {
                            fen: p@.fen,
                            moves: p@.moves,
                            comment: p@.comment,
                            ..puzzle_at(orig.puzzles, p@.puzzle_id)
                        },
                    ));
                    assert forall|a: int, b: int| 0 <= a < b < self@.puzzles.len() implies (
                    #[trigger] self@.puzzles[a]).puzzle_id != (
                    #[trigger] self@.puzzles[b]).puzzle_id by {
                        assert(self@.puzzles[a].puzzle_id == orig.puzzles[a].puzzle_id);
                        assert(self@.puzzles[b].puzzle_id == orig.puzzles[b].puzzle_id);
                    }
                    assert forall|k: int| 0 <= k < self@.links.len() implies has_id(
                        self@.puzzles,
                        (#[trigger] self@.links[k]).1,
                    ) by {
                        assert(has_id(orig.puzzles, orig.links[k].1));
                        let w = choose|w: int|
                            0 <= w < orig.puzzles.len() && (#[trigger] orig.puzzles[w]).puzzle_id
                                == orig.links[k].1;
                        assert(self@.puzzles[w].puzzle_id == orig.puzzles[w].puzzle_id);
                    }
                }
                Ok(())
            },
            None => {
                self.puzzles.push(p.duplicate());
                proof {
                    assert(self@.puzzles =~= orig.puzzles.push(p@));
                    assert forall|a: int, b: int| 0 <= a < b < self@.puzzles.len() implies (
                    #[trigger] self@.puzzles[a]).puzzle_id != (
                    #[trigger] self@.puzzles[b]).puzzle_id by {
                        if b == orig.puzzles.len() {
                            if self@.puzzles[a].puzzle_id == p@.puzzle_id {
                                assert(orig.puzzles[a].puzzle_id == p@.puzzle_id);
                                assert(has_id(orig.puzzles, p@.puzzle_id));
                            }
                        }
                    }
                    assert forall|k: int| 0 <= k < self@.links.len() implies has_id(
                        self@.puzzles,
                        (#[trigger] self@.links[k]).1,
                    ) by {
                        assert(has_id(orig.puzzles, orig.links[k].1));
                        let w = choose|w: int|
                            0 <= w < orig.puzzles.len() && (#[trigger] orig.puzzles[w]).puzzle_id
                                == orig.links[k].1;
                        assert(self@.puzzles[w] == orig.puzzles[w]);
                    }
                }
                Ok(())
            },
        }
    }

    /// Links a host record to a puzzle row. Fails with `ConstraintError`
    /// when the puzzle row does not exist or the host record is already
    /// linked.
    pub fn create_link(&mut self, nid: i64, puzzle_id: &str) -> (r: Result<(), AnkiChessError>)
        requires
            old(self)@.wf(),
        ensures
            final(self)@.wf(),
            final(self)@.puzzles == old(self)@.puzzles,
            !has_id(old(self)@.puzzles, puzzle_id@) ==> r is Err && r.unwrap_err()
                is ConstraintError && final(self)@ == old(self)@,
            has_id(old(self)@.puzzles, puzzle_id@) && has_link(old(self)@.links, nid) ==> r is Err
                && r.unwrap_err() is ConstraintError && final(self)@ == old(self)@,
            has_id(old(self)@.puzzles, puzzle_id@) && !has_link(old(self)@.links, nid) ==> r is Ok
                && final(self)@.links == old(self)@.links.push((nid, puzzle_id@)),
    {
        let ghost orig = self@;
        if self.find_puzzle(puzzle_id).is_none() {
            return Err(
                AnkiChessError::ConstraintError(
                    String::from_str("link references a puzzle row that does not exist"),
                ),
            );
        }
        if self.find_link(nid).is_some() {
            return Err(
                AnkiChessError::ConstraintError(
                    String::from_str("host record is already linked"),
                ),
            );
        }
        self.links.push((nid, String::from_str(puzzle_id)));
        proof {
            assert(self@.links =~= orig.links.push((nid, puzzle_id@)));
            assert forall|a: int, b: int| 0 <= a < b < self@.links.len() implies (
            #[trigger] self@.links[a]).0 != (#[trigger] self@.links[b]).0 by {
                if b == orig.links.len() {
                    if self@.links[a].0 == nid {
                        assert(orig.links[a].0 == nid);
                        assert(has_link(orig.links, nid));
                    }
                }
            }
            assert forall|k: int| 0 <= k < self@.links.len() implies has_id(
                self@.puzzles,
                (#[trigger] self@.links[k]).1,
            ) by {
                if k < orig.links.len() {
                    assert(has_id(orig.puzzles, orig.links[k].1));
                }
            }
        }
        Ok(())
    }

    /// Updates position, solution and note of the puzzle linked to the host
    /// record `nid`. Returns `Ok(false)` — not an error — when no link
    /// exists, so callers can tell a no-op from a failure.
    pub fn update_fields_by_nid(
        &mut self,
        nid: i64,
        fen: &str,
        moves: &str,
        comment: &str,
    ) -> (r: Result<bool, AnkiChessError>)
        requires
            old(self)@.wf(),
        ensures
            final(self)@.wf(),
            r is Ok,
            final(self)@.links == old(self)@.links,
            !has_link(old(self)@.links, nid) ==> r == Ok::<bool, AnkiChessError>(false)
                && final(self)@ == old(self)@,
            has_link(old(self)@.links, nid) ==> r == Ok::<bool, AnkiChessError>(true)
                && final(self)@.puzzles == old(self)@.puzzles.update(
                idx_of(old(self)@.puzzles, link_of(old(self)@.links, nid)),
                PuzzleView {
                    fen: fen@,
                    moves: moves@,
                    comment: comment@,
                    ..puzzle_at(old(self)@.puzzles, link_of(old(self)@.links, nid))
                },
            ),
    {
        let ghost orig = self@;
        let li = match self.find_link(nid) {
            Some(li) => li,
            None => {
                return Ok(false);
            },
        };
        let target = self.links[li].1.clone();
        proof {
            assert(orig.links[li as int].1 == target@);
            assert(has_id(orig.puzzles, target@));
        }
        let pi = match self.find_puzzle(target.as_str()) {
            Some(pi) => pi,
            None => {
                proof {
                    assert(false);
                }
                return Ok(false);
            },
        };
        let cur = &self.puzzles[pi];
        let merged = ChessPuzzle {
            puzzle_id: cur.puzzle_id.clone(),
            fen: String::from_str(fen),
            moves: String::from_str(moves),
            rating: cur.rating,
            rating_deviation: cur.rating_deviation,
            popularity: cur.popularity,
            nb_plays: cur.nb_plays,
            themes: cur.themes.clone(),
            game_url: cur.game_url.clone(),
            opening_tags: cur.opening_tags.clone(),
            comment: String::from_str(comment),
            has_setup_move: cur.has_setup_move,
        };
        self.puzzles[pi] = merged;
        proof {
            assert(self@.puzzles =~= orig.puzzles.update(
                pi as int,
                PuzzleView {
                    fen: fen@,
                    moves: moves@,
                    comment: comment@,
                    ..puzzle_at(orig.puzzles, link_of(orig.links, nid))
                },
            ));
            assert forall|a: int, b: int| 0 <= a < b < self@.puzzles.len() implies (
            #[trigger] self@.puzzles[a]).puzzle_id != (#[trigger] self@.puzzles[b]).puzzle_id by {
                assert(self@.puzzles[a].puzzle_id == orig.puzzles[a].puzzle_id);
                assert(self@.puzzles[b].puzzle_id == orig.puzzles[b].puzzle_id);
            }
            assert forall|k: int| 0 <= k < self@.links.len() implies has_id(
                self@.puzzles,
                (#[trigger] self@.links[k]).1,
            ) by {
                assert(has_id(orig.puzzles, orig.links[k].1));
                let w = choose|w: int|
                    0 <= w < orig.puzzles.len() && (#[trigger] orig.puzzles[w]).puzzle_id
                        == orig.links[k].1;
                assert(self@.puzzles[w].puzzle_id == orig.puzzles[w].puzzle_id);
            }
        }
        Ok(true)
    }

    /// The puzzle linked to the host record `nid`, or `None` when the record
    /// has no link.
    pub fn get_by_nid(&self, nid: i64) -> (r: Result<Option<ChessPuzzle>, AnkiChessError>)
        requires
            self@.wf(),
        ensures
            r is Ok,
            !has_link(self@.links, nid) ==> r.unwrap() is None,
            has_link(self@.links, nid) ==> r.unwrap() is Some && r.unwrap().unwrap()@ == puzzle_at(
                self@.puzzles,
                link_of(self@.links, nid),
            ),
    {
        let li = match self.find_link(nid) {
            Some(li) => li,
            None => {
                return Ok(None);
            },
        };
        let target = self.links[li].1.clone();
        proof {
            assert(self@.links[li as int].1 == target@);
            assert(has_id(self@.puzzles, target@));
        }
        match self.find_puzzle(target.as_str()) {
            Some(pi) => Ok(Some(self.puzzles[pi].duplicate())),
            None => {
                proof {
                    assert(false);
                }
                Ok(None)
            },
        }
    }

    /// Removes the link rows of the given host records; a no-op for ids
    /// without a link. Never touches puzzle rows.
    pub fn delete_links(&mut self, nids: &[i64]) -> (r: Result<(), AnkiChessError>)
        requires
            old(self)@.wf(),
        ensures
            final(self)@.wf(),
            r is Ok,
            final(self)@.puzzles == old(self)@.puzzles,
            final(self)@.links == links_without(old(self)@.links, nids@),
    {
        let ghost orig = self@;
        let mut kept: Vec<(i64, String)> = Vec::new();
        let mut i: usize = 0;
        while i < self.links.len()
            invariant
                i <= self@.links.len(),
                self@ == orig,
                kept@.map_values(|l: (i64, String)| (l.0, l.1@)) == links_without(
                    orig.links.take(i as int),
                    nids@,
                ),
            decreases self@.links.len() - i,
        {
            let ghost prev = kept@.map_values(|l: (i64, String)| (l.0, l.1@));
            if !crate::host::contains_i64(nids, self.links[i].0) {
                let l = &self.links[i];
                kept.push((l.0, l.1.clone()));
                assert(kept@.map_values(|l: (i64, String)| (l.0, l.1@)) =~= prev.push(
                    orig.links[i as int],
                ));
            }
            proof {
                assert(orig.links.take(i + 1).drop_last() =~= orig.links.take(i as int));
                assert(orig.links.take(i + 1).last() == orig.links[i as int]);
            }
            i += 1;
        }
        proof {
            assert(orig.links.take(orig.links.len() as int) =~= orig.links);
        }
        self.links = kept;
        proof {
            lemma_links_without(orig.links, nids@);
            assert forall|k: int| 0 <= k < self@.links.len() implies has_id(
                self@.puzzles,
                (#[trigger] self@.links[k]).1,
            ) by {
                assert(self@.links.contains(self@.links[k]));
                assert(orig.links.contains(self@.links[k]));
                let w = choose|w: int| 0 <= w < orig.links.len() && orig.links[w] == self@.links[k];
                assert(has_id(orig.puzzles, orig.links[w].1));
            }
        }
        Ok(())
    }

    /// The puzzles linked to the given host records, in one pass: a map from
    /// host-record id to the linked puzzle.
    pub fn get_batch_by_nids(&self, nids: &[i64]) -> (r: Result<
        HashMap<i64, ChessPuzzle>,
        AnkiChessError,
    >)
        requires
            self@.wf(),
        ensures
            r is Ok,
            forall|k: i64|
                (#[trigger] r.unwrap()@.contains_key(k)) <==> nids@.contains(k) && has_link(
                    self@.links,
                    k,
                ),
            forall|k: i64|
                #[trigger] r.unwrap()@.contains_key(k) ==> r.unwrap()@[k]@ == puzzle_at(
                    self@.puzzles,
                    link_of(self@.links, k),
                ),
    {
        let mut m: HashMap<i64, ChessPuzzle> = HashMap::new();
        let mut i: usize = 0;
        while i < nids.len()
            invariant
                i <= nids@.len(),
                forall|k: i64|
                    (#[trigger] m@.contains_key(k)) <==> nids@.take(i as int).contains(k)
                        && has_link(self@.links, k),
                forall|k: i64|
                    #[trigger] m@.contains_key(k) ==> m@[k]@ == puzzle_at(
                        self@.puzzles,
                        link_of(self@.links, k),
                    ),
            decreases nids@.len() - i,
        {
            let nid = nids[i];
            let ghost prevm = m@;
            match self.get_by_nid(nid)? {
                Some(p) => {
                    m.insert(nid, p);
                },
                None => {},
            }
            proof {
                assert(nids@.take(i + 1).drop_last() =~= nids@.take(i as int));
                assert(nids@.take(i + 1).last() == nids@[i as int]);
                assert forall|k: i64| #[trigger] m@.contains_key(k) implies nids@.take(
                    i + 1,
                ).contains(k) && has_link(self@.links, k) by {
                    if k != nid || !has_link(self@.links, nid) {
                        assert(prevm.contains_key(k));
                        let w = choose|w: int|
                            0 <= w < nids@.take(i as int).len() && nids@.take(i as int)[w] == k;
                        assert(nids@.take(i + 1)[w] == k);
                    } else {
                        assert(nids@.take(i + 1)[i as int] == k);
                    }
                }
                assert forall|k: i64|
                    nids@.take(i + 1).contains(k) && has_link(self@.links, k) implies
                    #[trigger] m@.contains_key(k) by {
                    if k != nid {
                        let w = choose|w: int|
                            0 <= w < nids@.take(i + 1).len() && #[trigger] nids@.take(i + 1)[w]
                                == k;
                        assert(nids@.take(i as int)[w] == k);
                        assert(prevm.contains_key(k));
                    }
                }
            }
            i += 1;
        }
        proof {
            assert(nids@.take(nids@.len() as int) =~= nids@);
        }
        Ok(m)
    }

    /// The distinct puzzle ids already linked into the given scope: the
    /// dedup set of the import pipeline. Every id in it has a content row.
    pub fn get_existing_ids_in_deck(&self, host: &HostCollection, deck_id: i64) -> (r: Vec<String>)
        requires
            self@.wf(),
        ensures
            forall|a: int, b: int| 0 <= a < b < r@.len() ==> r@[a]@ != r@[b]@,
            forall|a: int| 0 <= a < r@.len() ==> has_id(self@.puzzles, #[trigger] r@[a]@),
            forall|id: Seq<char>|
                #[trigger] strs_contain(r@, id) <==> scope_has_id(self@.links, host@, deck_id, id),
    {
        let mut out: Vec<String> = Vec::new();
        let mut i: usize = 0;
        while i < self.links.len()
            invariant
                i <= self@.links.len(),
                forall|a: int, b: int| 0 <= a < b < out@.len() ==> out@[a]@ != out@[b]@,
                forall|a: int| 0 <= a < out@.len() ==> has_id(self@.puzzles, #[trigger] out@[a]@),
                forall|id: Seq<char>|
                    #[trigger] strs_contain(out@, id) <==> scope_has_id(
                        self@.links.take(i as int),
                        host@,
                        deck_id,
                        id,
                    ),
            decreases self@.links.len() - i,
        {
            let ghost prefix = self@.links.take(i as int);
            let ghost next_prefix = self@.links.take(i + 1);
            proof {
                assert(next_prefix.drop_last() =~= prefix);
                assert(next_prefix.last() == self@.links[i as int]);
            }
            let in_deck = host.note_has_card_in_deck(self.links[i].0, deck_id);
            if in_deck {
                let id_ref = &self.links[i].1;
                if !vec_contains_str(&out, id_ref.as_str()) {
                    let ghost prev = out@;
                    out.push(id_ref.clone());
                    proof {
                        assert(out@[out@.len() - 1]@ == self@.links[i as int].1);
                        assert(has_id(self@.puzzles, self@.links[i as int].1));
                        assert forall|a: int| 0 <= a < out@.len() implies has_id(
                            self@.puzzles,
                            #[trigger] out@[a]@,
                        ) by {
                            if a < prev.len() {
                                assert(out@[a] == prev[a]);
                            }
                        }
                        assert forall|a: int, b: int| 0 <= a < b < out@.len() implies out@[a]@
                            != out@[b]@ by {
                            if b == prev.len() {
                                assert(out@[a] == prev[a]);
                                assert(!strs_contain(prev, self@.links[i as int].1));
                            }
                        }
                        assert forall|id: Seq<char>| #[trigger] strs_contain(out@, id) implies
                            scope_has_id(next_prefix, host@, deck_id, id) by {
                            let a = choose|a: int| 0 <= a < out@.len() && (#[trigger] out@[a])@ == id;
                            if a < prev.len() {
                                assert(strs_contain(prev, id));
                                let k = choose|k: int|
                                    0 <= k < prefix.len() && (#[trigger] prefix[k]).1 == id
                                        && host@.note_in_deck(prefix[k].0, deck_id);
                                assert(next_prefix[k] == prefix[k]);
                            } else {
                                assert(next_prefix[i as int].1 == id);
                            }
                        }
                        assert forall|id: Seq<char>|
                            scope_has_id(next_prefix, host@, deck_id, id) implies
                            #[trigger] strs_contain(out@, id) by {
                            let k = choose|k: int|
                                0 <= k < next_prefix.len() && (#[trigger] next_prefix[k]).1 == id
                                    && host@.note_in_deck(next_prefix[k].0, deck_id);
                            if k < prefix.len() {
                                assert(prefix[k] == next_prefix[k]);
                                assert(scope_has_id(prefix, host@, deck_id, id));
                                assert(strs_contain(prev, id));
                                let a = choose|a: int|
                                    0 <= a < prev.len() && (#[trigger] prev[a])@ == id;
                                assert(out@[a]@ == id);
                            } else {
                                assert(out@[out@.len() - 1]@ == id);
                            }
                        }
                    }
                } else {
                    proof {
                        assert forall|id: Seq<char>|
                            #[trigger] strs_contain(out@, id) <==> scope_has_id(
                            next_prefix,
                            host@,
                            deck_id,
                            id,
                        ) by {
                            if scope_has_id(next_prefix, host@, deck_id, id) {
                                let k = choose|k: int|
                                    0 <= k < next_prefix.len() && (#[trigger] next_prefix[k]).1
                                        == id && host@.note_in_deck(next_prefix[k].0, deck_id);
                                if k < prefix.len() {
                                    assert(prefix[k] == next_prefix[k]);
                                    assert(scope_has_id(prefix, host@, deck_id, id));
                                } else {
                                    assert(id == self@.links[i as int].1);
                                    assert(strs_contain(out@, id));
                                }
                            }
                            if strs_contain(out@, id) {
                                let k = choose|k: int|
                                    0 <= k < prefix.len() && (#[trigger] prefix[k]).1 == id
                                        && host@.note_in_deck(prefix[k].0, deck_id);
                                assert(next_prefix[k] == prefix[k]);
                                assert(scope_has_id(next_prefix, host@, deck_id, id));
                            }
                        }
                    }
                }
            } else {
                proof {
                    assert forall|id: Seq<char>|
                        #[trigger] strs_contain(out@, id) <==> scope_has_id(
                        next_prefix,
                        host@,
                        deck_id,
                        id,
                    ) by {
                        if scope_has_id(next_prefix, host@, deck_id, id) {
                            let k = choose|k: int|
                                0 <= k < next_prefix.len() && (#[trigger] next_prefix[k]).1 == id
                                    && host@.note_in_deck(next_prefix[k].0, deck_id);
                            if k < prefix.len() {
                                assert(prefix[k] == next_prefix[k]);
                                assert(scope_has_id(prefix, host@, deck_id, id));
                            }
                        }
                        if strs_contain(out@, id) {
                            let k = choose|k: int|
                                0 <= k < prefix.len() && (#[trigger] prefix[k]).1 == id
                                    && host@.note_in_deck(prefix[k].0, deck_id);
                            assert(next_prefix[k] == prefix[k]);
                            assert(scope_has_id(next_prefix, host@, deck_id, id));
                        }
                    }
                }
            }
            i += 1;
        }
        proof {
            assert(self@.links.take(self@.links.len() as int) =~= self@.links);
        }
        out
    }

    /// Bulk insert with insert-if-absent semantics: existing rows are never
    /// overwritten.
    pub fn save_batch_puzzles(&mut self, rows: &[ChessPuzzle]) -> (r: Result<(), AnkiChessError>)
        requires
            old(self)@.wf(),
        ensures
            final(self)@.wf(),
            r is Ok,
            final(self)@.links == old(self)@.links,
            final(self)@.puzzles == insert_absent_all(
                old(self)@.puzzles,
                rows@.map_values(|p: ChessPuzzle| p@),
            ),
    {
        let ghost orig = self@;
        let ghost rviews = rows@.map_values(|p: ChessPuzzle| p@);
        let mut i: usize = 0;
        while i < rows.len()
            invariant
                i <= rows@.len(),
                self@.links == orig.links,
                rviews == rows@.map_values(|p: ChessPuzzle| p@),
                self@.puzzles == insert_absent_all(orig.puzzles, rviews.take(i as int)),
                self@.wf(),
                orig.wf(),
            decreases rows@.len() - i,
        {
            let ghost prev = self@.puzzles;
            if self.find_puzzle(rows[i].puzzle_id.as_str()).is_none() {
                self.puzzles.push(rows[i].duplicate());
                proof {
                    assert(self@.puzzles =~= prev.push(rviews[i as int]));
                    assert forall|a: int, b: int| 0 <= a < b < self@.puzzles.len() implies (
                    #[trigger] self@.puzzles[a]).puzzle_id != (
                    #[trigger] self@.puzzles[b]).puzzle_id by {
                        if b == prev.len() {
                            if self@.puzzles[a].puzzle_id == rviews[i as int].puzzle_id {
                                assert(prev[a].puzzle_id == rviews[i as int].puzzle_id);
                                assert(has_id(prev, rviews[i as int].puzzle_id));
                            }
                        }
                    }
                    assert forall|k: int| 0 <= k < self@.links.len() implies has_id(
                        self@.puzzles,
                        (#[trigger] self@.links[k]).1,
                    ) by {
                        assert(has_id(prev, orig.links[k].1));
                        let w = choose|w: int|
                            0 <= w < prev.len() && (#[trigger] prev[w]).puzzle_id
                                == orig.links[k].1;
                        assert(self@.puzzles[w] == prev[w]);
                    }
                }
            }
            proof {
                assert(rviews.take(i + 1).drop_last() =~= rviews.take(i as int));
                assert(rviews.take(i + 1).last() == rviews[i as int]);
            }
            i += 1;
        }
        proof {
            assert(rviews.take(rviews.len() as int) =~= rviews);
        }
        Ok(())
    }

    /// Bulk link creation with insert-or-replace semantics: a pre-existing
    /// link for the same host record is overwritten.
    pub fn save_batch_links(&mut self, pairs: &[(i64, String)]) -> (r: Result<(), AnkiChessError>)
        requires
            old(self)@.wf(),
            forall|k: int|
                0 <= k < pairs@.len() ==> has_id(old(self)@.puzzles, (#[trigger] pairs@[k]).1@),
        ensures
            final(self)@.wf(),
            r is Ok,
            final(self)@.puzzles == old(self)@.puzzles,
            final(self)@.links == upsert_links(
                old(self)@.links,
                pairs@.map_values(|l: (i64, String)| (l.0, l.1@)),
            ),
    {
        let ghost orig = self@;
        let ghost pviews = pairs@.map_values(|l: (i64, String)| (l.0, l.1@));
        let mut i: usize = 0;
        while i < pairs.len()
            invariant
                i <= pairs@.len(),
                self@.puzzles == orig.puzzles,
                pviews == pairs@.map_values(|l: (i64, String)| (l.0, l.1@)),
                self@.links == upsert_links(orig.links, pviews.take(i as int)),
                self@.wf(),
                orig.wf(),
                forall|k: int| 0 <= k < pviews.len() ==> has_id(orig.puzzles, (#[trigger] pviews[k]).1),
            decreases pairs@.len() - i,
        {
            let ghost prev = self@.links;
            let nid = pairs[i].0;
            let id = pairs[i].1.clone();
            proof {
                assert((#[trigger] pviews[i as int]).1 == id@);
            }
            match self.find_link(nid) {
                Some(li) => {
                    self.links[li] = (nid, id);
                    proof {
                        assert(self@.links =~= prev.update(
                            link_idx(prev, nid),
                            pviews[i as int],
                        ));
                        assert forall|a: int, b: int| 0 <= a < b < self@.links.len() implies (
                        #[trigger] self@.links[a]).0 != (#[trigger] self@.links[b]).0 by {
                            assert(self@.links[a].0 == prev[a].0);
                            assert(self@.links[b].0 == prev[b].0);
                        }
                        assert forall|k: int| 0 <= k < self@.links.len() implies has_id(
                            self@.puzzles,
                            (#[trigger] self@.links[k]).1,
                        ) by {
                            if k == li as int {
                                assert(has_id(orig.puzzles, pviews[i as int].1));
                            } else {
                                assert(self@.links[k] == prev[k]);
                                assert(has_id(orig.puzzles, prev[k].1));
                            }
                        }
                    }
                },
                None => {
                    self.links.push((nid, id));
                    proof {
                        assert(self@.links =~= prev.push(pviews[i as int]));
                        assert forall|a: int, b: int| 0 <= a < b < self@.links.len() implies (
                        #[trigger] self@.links[a]).0 != (#[trigger] self@.links[b]).0 by {
                            if b == prev.len() {
                                if self@.links[a].0 == nid {
                                    assert(prev[a].0 == nid);
                                    assert(has_link(prev, nid));
                                }
                            }
                        }
                        assert forall|k: int| 0 <= k < self@.links.len() implies has_id(
                            self@.puzzles,
                            (#[trigger] self@.links[k]).1,
                        ) by {
                            if k == prev.len() {
                                assert(has_id(orig.puzzles, pviews[i as int].1));
                            } else {
                                assert(self@.links[k] == prev[k]);
                                assert(has_id(orig.puzzles, prev[k].1));
                            }
                        }
                    }
                },
            }
            proof {
                assert(pviews.take(i + 1).drop_last() =~= pviews.take(i as int));
                assert(pviews.take(i + 1).last() == pviews[i as int]);
            }
            i += 1;
        }
        proof {
            assert(pviews.take(pviews.len() as int) =~= pviews);
        }
        Ok(())
    }

    /// Orphan collection: deletes every puzzle row with zero referencing
    /// link rows and returns how many were removed. Afterwards a row exists
    /// exactly when a link referenced it at collection time.
    pub fn delete_unused_puzzles(&mut self) -> (r: Result<usize, AnkiChessError>)
        requires
            old(self)@.wf(),
        ensures
            final(self)@.wf(),
            r is Ok,
            final(self)@.links == old(self)@.links,
            final(self)@.puzzles == gc_kept(old(self)@.puzzles, old(self)@.links),
            r.unwrap() == old(self)@.puzzles.len() - final(self)@.puzzles.len(),
            forall|id: Seq<char>|
                #[trigger] has_id(final(self)@.puzzles, id) <==> has_id(old(self)@.puzzles, id)
                    && linked(old(self)@.links, id),
    {
        let ghost orig = self@;
        let before = self.puzzles.len();
        let mut kept: Vec<ChessPuzzle> = Vec::new();
        let mut i: usize = 0;
        while i < self.puzzles.len()
            invariant
                i <= self@.puzzles.len(),
                self@ == orig,
                kept@.map_values(|p: ChessPuzzle| p@) == gc_kept(orig.puzzles.take(i as int), orig.links),
                kept@.len() <= i,
            decreases self@.puzzles.len() - i,
        {
            let ghost prev = kept@.map_values(|p: ChessPuzzle| p@);
            if self.puzzle_is_linked(i) {
                kept.push(self.puzzles[i].duplicate());
                assert(kept@.map_values(|p: ChessPuzzle| p@) =~= prev.push(
                    orig.puzzles[i as int],
                ));
            }
            proof {
                assert(orig.puzzles.take(i + 1).drop_last() =~= orig.puzzles.take(i as int));
                assert(orig.puzzles.take(i + 1).last() == orig.puzzles[i as int]);
            }
            i += 1;
        }
        proof {
            assert(orig.puzzles.take(orig.puzzles.len() as int) =~= orig.puzzles);
        }
        let after = kept.len();
        self.puzzles = kept;
        proof {
            lemma_gc_kept(orig.puzzles, orig.links);
            assert forall|k: int| 0 <= k < self@.links.len() implies has_id(
                self@.puzzles,
                (#[trigger] self@.links[k]).1,
            ) by {
                assert(has_id(orig.puzzles, orig.links[k].1));
                assert(linked(orig.links, orig.links[k].1));
            }
        }
        Ok(before - after)
    }

    /// Whether some link references the puzzle row at this index.
    fn puzzle_is_linked(&self, i: usize) -> (r: bool)
        requires
            i < self@.puzzles.len(),
        ensures
            r == linked(self@.links, self@.puzzles[i as int].puzzle_id),
    {
        let id = &self.puzzles[i];
        let mut k: usize = 0;
        while k < self.links.len()
            invariant
                i < self@.puzzles.len(),
                k <= self@.links.len(),
                forall|j: int|
                    0 <= j < k ==> (#[trigger] self@.links[j]).1 != self@.puzzles[i as int].puzzle_id,
            decreases self@.links.len() - k,
        {
            if crate::text::str_eq(self.links[k].1.as_str(), id.puzzle_id.as_str()) {
                assert(self@.links[k as int].1 == self@.puzzles[i as int].puzzle_id);
                return true;
            }
            k += 1;
        }
        false
    }
}

/// Whether the vector holds a string with exactly these characters.
pub fn vec_contains_str(v: &Vec<String>, s: &str) -> (r: bool)
    ensures
        r == strs_contain(v@, s@),
{
    let mut i: usize = 0;
    while i < v.len()
        invariant
            i <= v@.len(),
            forall|j: int| 0 <= j < i ==> (#[trigger] v@[j])@ != s@,
        decreases v@.len() - i,
    {
        if crate::text::str_eq(v[i].as_str(), s) {
            assert(v@[i as int]@ == s@);
            return true;
        }
        i += 1;
    }
    false
}

} // verus!
