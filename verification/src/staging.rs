//! The staging store: the local mirror of the upstream bulk dataset, with
//! upsert-by-natural-key loading, a bookkeeping timestamp, and the criteria
//! query the import pipeline draws candidates from.

use vstd::prelude::*;

use crate::puzzle::{ImportOptions, PuzzleRecord, RecordView};
use crate::text::{contains_ci_spec, spec_trim};

verus! {

/// Staging row ids are distinct.
pub open spec fn records_ok(s: Seq<RecordView>) -> bool {
    forall|i: int, j: int|
        0 <= i < j < s.len() ==> (#[trigger] s[i]).puzzle_id != (#[trigger] s[j]).puzzle_id
}

pub open spec fn rec_has_id(s: Seq<RecordView>, id: Seq<char>) -> bool {
    exists|i: int| 0 <= i < s.len() && (#[trigger] s[i]).puzzle_id == id
}

pub open spec fn rec_idx_of(s: Seq<RecordView>, id: Seq<char>) -> int
    recommends
        rec_has_id(s, id),
{
    choose|i: int| 0 <= i < s.len() && (#[trigger] s[i]).puzzle_id == id
}

pub open spec fn rec_at(s: Seq<RecordView>, id: Seq<char>) -> RecordView
    recommends
        rec_has_id(s, id),
{
    s[rec_idx_of(s, id)]
}

/// Upsert by natural key: full replacement of the row with the same id, or
/// an append when the id is new.
pub open spec fn upsert_rec(s: Seq<RecordView>, r: RecordView) -> Seq<RecordView> {
    if rec_has_id(s, r.puzzle_id) {
        s.update(rec_idx_of(s, r.puzzle_id), r)
    } else {
        s.push(r)
    }
}

/// The rows after upserting a batch in order.
pub open spec fn upsert_all(s: Seq<RecordView>, rows: Seq<RecordView>) -> Seq<RecordView>
    decreases rows.len(),
{
    if rows.len() == 0 {
        s
    } else {
        upsert_rec(upsert_all(s, rows.drop_last()), rows.last())
    }
}

/// What one upsert does: ids are preserved plus the new one, the upserted
/// row carries exactly the given value, all other rows are untouched.
pub proof fn lemma_upsert_rec(s: Seq<RecordView>, r: RecordView)
    requires
        records_ok(s),
    ensures
        records_ok(upsert_rec(s, r)),
        forall|id: Seq<char>|
            #[trigger] rec_has_id(upsert_rec(s, r), id) <==> rec_has_id(s, id) || id
                == r.puzzle_id,
        rec_has_id(upsert_rec(s, r), r.puzzle_id),
        rec_at(upsert_rec(s, r), r.puzzle_id) == r,
        forall|id: Seq<char>|
            rec_has_id(s, id) && id != r.puzzle_id ==> #[trigger] rec_at(upsert_rec(s, r), id)
                == rec_at(s, id),
        rec_has_id(s, r.puzzle_id) ==> upsert_rec(s, r).len() == s.len(),
        !rec_has_id(s, r.puzzle_id) ==> upsert_rec(s, r).len() == s.len() + 1,
{
    let t = upsert_rec(s, r);
    if rec_has_id(s, r.puzzle_id) {
        let i = rec_idx_of(s, r.puzzle_id);
        assert(0 <= i < s.len() && s[i].puzzle_id == r.puzzle_id);
        assert(forall|k: int| 0 <= k < s.len() && k != i ==> t[k] == s[k]);
        assert(t[i] == r);
        assert forall|a: int, b: int| 0 <= a < b < t.len() implies (#[trigger] t[a]).puzzle_id != (
        #[trigger] t[b]).puzzle_id by {
            assert(t[a].puzzle_id == s[a].puzzle_id || (a == i && t[a].puzzle_id == r.puzzle_id));
            assert(t[b].puzzle_id == s[b].puzzle_id || (b == i && t[b].puzzle_id == r.puzzle_id));
        }
        assert forall|id: Seq<char>| #[trigger] rec_has_id(t, id) implies rec_has_id(s, id) || id
            == r.puzzle_id by {
            let k = choose|k: int| 0 <= k < t.len() && (#[trigger] t[k]).puzzle_id == id;
            if k != i {
                assert(s[k].puzzle_id == id);
            }
        }
        assert(rec_has_id(t, r.puzzle_id)) by {
            assert(t[i].puzzle_id == r.puzzle_id);
        }
        assert(rec_at(t, r.puzzle_id) == r) by {
            let k = rec_idx_of(t, r.puzzle_id);
            if k != i {
                assert(t[k].puzzle_id == s[k].puzzle_id);
                assert(s[k].puzzle_id != s[i].puzzle_id);
            }
        }
        assert forall|id: Seq<char>| rec_has_id(s, id) && id != r.puzzle_id implies #[trigger] rec_at(
            t,
            id,
        ) == rec_at(s, id) by {
            let k = rec_idx_of(s, id);
            assert(0 <= k < s.len() && s[k].puzzle_id == id);
            assert(k != i);
            assert(t[k] == s[k]);
            assert(rec_has_id(t, id)) by {
                assert(t[k].puzzle_id == id);
            }
            let k2 = rec_idx_of(t, id);
            if k2 != k {
                assert(t[k2].puzzle_id == id && t[k].puzzle_id == id);
                assert(false);
            }
            let k3 = rec_idx_of(s, id);
            if k3 != k {
                assert(false);
            }
        }
    } else {
        assert(forall|k: int| 0 <= k < s.len() ==> t[k] == s[k]);
        assert(t[s.len() as int] == r);
        assert forall|a: int, b: int| 0 <= a < b < t.len() implies (#[trigger] t[a]).puzzle_id != (
        #[trigger] t[b]).puzzle_id by {
            if b == s.len() {
                if t[a].puzzle_id == r.puzzle_id {
                    assert(s[a].puzzle_id == r.puzzle_id);
                    assert(rec_has_id(s, r.puzzle_id));
                }
            }
        }
        assert forall|id: Seq<char>| #[trigger] rec_has_id(t, id) implies rec_has_id(s, id) || id
            == r.puzzle_id by {
            let k = choose|k: int| 0 <= k < t.len() && (#[trigger] t[k]).puzzle_id == id;
            if k < s.len() {
                assert(s[k].puzzle_id == id);
            }
        }
        assert(rec_has_id(t, r.puzzle_id)) by {
            assert(t[s.len() as int].puzzle_id == r.puzzle_id);
        }
        assert(rec_at(t, r.puzzle_id) == r) by {
            let k = rec_idx_of(t, r.puzzle_id);
            if k != s.len() as int {
                assert(s[k].puzzle_id == r.puzzle_id);
                assert(rec_has_id(s, r.puzzle_id));
            }
        }
        assert forall|id: Seq<char>| rec_has_id(s, id) && id != r.puzzle_id implies #[trigger] rec_at(
            t,
            id,
        ) == rec_at(s, id) by {
            let k = rec_idx_of(s, id);
            assert(t[k] == s[k]);
            assert(rec_has_id(t, id)) by {
                assert(t[k].puzzle_id == id);
            }
            let k2 = rec_idx_of(t, id);
            if k2 != k {
                if k2 == s.len() as int {
                    assert(t[k2].puzzle_id == r.puzzle_id);
                } else {
                    assert(false);
                }
            }
        }
    }
}

/// What a batch upsert does, row by row: every batch row ends up present
/// with the value of its last occurrence, and rows outside the batch are
/// untouched.
pub proof fn lemma_upsert_all(s: Seq<RecordView>, rows: Seq<RecordView>)
    requires
        records_ok(s),
    ensures
        records_ok(upsert_all(s, rows)),
        forall|id: Seq<char>|
            #[trigger] rec_has_id(upsert_all(s, rows), id) <==> rec_has_id(s, id) || exists|k: int|
                0 <= k < rows.len() && (#[trigger] rows[k]).puzzle_id == id,
        forall|k: int|
            0 <= k < rows.len() && (forall|l: int|
                k < l < rows.len() ==> (#[trigger] rows[l]).puzzle_id != rows[k].puzzle_id)
                ==> rec_has_id(upsert_all(s, rows), (#[trigger] rows[k]).puzzle_id) && rec_at(
                upsert_all(s, rows),
                rows[k].puzzle_id,
            ) == rows[k],
        forall|id: Seq<char>|
            rec_has_id(s, id) && !(exists|k: int|
                0 <= k < rows.len() && (#[trigger] rows[k]).puzzle_id == id) ==> #[trigger] rec_at(
                upsert_all(s, rows),
                id,
            ) == rec_at(s, id),
    decreases rows.len(),
{
    if rows.len() > 0 {
        lemma_upsert_all(s, rows.drop_last());
        let pre = upsert_all(s, rows.drop_last());
        let whole = upsert_all(s, rows);
        let last = rows.last();
        lemma_upsert_rec(pre, last);
        assert forall|id: Seq<char>| #[trigger] rec_has_id(whole, id) implies rec_has_id(s, id)
            || exists|k: int| 0 <= k < rows.len() && (#[trigger] rows[k]).puzzle_id == id by {
            if id == last.puzzle_id {
                assert(rows[rows.len() - 1].puzzle_id == id);
            } else {
                assert(rec_has_id(pre, id));
                if !rec_has_id(s, id) {
                    let k = choose|k: int|
                        0 <= k < rows.drop_last().len() && (
                        #[trigger] rows.drop_last()[k]).puzzle_id == id;
                    assert(rows[k].puzzle_id == id);
                }
            }
        }
        assert forall|id: Seq<char>|
            rec_has_id(s, id) || exists|k: int|
                0 <= k < rows.len() && (#[trigger] rows[k]).puzzle_id == id implies
            #[trigger] rec_has_id(whole, id) by {
            if id == last.puzzle_id {
            } else {
                if rec_has_id(s, id) {
                    assert(rec_has_id(pre, id));
                } else {
                    let k = choose|k: int|
                        0 <= k < rows.len() && (#[trigger] rows[k]).puzzle_id == id;
                    assert(k < rows.len() - 1);
                    assert(rows.drop_last()[k].puzzle_id == id);
                    assert(rec_has_id(pre, id));
                }
            }
        }
        assert forall|k: int|
            0 <= k < rows.len() && (forall|l: int|
                k < l < rows.len() ==> (#[trigger] rows[l]).puzzle_id != rows[k].puzzle_id)
                implies rec_has_id(whole, (#[trigger] rows[k]).puzzle_id) && rec_at(
            whole,
            rows[k].puzzle_id,
        ) == rows[k] by {
            if k == rows.len() - 1 {
            } else {
                // no later occurrence, so the last row has a different id
                assert(rows[rows.len() - 1].puzzle_id != rows[k].puzzle_id);
                assert(rows.drop_last()[k] == rows[k]);
                assert(forall|l: int|
                    k < l < rows.drop_last().len() ==> (#[trigger] rows.drop_last()[l]).puzzle_id
                        != rows.drop_last()[k].puzzle_id);
                assert(rec_at(pre, rows[k].puzzle_id) == rows[k]);
                assert(rec_at(whole, rows[k].puzzle_id) == rec_at(pre, rows[k].puzzle_id));
            }
        }
        assert forall|id: Seq<char>|
            rec_has_id(s, id) && !(exists|k: int|
                0 <= k < rows.len() && (#[trigger] rows[k]).puzzle_id == id) implies
            #[trigger] rec_at(whole, id) == rec_at(s, id) by {
            assert(rows[rows.len() - 1].puzzle_id != id);
            assert(forall|k: int|
                0 <= k < rows.drop_last().len() ==> (#[trigger] rows.drop_last()[k]).puzzle_id
                    != id) by {
                assert(forall|k: int|
                    0 <= k < rows.drop_last().len() ==> rows.drop_last()[k] == (
                    #[trigger] rows[k]));
            }
            assert(rec_at(pre, id) == rec_at(s, id));
            assert(rec_at(whole, id) == rec_at(pre, id));
        }
    }
}

/// Upserting rows that are already present with the same values changes
/// nothing.
pub proof fn lemma_upsert_all_noop(s: Seq<RecordView>, rows: Seq<RecordView>)
    requires
        records_ok(s),
        forall|k: int|
            0 <= k < rows.len() ==> rec_has_id(s, (#[trigger] rows[k]).puzzle_id) && rec_at(
                s,
                rows[k].puzzle_id,
            ) == rows[k],
    ensures
        upsert_all(s, rows) == s,
    decreases rows.len(),
{
    if rows.len() > 0 {
        assert(forall|k: int|
            0 <= k < rows.drop_last().len() ==> rows.drop_last()[k] == (#[trigger] rows[k]));
        lemma_upsert_all_noop(s, rows.drop_last());
        let last = rows.last();
        assert(rows[rows.len() - 1] == last);
        assert(rec_has_id(s, last.puzzle_id) && rec_at(s, last.puzzle_id) == last);
        let i = rec_idx_of(s, last.puzzle_id);
        assert(upsert_rec(s, last) == s.update(i, last));
        assert(s.update(i, last) =~= s);
    }
}

/// Idempotent re-sync: loading the same batch of upstream rows twice leaves
/// the staging rows exactly as one load leaves them. Upstream natural keys
/// are unique, which the batch inherits.
pub proof fn lemma_reindex_idempotent(s: Seq<RecordView>, rows: Seq<RecordView>)
    requires
        records_ok(s),
        forall|k: int, l: int|
            0 <= k < l < rows.len() ==> (#[trigger] rows[k]).puzzle_id != (
            #[trigger] rows[l]).puzzle_id,
    ensures
        upsert_all(upsert_all(s, rows), rows) == upsert_all(s, rows),
{
    lemma_upsert_all(s, rows);
    let s1 = upsert_all(s, rows);
    assert forall|k: int| 0 <= k < rows.len() implies rec_has_id(
        s1,
        (#[trigger] rows[k]).puzzle_id,
    ) && rec_at(s1, rows[k].puzzle_id) == rows[k] by {
        assert(forall|l: int|
            k < l < rows.len() ==> (#[trigger] rows[l]).puzzle_id != rows[k].puzzle_id);
    }
    lemma_upsert_all_noop(s1, rows);
}

pub struct StagingView {
    pub puzzles: Seq<RecordView>,
    pub last_updated: Option<u64>,
}

/// The staging store: the dataset mirror plus its bookkeeping metadata.
pub struct StagingStore {
    pub puzzles: Vec<PuzzleRecord>,
    pub last_updated: Option<u64>,
}

impl View for StagingStore {
    type V = StagingView;

    open spec fn view(&self) -> StagingView {
        StagingView {
            puzzles: self.puzzles@.map_values(|p: PuzzleRecord| p@),
            last_updated: self.last_updated,
        }
    }
}

/// The trimmed, non-empty match patterns of a tag criterion.
pub open spec fn valid_pats(ts: Seq<Seq<char>>) -> Seq<Seq<char>>
    decreases ts.len(),
{
    if ts.len() == 0 {
        Seq::empty()
    } else {
        let pre = valid_pats(ts.drop_last());
        let t = spec_trim(ts.last());
        if t.len() > 0 {
            pre.push(t)
        } else {
            pre
        }
    }
}

/// An "any of" tag clause: vacuously true when no valid pattern was given,
/// otherwise true when some pattern occurs in the field.
pub open spec fn or_clause(pats: Seq<Seq<char>>, field: Seq<char>) -> bool {
    pats.len() == 0 || exists|k: int|
        0 <= k < pats.len() && contains_ci_spec(field, #[trigger] pats[k])
}

pub open spec fn opt_tag_views(o: Option<Vec<String>>) -> Seq<Seq<char>> {
    match o {
        None => Seq::empty(),
        Some(v) => v.deep_view(),
    }
}

/// Whether a staging row satisfies the selection criteria (everything but
/// the result cap).
pub open spec fn matches_criteria(o: ImportOptions, r: RecordView) -> bool {
    &&& (o.min_rating is Some ==> r.rating >= o.min_rating.unwrap())
    &&& (o.max_rating is Some ==> r.rating <= o.max_rating.unwrap())
    &&& (o.min_popularity is Some ==> r.popularity >= o.min_popularity.unwrap())
    &&& (o.max_popularity is Some ==> r.popularity <= o.max_popularity.unwrap())
    &&& or_clause(valid_pats(opt_tag_views(o.themes)), r.themes)
    &&& or_clause(valid_pats(opt_tag_views(o.opening_tags)), crate::puzzle::opt_text(r.opening_tags))
}

/// The staging rows matching the criteria, in store order.
pub open spec fn filtered_recs(s: Seq<RecordView>, o: ImportOptions) -> Seq<RecordView>
    decreases s.len(),
{
    if s.len() == 0 {
        Seq::empty()
    } else {
        let pre = filtered_recs(s.drop_last(), o);
        if matches_criteria(o, s.last()) {
            pre.push(s.last())
        } else {
            pre
        }
    }
}

/// The selection the criteria compile to: the matching rows, capped at the
/// requested limit.
pub open spec fn spec_candidates(s: Seq<RecordView>, o: ImportOptions) -> Seq<RecordView> {
    let f = filtered_recs(s, o);
    match o.limit {
        Some(cap) => {
            if cap < f.len() {
                f.take(cap as int)
            } else {
                f
            }
        },
        None => f,
    }
}

/// Computes the trimmed, non-empty patterns of one tag criterion.
fn compute_pats(ts: &Vec<String>) -> (r: Vec<String>)
    ensures
        r.deep_view() == valid_pats(ts.deep_view()),
{
    let mut out: Vec<String> = Vec::new();
    proof {
        assert(out.deep_view() =~= Seq::<Seq<char>>::empty());
        assert(ts.deep_view().take(0) =~= Seq::<Seq<char>>::empty());
        assert(valid_pats(Seq::<Seq<char>>::empty()) == Seq::<Seq<char>>::empty());
    }
    let mut i: usize = 0;
    while i < ts.len()
        invariant
            i <= ts@.len(),
            ts.deep_view().len() == ts@.len(),
            out.deep_view() == valid_pats(ts.deep_view().take(i as int)),
        decreases ts@.len() - i,
    {
        let ghost prev = out.deep_view();
        proof {
            assert(ts.deep_view()[i as int] == ts@[i as int]@);
            assert(ts.deep_view().take(i + 1).drop_last() =~= ts.deep_view().take(i as int));
            assert(ts.deep_view().take(i + 1).last() == ts.deep_view()[i as int]);
        }
        let t = crate::text::trim_str(ts[i].as_str());
        if t.unicode_len() > 0 {
            out.push(t);
            assert(out.deep_view() =~= prev.push(spec_trim(ts.deep_view()[i as int])));
        }
        i += 1;
    }
    proof {
        assert(ts.deep_view().take(ts@.len() as int) =~= ts.deep_view());
    }
    out
}

/// Whether some pattern occurs in the field, the "any of" tag test.
fn or_matches(pats: &Vec<String>, field: &str) -> (r: bool)
    ensures
        r == or_clause(pats.deep_view(), field@),
{
    if pats.len() == 0 {
        return true;
    }
    let mut k: usize = 0;
    while k < pats.len()
        invariant
            k <= pats@.len(),
            pats.deep_view().len() == pats@.len(),
            forall|j: int|
                0 <= j < k ==> !contains_ci_spec(field@, #[trigger] pats.deep_view()[j]),
        decreases pats@.len() - k,
    {
        if crate::text::contains_ci(field, pats[k].as_str()) {
            assert(contains_ci_spec(field@, pats.deep_view()[k as int]));
            return true;
        }
        proof {
            assert(pats.deep_view()[k as int] == pats@[k as int]@);
        }
        k += 1;
    }
    false
}

impl StagingStore {
    /// A fresh, empty staging store.
    pub fn new() -> (r: StagingStore)
        ensures
            records_ok(r@.puzzles),
            r@.puzzles.len() == 0,
            r@.last_updated is None,
    {
        StagingStore { puzzles: Vec::new(), last_updated: None }
    }

    /// Upsert by natural key: replaces the row with the same id wholesale,
    /// or appends the row when its id is new.
    pub fn upsert(&mut self, rec: &PuzzleRecord)
        requires
            records_ok(old(self)@.puzzles),
        ensures
            records_ok(final(self)@.puzzles),
            final(self)@.puzzles == upsert_rec(old(self)@.puzzles, rec@),
            final(self)@.last_updated == old(self)@.last_updated,
    {
        let ghost orig = self@.puzzles;
        let mut i: usize = 0;
        while i < self.puzzles.len()
            invariant
                i <= self@.puzzles.len(),
                self@.puzzles == orig,
                self@.last_updated == old(self)@.last_updated,
                forall|j: int| 0 <= j < i ==> (#[trigger] orig[j]).puzzle_id != rec@.puzzle_id,
            decreases self@.puzzles.len() - i,
        {
            if crate::text::str_eq(self.puzzles[i].puzzle_id.as_str(), rec.puzzle_id.as_str()) {
                proof {
                    assert(orig[i as int].puzzle_id == rec@.puzzle_id);
                    let w = rec_idx_of(orig, rec@.puzzle_id);
                    if w != i as int {
                        assert(false);
                    }
                }
                self.puzzles[i] = rec.duplicate();
                proof {
                    assert(self@.puzzles =~= orig.update(i as int, rec@));
                    lemma_upsert_rec(orig, rec@);
                }
                return ;
            }
            i += 1;
        }
        self.puzzles.push(rec.duplicate());
        proof {
            assert(!rec_has_id(orig, rec@.puzzle_id));
            assert(self@.puzzles =~= orig.push(rec@));
            lemma_upsert_rec(orig, rec@);
        }
    }

    /// Writes the bookkeeping timestamp.
    pub fn set_last_updated(&mut self, now_millis: u64)
        ensures
            final(self)@.puzzles == old(self)@.puzzles,
            final(self)@.last_updated == Some(now_millis),
    {
        self.last_updated = Some(now_millis);
    }

    /// The criteria query: the matching rows in store order, capped at the
    /// requested limit, as one streamed selection.
    pub fn select_candidates(&self, o: &ImportOptions) -> (r: Vec<PuzzleRecord>)
        ensures
            r@.map_values(|p: PuzzleRecord| p@) == spec_candidates(self@.puzzles, *o),
    {
        let theme_pats = match &o.themes {
            Some(ts) => compute_pats(ts),
            None => Vec::new(),
        };
        let opening_pats = match &o.opening_tags {
            Some(ts) => compute_pats(ts),
            None => Vec::new(),
        };
        proof {
            match &o.themes {
                Some(ts) => {},
                None => {
                    assert(theme_pats.deep_view() =~= Seq::<Seq<char>>::empty());
                    assert(valid_pats(opt_tag_views(o.themes)) == Seq::<Seq<char>>::empty());
                },
            }
            match &o.opening_tags {
                Some(ts) => {},
                None => {
                    assert(opening_pats.deep_view() =~= Seq::<Seq<char>>::empty());
                    assert(valid_pats(opt_tag_views(o.opening_tags)) == Seq::<Seq<char>>::empty());
                },
            }
        }
        let mut out: Vec<PuzzleRecord> = Vec::new();
        let mut i: usize = 0;
        while i < self.puzzles.len()
            invariant
                i <= self@.puzzles.len(),
                theme_pats.deep_view() == valid_pats(opt_tag_views(o.themes)),
                opening_pats.deep_view() == valid_pats(opt_tag_views(o.opening_tags)),
                out@.map_values(|p: PuzzleRecord| p@) == filtered_recs(
                    self@.puzzles.take(i as int),
                    *o,
                ),
            decreases self@.puzzles.len() - i,
        {
            let ghost prev = out@.map_values(|p: PuzzleRecord| p@);
            let rec = &self.puzzles[i];
            let rating_ok = (match o.min_rating {
                Some(m) => rec.rating >= m,
                None => true,
            }) && (match o.max_rating {
                Some(m) => rec.rating <= m,
                None => true,
            });
            let pop_ok = (match o.min_popularity {
                Some(m) => rec.popularity >= m,
                None => true,
            }) && (match o.max_popularity {
                Some(m) => rec.popularity <= m,
                None => true,
            });
            let tags_ok = or_matches(&theme_pats, rec.themes.as_str()) && or_matches(
                &opening_pats,
                rec.opening_tags_str(),
            );
            if rating_ok && pop_ok && tags_ok {
                assert(matches_criteria(*o, self@.puzzles[i as int]));
                out.push(rec.duplicate());
                assert(out@.map_values(|p: PuzzleRecord| p@) =~= prev.push(
                    self@.puzzles[i as int],
                ));
            } else {
                assert(!matches_criteria(*o, self@.puzzles[i as int]));
            }
            proof {
                assert(self@.puzzles.take(i + 1).drop_last() =~= self@.puzzles.take(i as int));
                assert(self@.puzzles.take(i + 1).last() == self@.puzzles[i as int]);
            }
            i += 1;
        }
        proof {
            assert(self@.puzzles.take(self@.puzzles.len() as int) =~= self@.puzzles);
        }
        match o.limit {
            Some(cap) => {
                if cap < out.len() {
                    let ghost full = out@.map_values(|p: PuzzleRecord| p@);
                    out.truncate(cap);
                    proof {
                        assert(out@.map_values(|p: PuzzleRecord| p@) =~= full.take(cap as int));
                    }
                }
            },
            None => {},
        }
        out
    }
}

} // verus!
