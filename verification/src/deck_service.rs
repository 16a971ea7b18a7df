//! Deck-level operations: creation, listing with scheduling counts, deletion
//! with link cleanup, per-deck limits, and the deck export.

use vstd::prelude::*;

use std::collections::HashMap;

use crate::deck::{DeckCounts, DeckInfo, DeckLimitsPayload};
use crate::error::AnkiChessError;
use crate::host::{
    cards_without_nids, decks_without, nids_in_deck_spec, notes_without, ConfigView, DeckView,
    HostCollection, HostDeckConfig,
};
use crate::repo::{has_link, link_of, links_without, puzzle_at, PuzzleRepository};

verus! {

broadcast use vstd::std_specs::hash::group_hash_axioms;

/// The last-written scheduling counts per deck id.
pub open spec fn counts_map(nodes: Seq<DeckCounts>) -> Map<i64, DeckCounts>
    decreases nodes.len(),
{
    if nodes.len() == 0 {
        Map::empty()
    } else {
        counts_map(nodes.drop_last()).insert(nodes.last().deck_id, nodes.last())
    }
}

/// Indexes the flattened deck tree by deck id; a repeated id keeps the
/// last-listed counts.
pub fn flatten_deck_tree_into_map(nodes: &[DeckCounts]) -> (r: HashMap<i64, DeckCounts>)
    ensures
        r@ == counts_map(nodes@),
{
    let mut m: HashMap<i64, DeckCounts> = HashMap::new();
    let mut i: usize = 0;
    proof {
        assert(m@ =~= counts_map(nodes@.take(0)));
    }
    while i < nodes.len()
        invariant
            i <= nodes@.len(),
            m@ == counts_map(nodes@.take(i as int)),
        decreases nodes@.len() - i,
    {
        m.insert(nodes[i].deck_id, nodes[i]);
        proof {
            assert(nodes@.take(i + 1).drop_last() =~= nodes@.take(i as int));
            assert(nodes@.take(i + 1).last() == nodes@[i as int]);
        }
        i += 1;
    }
    proof {
        assert(nodes@.take(nodes@.len() as int) =~= nodes@);
    }
    m
}

/// How many decks use the given configuration.
pub open spec fn config_use_count(decks: Seq<DeckView>, cfg_id: i64) -> nat
    decreases decks.len(),
{
    if decks.len() == 0 {
        0
    } else {
        config_use_count(decks.drop_last(), cfg_id) + (if decks.last().config_id == cfg_id {
            1nat
        } else {
            0nat
        })
    }
}

/// The deck-level service.
pub struct DeckService;

impl DeckService {
    /// Returns the deck with this name, creating it when none exists.
    pub fn create_deck(host: &mut HostCollection, deck_name: &str) -> (r: Result<
        i64,
        AnkiChessError,
    >)
        requires
            old(host)@.wf(),
        ensures
            final(host)@.wf(),
            final(host)@.notes == old(host)@.notes,
            final(host)@.cards == old(host)@.cards,
            final(host)@.configs == old(host)@.configs,
            r is Ok ==> final(host)@.has_deck(r.unwrap()) && final(host)@.deck_at(
                r.unwrap(),
            ).name == deck_name@,
            old(host)@.has_deck_named(deck_name@) ==> r is Ok && final(host)@ == old(host)@,
            !old(host)@.has_deck_named(deck_name@) && old(host)@.next_id <= i64::MAX - 1 ==> r
                is Ok && final(host)@.decks == old(host)@.decks.push(
                DeckView { id: old(host)@.next_id, name: deck_name@, config_id: 1 },
            ) && final(host)@.next_id == old(host)@.next_id + 1,
            r is Err ==> final(host)@ == old(host)@ && r.unwrap_err() is DatabaseError,
    {
        host.get_or_create_deck(deck_name)
    }

    /// Lists every deck with its name and its scheduling counts from the
    /// host's flattened deck tree; a deck the tree does not mention shows
    /// zero counts.
    pub fn get_all_decks(host: &HostCollection, tree: &[DeckCounts]) -> (r: Vec<DeckInfo>)
        ensures
            r@.len() == host@.decks.len(),
            forall|i: int|
                0 <= i < r@.len() ==> {
                    let d = host@.decks[i];
                    let m = counts_map(tree@);
                    &&& (#[trigger] r@[i])@.id == d.id
                    &&& r@[i]@.name == d.name
                    &&& (m.contains_key(d.id) ==> r@[i]@.new_count == m[d.id].new_count
                        && r@[i]@.learn_count == m[d.id].learn_count && r@[i]@.due_count
                        == m[d.id].review_count)
                    &&& (!m.contains_key(d.id) ==> r@[i]@.new_count == 0 && r@[i]@.learn_count == 0
                        && r@[i]@.due_count == 0)
                },
    {
        let m = flatten_deck_tree_into_map(tree);
        let mut out: Vec<DeckInfo> = Vec::new();
        let mut i: usize = 0;
        while i < host.decks.len()
            invariant
                i <= host@.decks.len(),
                m@ == counts_map(tree@),
                out@.len() == i,
                forall|k: int|
                    0 <= k < i ==> {
                        let d = host@.decks[k];
                        let cm = counts_map(tree@);
                        &&& (#[trigger] out@[k])@.id == d.id
                        &&& out@[k]@.name == d.name
                        &&& (cm.contains_key(d.id) ==> out@[k]@.new_count == cm[d.id].new_count
                            && out@[k]@.learn_count == cm[d.id].learn_count && out@[k]@.due_count
                            == cm[d.id].review_count)
                        &&& (!cm.contains_key(d.id) ==> out@[k]@.new_count == 0
                            && out@[k]@.learn_count == 0 && out@[k]@.due_count == 0)
                    },
            decreases host@.decks.len() - i,
        {
            let d = &host.decks[i];
            let (new_count, learn_count, due_count) = match m.get(&d.id) {
                Some(c) => (c.new_count, c.learn_count, c.review_count),
                None => (0, 0, 0),
            };
            out.push(
                DeckInfo { id: d.id, name: d.name.clone(), new_count, learn_count, due_count },
            );
            i += 1;
        }
        out
    }

    /// Deletes a deck: removes the links of every note in it inside one
    /// repository transaction, removes those host records, then drops the
    /// deck itself. Puzzle rows are never deleted here; orphan collection
    /// reclaims them.
    pub fn delete_deck(
        repo: &mut PuzzleRepository,
        host: &mut HostCollection,
        deck_id: i64,
    ) -> (r: Result<(), AnkiChessError>)
        requires
            old(repo)@.wf(),
            old(host)@.wf(),
        ensures
            final(repo)@.wf(),
            final(host)@.wf(),
            r is Ok,
            ({
                let nids = nids_in_deck_spec(old(host)@.cards, deck_id);
                &&& final(repo)@.puzzles == old(repo)@.puzzles
                &&& final(repo)@.links == links_without(old(repo)@.links, nids)
                &&& final(host)@.notes == notes_without(old(host)@.notes, nids)
                &&& final(host)@.cards == cards_without_nids(old(host)@.cards, nids)
                &&& final(host)@.decks == decks_without(old(host)@.decks, deck_id)
                &&& !final(host)@.has_deck(deck_id)
            }),
    {
        let nids = host.nids_in_deck(deck_id);
        repo.delete_links(nids.as_slice())?;
        host.remove_notes(nids.as_slice());
        host.remove_deck_row(deck_id);
        Ok(())
    }

    /// The scheduling limits of the deck's configuration. `NotFound` when
    /// the deck or its configuration is missing.
    pub fn get_deck_limits(host: &HostCollection, deck_id: i64) -> (r: Result<
        DeckLimitsPayload,
        AnkiChessError,
    >)
        requires
            host@.wf(),
        ensures
            !host@.has_deck(deck_id) ==> r is Err && r.unwrap_err() is NotFound,
            host@.has_deck(deck_id) && !host@.has_config(host@.deck_at(deck_id).config_id) ==> r
                is Err && r.unwrap_err() is NotFound,
            host@.has_deck(deck_id) && host@.has_config(host@.deck_at(deck_id).config_id) ==> r
                is Ok && r.unwrap().new_cards_per_day == host@.config_at(
                host@.deck_at(deck_id).config_id,
            ).new_per_day && r.unwrap().reviews_per_day == host@.config_at(
                host@.deck_at(deck_id).config_id,
            ).reviews_per_day,
    {
        let cfg_id = match Self::find_deck_config_id(host, deck_id) {
            Some(c) => c,
            None => {
                return Err(AnkiChessError::NotFound(String::from_str("deck not found")));
            },
        };
        match Self::find_config_index(host, cfg_id) {
            Some(ci) => Ok(
                DeckLimitsPayload {
                    new_cards_per_day: host.configs[ci].new_per_day,
                    reviews_per_day: host.configs[ci].reviews_per_day,
                },
            ),
            None => Err(
                AnkiChessError::NotFound(String::from_str("deck configuration not found")),
            ),
        }
    }

    /// Writes the scheduling limits of the deck. A configuration shared by
    /// several decks — or the default one — is cloned first, so the change
    /// touches this deck alone; a private configuration is edited in place.
    pub fn set_deck_limits(
        host: &mut HostCollection,
        deck_id: i64,
        limits: DeckLimitsPayload,
    ) -> (r: Result<(), AnkiChessError>)
        requires
            old(host)@.wf(),
        ensures
            final(host)@.wf(),
            final(host)@.notes == old(host)@.notes,
            final(host)@.cards == old(host)@.cards,
            final(host)@.has_basic_notetype == old(host)@.has_basic_notetype,
            !old(host)@.has_deck(deck_id) ==> r is Err && r.unwrap_err() is NotFound
                && final(host)@ == old(host)@,
            r is Err ==> r.unwrap_err() is NotFound || r.unwrap_err() is DatabaseError,
            r is Ok ==> {
                let h0 = old(host)@;
                let d = h0.deck_at(deck_id);
                let cfg = d.config_id;
                let di = crate::host::deck_idx(h0.decks, deck_id);
                let shared = config_use_count(h0.decks, cfg) > 1 || cfg == 1;
                &&& h0.has_deck(deck_id)
                &&& h0.has_config(cfg)
                &&& (shared ==> final(host)@.configs == h0.configs.push(
                    ConfigView {
                        id: h0.next_id,
                        name: d.name + " (Custom)"@,
                        new_per_day: limits.new_cards_per_day,
                        reviews_per_day: limits.reviews_per_day,
                    },
                ) && final(host)@.decks == h0.decks.update(
                    di,
                    DeckView { config_id: h0.next_id, ..d },
                ) && final(host)@.next_id == h0.next_id + 1)
                &&& (!shared ==> final(host)@.decks == h0.decks && final(host)@.configs
                    == h0.configs.update(
                    crate::host::config_idx(h0.configs, cfg),
                    ConfigView {
                        new_per_day: limits.new_cards_per_day,
                        reviews_per_day: limits.reviews_per_day,
                        ..h0.config_at(cfg)
                    },
                ) && final(host)@.next_id == h0.next_id)
            },
    {
        let ghost h0 = host@;
        let (di, cfg_id) = match Self::find_deck_index(host, deck_id) {
            Some(p) => p,
            None => {
                return Err(AnkiChessError::NotFound(String::from_str("deck not found")));
            },
        };
        let ci = match Self::find_config_index(host, cfg_id) {
            Some(ci) => ci,
            None => {
                return Err(
                    AnkiChessError::NotFound(String::from_str("deck configuration not found")),
                );
            },
        };
        let use_count = Self::count_config_users(host, cfg_id);
        let shared = use_count > 1 || cfg_id == 1;
        if shared {
            if host.next_id > i64::MAX - 1 {
                return Err(
                    AnkiChessError::DatabaseError(String::from_str("identifier space exhausted")),
                );
            }
            let new_id = host.next_id;
            let mut name = host.decks[di].name.clone();
            name.append(" (Custom)");
            let ghost cfgv = ConfigView {
                id: h0.next_id,
                name: h0.deck_at(deck_id).name + " (Custom)"@,
                new_per_day: limits.new_cards_per_day,
                reviews_per_day: limits.reviews_per_day,
            };
            host.configs.push(
                HostDeckConfig {
                    id: new_id,
                    name,
                    new_per_day: limits.new_cards_per_day,
                    reviews_per_day: limits.reviews_per_day,
                },
            );
            let d = &host.decks[di];
            let updated = crate::host::HostDeck {
                id: d.id,
                name: d.name.clone(),
                config_id: new_id,
            };
            host.decks[di] = updated;
            host.next_id = new_id + 1;
            proof {
                assert(host@.configs =~= h0.configs.push(cfgv));
                crate::host::lemma_configs_ok_push(h0.configs, cfgv, h0.next_id, host@.next_id);
                assert(host@.decks =~= h0.decks.update(
                    di as int,
                    DeckView { config_id: h0.next_id, ..h0.deck_at(deck_id) },
                ));
                assert forall|a: int, b: int| 0 <= a < b < host@.decks.len() implies (
                #[trigger] host@.decks[a]).id != (#[trigger] host@.decks[b]).id by {
                    assert(host@.decks[a].id == h0.decks[a].id);
                    assert(host@.decks[b].id == h0.decks[b].id);
                }
                assert forall|a: int| 0 <= a < host@.decks.len() implies (
                #[trigger] host@.decks[a]).id < host@.next_id by {
                    assert(host@.decks[a].id == h0.decks[a].id);
                }
                assert(host@.notes =~= h0.notes);
                assert(host@.cards =~= h0.cards);
            }
            Ok(())
        } else {
            let c = &host.configs[ci];
            let updated = HostDeckConfig {
                id: c.id,
                name: c.name.clone(),
                new_per_day: limits.new_cards_per_day,
                reviews_per_day: limits.reviews_per_day,
            };
            host.configs[ci] = updated;
            proof {
                assert(host@.configs =~= h0.configs.update(
                    ci as int,
                    ConfigView {
                        new_per_day: limits.new_cards_per_day,
                        reviews_per_day: limits.reviews_per_day,
                        ..h0.config_at(cfg_id)
                    },
                ));
                assert forall|a: int, b: int| 0 <= a < b < host@.configs.len() implies (
                #[trigger] host@.configs[a]).id != (#[trigger] host@.configs[b]).id by {
                    assert(host@.configs[a].id == h0.configs[a].id);
                    assert(host@.configs[b].id == h0.configs[b].id);
                }
                assert forall|a: int| 0 <= a < host@.configs.len() implies (
                #[trigger] host@.configs[a]).id < host@.next_id by {
                    assert(host@.configs[a].id == h0.configs[a].id);
                }
                assert(host@.notes =~= h0.notes);
                assert(host@.cards =~= h0.cards);
                assert(host@.decks =~= h0.decks);
            }
            Ok(())
        }
    }

    /// The rows the deck export writes — position, solution, note — encoded
    /// as delimited text, with the row count.
    pub fn export_deck_csv(
        repo: &PuzzleRepository,
        host: &HostCollection,
        deck_id: i64,
    ) -> (r: Result<(String, usize), AnkiChessError>)
        requires
            repo@.wf(),
            host@.wf(),
        ensures
            r is Ok,
            ({
                let rows = export_rows(repo@, nids_in_deck_spec(host@.cards, deck_id));
                &&& r.unwrap().0@ == crate::codec::csv_encoding_of(rows)
                &&& r.unwrap().1 == rows.len()
            }),
    {
        let nids = host.nids_in_deck(deck_id);
        let mut rows: Vec<Vec<String>> = Vec::new();
        let mut i: usize = 0;
        proof {
            assert(rows.deep_view() =~= export_rows(repo@, nids@.take(0)));
        }
        while i < nids.len()
            invariant
                i <= nids@.len(),
                repo@.wf(),
                rows.deep_view() == export_rows(repo@, nids@.take(i as int)),
            decreases nids@.len() - i,
        {
            let ghost prev = rows.deep_view();
            proof {
                assert(nids@.take(i + 1).drop_last() =~= nids@.take(i as int));
                assert(nids@.take(i + 1).last() == nids@[i as int]);
            }
            match repo.get_by_nid(nids[i])? {
                Some(p) => {
                    let row = vec![p.fen, p.moves, p.comment];
                    rows.push(row);
                    proof {
                        let rowv = seq![
                            puzzle_at(repo@.puzzles, link_of(repo@.links, nids@[i as int])).fen,
                            puzzle_at(repo@.puzzles, link_of(repo@.links, nids@[i as int])).moves,
                            puzzle_at(
                                repo@.puzzles,
                                link_of(repo@.links, nids@[i as int]),
                            ).comment,
                        ];
                        assert(rows.deep_view()[prev.len() as int] =~= rowv);
                        assert(rows.deep_view() =~= prev.push(rowv));
                    }
                },
                None => {},
            }
            i += 1;
        }
        proof {
            assert(nids@.take(nids@.len() as int) =~= nids@);
        }
        let count = rows.len();
        let text = crate::codec::csv_encode(&rows);
        proof {
            assert(export_rows(repo@, nids@).len() == rows@.len());
        }
        Ok((text, count))
    }

    /// The configuration id of the deck, if the deck exists.
    fn find_deck_config_id(host: &HostCollection, deck_id: i64) -> (r: Option<i64>)
        requires
            host@.wf(),
        ensures
            r is Some <==> host@.has_deck(deck_id),
            r is Some ==> r.unwrap() == host@.deck_at(deck_id).config_id,
    {
        match Self::find_deck_index(host, deck_id) {
            Some((_, cfg)) => Some(cfg),
            None => None,
        }
    }

    /// The index and configuration id of the deck, if the deck exists.
    fn find_deck_index(host: &HostCollection, deck_id: i64) -> (r: Option<(usize, i64)>)
        requires
            host@.wf(),
        ensures
            r is Some <==> host@.has_deck(deck_id),
            r is Some ==> 0 <= r.unwrap().0 < host@.decks.len() && host@.decks[r.unwrap().0 as int].id
                == deck_id && r.unwrap().0 as int == crate::host::deck_idx(host@.decks, deck_id)
                && r.unwrap().1 == host@.deck_at(deck_id).config_id,
    {
        let mut i: usize = 0;
        while i < host.decks.len()
            invariant
                i <= host@.decks.len(),
                forall|j: int| 0 <= j < i ==> (#[trigger] host@.decks[j]).id != deck_id,
            decreases host@.decks.len() - i,
        {
            if host.decks[i].id == deck_id {
                proof {
                    assert(host@.decks[i as int].id == deck_id);
                    let w = crate::host::deck_idx(host@.decks, deck_id);
                    if w != i as int {
                        assert(false);
                    }
                    let w2 = choose|w2: int|
                        0 <= w2 < host@.decks.len() && (#[trigger] host@.decks[w2]).id == deck_id;
                    if w2 != i as int {
                        assert(false);
                    }
                }
                return Some((i, host.decks[i].config_id));
            }
            i += 1;
        }
        None
    }

    /// The index of the configuration with this id, if any.
    fn find_config_index(host: &HostCollection, cfg_id: i64) -> (r: Option<usize>)
        requires
            host@.wf(),
        ensures
            r is Some <==> host@.has_config(cfg_id),
            r is Some ==> 0 <= r.unwrap() < host@.configs.len() && host@.configs[r.unwrap() as int].id
                == cfg_id && r.unwrap() as int == crate::host::config_idx(host@.configs, cfg_id)
                && host@.configs[r.unwrap() as int] == host@.config_at(cfg_id),
    {
        let mut i: usize = 0;
        while i < host.configs.len()
            invariant
                i <= host@.configs.len(),
                forall|j: int| 0 <= j < i ==> (#[trigger] host@.configs[j]).id != cfg_id,
            decreases host@.configs.len() - i,
        {
            if host.configs[i].id == cfg_id {
                proof {
                    assert(host@.configs[i as int].id == cfg_id);
                    let w = crate::host::config_idx(host@.configs, cfg_id);
                    if w != i as int {
                        assert(false);
                    }
                    let w2 = choose|w2: int|
                        0 <= w2 < host@.configs.len() && (#[trigger] host@.configs[w2]).id
                            == cfg_id;
                    if w2 != i as int {
                        assert(false);
                    }
                }
                return Some(i);
            }
            i += 1;
        }
        None
    }

    /// How many decks share the configuration.
    fn count_config_users(host: &HostCollection, cfg_id: i64) -> (r: usize)
        ensures
            r == config_use_count(host@.decks, cfg_id),
    {
        let mut count: usize = 0;
        let mut i: usize = 0;
        proof {
            assert(config_use_count(host@.decks.take(0), cfg_id) == 0);
        }
        while i < host.decks.len()
            invariant
                i <= host@.decks.len(),
                count == config_use_count(host@.decks.take(i as int), cfg_id),
                count <= i,
            decreases host@.decks.len() - i,
        {
            proof {
                assert(host@.decks.take(i + 1).drop_last() =~= host@.decks.take(i as int));
                assert(host@.decks.take(i + 1).last() == host@.decks[i as int]);
            }
            if host.decks[i].config_id == cfg_id {
                count += 1;
            }
            i += 1;
        }
        proof {
            assert(host@.decks.take(host@.decks.len() as int) =~= host@.decks);
        }
        count
    }
}

/// The export rows of the given host records, in order: position, solution
/// and note of each linked puzzle; unlinked records contribute nothing.
pub open spec fn export_rows(repo: crate::repo::RepoView, nids: Seq<i64>) -> Seq<Seq<Seq<char>>>
    decreases nids.len(),
{
    if nids.len() == 0 {
        Seq::empty()
    } else {
        let pre = export_rows(repo, nids.drop_last());
        let nid = nids.last();
        if has_link(repo.links, nid) {
            let p = puzzle_at(repo.puzzles, link_of(repo.links, nid));
            pre.push(seq![p.fen, p.moves, p.comment])
        } else {
            pre
        }
    }
}

} // verus!
