//! An in-memory model of the host collection at its interface boundary:
//! decks (scopes), notes and cards (host records) and deck configurations.
//! Scheduling is the host's own business and is not modelled.

use vstd::prelude::*;

use crate::error::AnkiChessError;

verus! {

/// A scope (deck) of the host collection.
pub struct HostDeck {
    pub id: i64,
    pub name: String,
    pub config_id: i64,
}

pub struct DeckView {
    pub id: i64,
    pub name: Seq<char>,
    pub config_id: i64,
}

impl View for HostDeck {
    type V = DeckView;

    open spec fn view(&self) -> DeckView {
        DeckView { id: self.id, name: self.name@, config_id: self.config_id }
    }
}

/// A host record (note): the identifier the `links` table points at.
pub struct HostNote {
    pub id: i64,
    pub sfld: String,
}

pub struct NoteView {
    pub id: i64,
    pub sfld: Seq<char>,
}

impl View for HostNote {
    type V = NoteView;

    open spec fn view(&self) -> NoteView {
        NoteView { id: self.id, sfld: self.sfld@ }
    }
}

/// A card: the scope membership of a note.
#[derive(Clone, Copy, PartialEq, Eq, Structural, Debug)]
pub struct HostCard {
    pub id: i64,
    pub nid: i64,
    pub did: i64,
}

/// Per-deck scheduling limits configuration.
pub struct HostDeckConfig {
    pub id: i64,
    pub name: String,
    pub new_per_day: u32,
    pub reviews_per_day: u32,
}

pub struct ConfigView {
    pub id: i64,
    pub name: Seq<char>,
    pub new_per_day: u32,
    pub reviews_per_day: u32,
}

impl View for HostDeckConfig {
    type V = ConfigView;

    open spec fn view(&self) -> ConfigView {
        ConfigView {
            id: self.id,
            name: self.name@,
            new_per_day: self.new_per_day,
            reviews_per_day: self.reviews_per_day,
        }
    }
}

pub struct HostView {
    pub decks: Seq<DeckView>,
    pub notes: Seq<NoteView>,
    pub cards: Seq<HostCard>,
    pub configs: Seq<ConfigView>,
    pub next_id: i64,
    pub has_basic_notetype: bool,
}

/// The host collection: every mutation goes through methods that keep all
/// identifiers unique and below `next_id`.
pub struct HostCollection {
    pub decks: Vec<HostDeck>,
    pub notes: Vec<HostNote>,
    pub cards: Vec<HostCard>,
    pub configs: Vec<HostDeckConfig>,
    pub next_id: i64,
    pub has_basic_notetype: bool,
}

impl View for HostCollection {
    type V = HostView;

    open spec fn view(&self) -> HostView {
        HostView {
            decks: self.decks@.map_values(|d: HostDeck| d@),
            notes: self.notes@.map_values(|n: HostNote| n@),
            cards: self.cards@,
            configs: self.configs@.map_values(|c: HostDeckConfig| c@),
            next_id: self.next_id,
            has_basic_notetype: self.has_basic_notetype,
        }
    }
}

/// The index of the deck row with the given id.
pub open spec fn deck_idx(s: Seq<DeckView>, did: i64) -> int {
    choose|i: int| 0 <= i < s.len() && (#[trigger] s[i]).id == did
}

/// The index of the configuration row with the given id.
pub open spec fn config_idx(s: Seq<ConfigView>, cfg_id: i64) -> int {
    choose|i: int| 0 <= i < s.len() && (#[trigger] s[i]).id == cfg_id
}

/// Deck ids are distinct and below the id counter.
pub open spec fn decks_ok(s: Seq<DeckView>, next_id: i64) -> bool {
    &&& forall|i: int, j: int|
        0 <= i < j < s.len() ==> (#[trigger] s[i]).id != (#[trigger] s[j]).id
    &&& forall|i: int| 0 <= i < s.len() ==> (#[trigger] s[i]).id < next_id
}

/// Note ids are distinct and below the id counter.
pub open spec fn notes_ok(s: Seq<NoteView>, next_id: i64) -> bool {
    &&& forall|i: int, j: int|
        0 <= i < j < s.len() ==> (#[trigger] s[i]).id != (#[trigger] s[j]).id
    &&& forall|i: int| 0 <= i < s.len() ==> (#[trigger] s[i]).id < next_id
}

/// Card ids are distinct and below the id counter.
pub open spec fn cards_ok(s: Seq<HostCard>, next_id: i64) -> bool {
    &&& forall|i: int, j: int|
        0 <= i < j < s.len() ==> (#[trigger] s[i]).id != (#[trigger] s[j]).id
    &&& forall|i: int| 0 <= i < s.len() ==> (#[trigger] s[i]).id < next_id
}

/// Config ids are distinct and below the id counter.
pub open spec fn configs_ok(s: Seq<ConfigView>, next_id: i64) -> bool {
    &&& forall|i: int, j: int|
        0 <= i < j < s.len() ==> (#[trigger] s[i]).id != (#[trigger] s[j]).id
    &&& forall|i: int| 0 <= i < s.len() ==> (#[trigger] s[i]).id < next_id
}

impl HostView {
    pub open spec fn wf(self) -> bool {
        &&& decks_ok(self.decks, self.next_id)
        &&& notes_ok(self.notes, self.next_id)
        &&& cards_ok(self.cards, self.next_id)
        &&& configs_ok(self.configs, self.next_id)
        &&& self.next_id >= 1
    }

    pub open spec fn has_deck(self, did: i64) -> bool {
        exists|i: int| 0 <= i < self.decks.len() && (#[trigger] self.decks[i]).id == did
    }

    pub open spec fn deck_at(self, did: i64) -> DeckView
        recommends
            self.has_deck(did),
    {
        self.decks[deck_idx(self.decks, did)]
    }

    pub open spec fn has_deck_named(self, name: Seq<char>) -> bool {
        exists|i: int| 0 <= i < self.decks.len() && (#[trigger] self.decks[i]).name == name
    }

    pub open spec fn has_note(self, nid: i64) -> bool {
        exists|i: int| 0 <= i < self.notes.len() && (#[trigger] self.notes[i]).id == nid
    }

    pub open spec fn has_card(self, cid: i64) -> bool {
        exists|i: int| 0 <= i < self.cards.len() && (#[trigger] self.cards[i]).id == cid
    }

    pub open spec fn card_at(self, cid: i64) -> HostCard
        recommends
            self.has_card(cid),
    {
        self.cards[choose|i: int| 0 <= i < self.cards.len() && (#[trigger] self.cards[i]).id == cid]
    }

    pub open spec fn has_config(self, cfg_id: i64) -> bool {
        exists|i: int| 0 <= i < self.configs.len() && (#[trigger] self.configs[i]).id == cfg_id
    }

    pub open spec fn config_at(self, cfg_id: i64) -> ConfigView
        recommends
            self.has_config(cfg_id),
    {
        self.configs[config_idx(self.configs, cfg_id)]
    }

    /// A note belongs to the scope `did` when one of its cards does.
    pub open spec fn note_in_deck(self, nid: i64, did: i64) -> bool {
        exists|i: int|
            0 <= i < self.cards.len() && (#[trigger] self.cards[i]).nid == nid && self.cards[i].did
                == did
    }
}

pub proof fn lemma_decks_ok_grow(s: Seq<DeckView>, a: i64, b: i64)
    requires
        decks_ok(s, a),
        a <= b,
    ensures
        decks_ok(s, b),
{
}

pub proof fn lemma_decks_ok_push(s: Seq<DeckView>, d: DeckView, a: i64, b: i64)
    requires
        decks_ok(s, a),
        a <= d.id < b,
    ensures
        decks_ok(s.push(d), b),
{
    let t = s.push(d);
    assert(forall|i: int| 0 <= i < s.len() ==> t[i] == s[i]);
    assert(t[s.len() as int] == d);
}

pub proof fn lemma_notes_ok_push(s: Seq<NoteView>, d: NoteView, a: i64, b: i64)
    requires
        notes_ok(s, a),
        a <= d.id < b,
    ensures
        notes_ok(s.push(d), b),
{
    let t = s.push(d);
    assert(forall|i: int| 0 <= i < s.len() ==> t[i] == s[i]);
    assert(t[s.len() as int] == d);
}

pub proof fn lemma_cards_ok_push(s: Seq<HostCard>, d: HostCard, a: i64, b: i64)
    requires
        cards_ok(s, a),
        a <= d.id < b,
    ensures
        cards_ok(s.push(d), b),
{
    let t = s.push(d);
    assert(forall|i: int| 0 <= i < s.len() ==> t[i] == s[i]);
    assert(t[s.len() as int] == d);
}

pub proof fn lemma_configs_ok_push(s: Seq<ConfigView>, d: ConfigView, a: i64, b: i64)
    requires
        configs_ok(s, a),
        a <= d.id < b,
    ensures
        configs_ok(s.push(d), b),
{
    let t = s.push(d);
    assert(forall|i: int| 0 <= i < s.len() ==> t[i] == s[i]);
    assert(t[s.len() as int] == d);
}

/// The distinct note ids with a card in the scope, in first-occurrence
/// order.
pub open spec fn nids_in_deck_spec(cards: Seq<HostCard>, did: i64) -> Seq<i64>
    decreases cards.len(),
{
    if cards.len() == 0 {
        Seq::empty()
    } else {
        let pre = nids_in_deck_spec(cards.drop_last(), did);
        if cards.last().did == did && !pre.contains(cards.last().nid) {
            pre.push(cards.last().nid)
        } else {
            pre
        }
    }
}

/// The decks kept after removing the one with the given id.
pub open spec fn decks_without(s: Seq<DeckView>, did: i64) -> Seq<DeckView>
    decreases s.len(),
{
    if s.len() == 0 {
        Seq::empty()
    } else {
        let pre = decks_without(s.drop_last(), did);
        if s.last().id == did {
            pre
        } else {
            pre.push(s.last())
        }
    }
}

/// Removal keeps decks well-formed: what stays was already there, and the
/// removed deck is gone.
pub proof fn lemma_decks_without_ok(s: Seq<DeckView>, did: i64, n: i64)
    requires
        decks_ok(s, n),
    ensures
        decks_ok(decks_without(s, did), n),
        forall|i: int|
            0 <= i < decks_without(s, did).len() ==> exists|j: int|
                0 <= j < s.len() && s[j] == #[trigger] decks_without(s, did)[i],
        !has_deck_in(decks_without(s, did), did),
    decreases s.len(),
{
    if s.len() > 0 {
        assert(decks_ok(s.drop_last(), n)) by {
            assert(forall|i: int| 0 <= i < s.drop_last().len() ==> s.drop_last()[i] == s[i]);
        }
        lemma_decks_without_ok(s.drop_last(), did, n);
        let pre = decks_without(s.drop_last(), did);
        let whole = decks_without(s, did);
        assert forall|i: int| 0 <= i < whole.len() implies exists|j: int|
            0 <= j < s.len() && s[j] == #[trigger] whole[i] by {
            if i < pre.len() {
                let j = choose|j: int| 0 <= j < s.drop_last().len() && s.drop_last()[j] == pre[i];
                assert(s[j] == whole[i]);
            } else {
                assert(s[s.len() - 1] == whole[i]);
            }
        }
        assert forall|a: int, b: int| 0 <= a < b < whole.len() implies (#[trigger] whole[a]).id
            != (#[trigger] whole[b]).id by {
            if b == pre.len() {
                assert(whole[b] == s.last());
                let j2 = choose|j2: int| 0 <= j2 < s.drop_last().len() && s.drop_last()[j2] == pre[a];
                assert(s[j2].id != s[s.len() - 1].id);
            }
        }
        assert forall|i: int| 0 <= i < whole.len() implies (#[trigger] whole[i]).id < n by {
            let j = choose|j: int| 0 <= j < s.len() && s[j] == whole[i];
        }
        if has_deck_in(whole, did) {
            let i = choose|i: int| 0 <= i < whole.len() && (#[trigger] whole[i]).id == did;
            if i < pre.len() {
            } else {
                assert(whole[i] == s.last());
            }
        }
    }
}

/// Whether some deck row in the sequence has the given id.
pub open spec fn has_deck_in(s: Seq<DeckView>, did: i64) -> bool {
    exists|i: int| 0 <= i < s.len() && (#[trigger] s[i]).id == did
}

/// The notes kept after removing the given note ids.
pub open spec fn notes_without(s: Seq<NoteView>, nids: Seq<i64>) -> Seq<NoteView>
    decreases s.len(),
{
    if s.len() == 0 {
        Seq::empty()
    } else {
        let pre = notes_without(s.drop_last(), nids);
        if nids.contains(s.last().id) {
            pre
        } else {
            pre.push(s.last())
        }
    }
}

/// The cards kept after removing every card of the given notes.
pub open spec fn cards_without_nids(s: Seq<HostCard>, nids: Seq<i64>) -> Seq<HostCard>
    decreases s.len(),
{
    if s.len() == 0 {
        Seq::empty()
    } else {
        let pre = cards_without_nids(s.drop_last(), nids);
        if nids.contains(s.last().nid) {
            pre
        } else {
            pre.push(s.last())
        }
    }
}

/// Removal keeps notes well-formed: what stays was already there.
pub proof fn lemma_notes_without_ok(s: Seq<NoteView>, nids: Seq<i64>, n: i64)
    requires
        notes_ok(s, n),
    ensures
        notes_ok(notes_without(s, nids), n),
        forall|i: int|
            0 <= i < notes_without(s, nids).len() ==> exists|j: int|
                0 <= j < s.len() && s[j] == #[trigger] notes_without(s, nids)[i],
    decreases s.len(),
{
    if s.len() > 0 {
        assert(notes_ok(s.drop_last(), n)) by {
            assert(forall|i: int| 0 <= i < s.drop_last().len() ==> s.drop_last()[i] == s[i]);
        }
        lemma_notes_without_ok(s.drop_last(), nids, n);
        let pre = notes_without(s.drop_last(), nids);
        let whole = notes_without(s, nids);
        assert forall|i: int| 0 <= i < whole.len() implies exists|j: int|
            0 <= j < s.len() && s[j] == #[trigger] whole[i] by {
            if i < pre.len() {
                let j = choose|j: int| 0 <= j < s.drop_last().len() && s.drop_last()[j] == pre[i];
                assert(s[j] == whole[i]);
            } else {
                assert(s[s.len() - 1] == whole[i]);
            }
        }
        assert forall|a: int, b: int| 0 <= a < b < whole.len() implies (#[trigger] whole[a]).id
            != (#[trigger] whole[b]).id by {
            if b == pre.len() {
                assert(whole[b] == s.last());
                let j2 = choose|j2: int| 0 <= j2 < s.drop_last().len() && s.drop_last()[j2] == pre[a];
                assert(s[j2].id != s[s.len() - 1].id);
            }
        }
        assert forall|i: int| 0 <= i < whole.len() implies (#[trigger] whole[i]).id < n by {
            let j = choose|j: int| 0 <= j < s.len() && s[j] == whole[i];
        }
    }
}

pub proof fn lemma_cards_without_ok(s: Seq<HostCard>, nids: Seq<i64>, n: i64)
    requires
        cards_ok(s, n),
    ensures
        cards_ok(cards_without_nids(s, nids), n),
        forall|i: int|
            0 <= i < cards_without_nids(s, nids).len() ==> exists|j: int|
                0 <= j < s.len() && s[j] == #[trigger] cards_without_nids(s, nids)[i],
    decreases s.len(),
{
    if s.len() > 0 {
        assert(cards_ok(s.drop_last(), n)) by {
            assert(forall|i: int| 0 <= i < s.drop_last().len() ==> s.drop_last()[i] == s[i]);
        }
        lemma_cards_without_ok(s.drop_last(), nids, n);
        let pre = cards_without_nids(s.drop_last(), nids);
        let whole = cards_without_nids(s, nids);
        assert forall|i: int| 0 <= i < whole.len() implies exists|j: int|
            0 <= j < s.len() && s[j] == #[trigger] whole[i] by {
            if i < pre.len() {
                let j = choose|j: int| 0 <= j < s.drop_last().len() && s.drop_last()[j] == pre[i];
                assert(s[j] == whole[i]);
            } else {
                assert(s[s.len() - 1] == whole[i]);
            }
        }
        assert forall|a: int, b: int| 0 <= a < b < whole.len() implies (#[trigger] whole[a]).id
            != (#[trigger] whole[b]).id by {
            if b == pre.len() {
                assert(whole[b] == s.last());
                let j2 = choose|j2: int| 0 <= j2 < s.drop_last().len() && s.drop_last()[j2] == pre[a];
                assert(s[j2].id != s[s.len() - 1].id);
            }
        }
        assert forall|i: int| 0 <= i < whole.len() implies (#[trigger] whole[i]).id < n by {
            let j = choose|j: int| 0 <= j < s.len() && s[j] == whole[i];
        }
    }
}

/// Whether the slice contains the value.
pub fn contains_i64(v: &[i64], x: i64) -> (r: bool)
    ensures
        r == v@.contains(x),
{
    let mut i: usize = 0;
    while i < v.len()
        invariant
            i <= v@.len(),
            forall|j: int| 0 <= j < i ==> v@[j] != x,
        decreases v@.len() - i,
    {
        if v[i] == x {
            return true;
        }
        i += 1;
    }
    false
}

impl HostCollection {
    /// A fresh, empty host collection holding only the default deck
    /// configuration and the base record template.
    pub fn new() -> (r: HostCollection)
        ensures
            r@.wf(),
            r@.decks.len() == 0,
            r@.notes.len() == 0,
            r@.cards.len() == 0,
            r@.configs.len() == 1,
            r@.configs[0].id == 1,
            r@.configs[0].new_per_day == 20,
            r@.configs[0].reviews_per_day == 200,
            r@.has_basic_notetype,
    {
        let configs = vec![
            HostDeckConfig {
                id: 1,
                name: String::from_str("Default"),
                new_per_day: 20,
                reviews_per_day: 200,
            },
        ];
        let r = HostCollection {
            decks: Vec::new(),
            notes: Vec::new(),
            cards: Vec::new(),
            configs,
            next_id: 2,
            has_basic_notetype: true,
        };
        assert(r@.configs.len() == 1 && r@.configs[0].id == 1);
        r
    }

    pub fn deck_exists(&self, did: i64) -> (r: bool)
        ensures
            r == self@.has_deck(did),
    {
        let mut i: usize = 0;
        while i < self.decks.len()
            invariant
                i <= self@.decks.len(),
                forall|j: int| 0 <= j < i ==> (#[trigger] self@.decks[j]).id != did,
            decreases self@.decks.len() - i,
        {
            if self.decks[i].id == did {
                assert(self@.decks[i as int].id == did);
                return true;
            }
            i += 1;
        }
        false
    }

    /// The name of the deck, or `NotFound` when no deck has this id.
    pub fn get_deck_name(&self, did: i64) -> (r: Result<String, AnkiChessError>)
        requires
            self@.wf(),
        ensures
            self@.has_deck(did) <==> r is Ok,
            r is Ok ==> r.unwrap()@ == self@.deck_at(did).name,
            r is Err ==> r.unwrap_err() is NotFound,
    {
        let mut i: usize = 0;
        while i < self.decks.len()
            invariant
                i <= self@.decks.len(),
                forall|j: int| 0 <= j < i ==> (#[trigger] self@.decks[j]).id != did,
            decreases self@.decks.len() - i,
        {
            if self.decks[i].id == did {
                proof {
                    assert(self@.decks[i as int].id == did);
                    let w = choose|w: int|
                        0 <= w < self@.decks.len() && (#[trigger] self@.decks[w]).id == did;
                    if w != i as int {
                        assert(false);
                    }
                }
                return Ok(self.decks[i].name.clone());
            }
            i += 1;
        }
        Err(AnkiChessError::NotFound(String::from_str("deck not found")))
    }

    /// Returns the id of the deck with this exact name, creating the deck
    /// when none exists.
    pub fn get_or_create_deck(&mut self, name: &str) -> (r: Result<i64, AnkiChessError>)
        requires
            old(self)@.wf(),
        ensures
            final(self)@.wf(),
            final(self)@.notes == old(self)@.notes,
            final(self)@.cards == old(self)@.cards,
            final(self)@.configs == old(self)@.configs,
            final(self)@.has_basic_notetype == old(self)@.has_basic_notetype,
            r is Ok ==> final(self)@.has_deck(r.unwrap()) && final(self)@.deck_at(
                r.unwrap(),
            ).name == name@,
            old(self)@.has_deck_named(name@) ==> r is Ok && final(self)@ == old(self)@,
            !old(self)@.has_deck_named(name@) && old(self)@.next_id <= i64::MAX - 1 ==> r is Ok
                && final(self)@.decks == old(self)@.decks.push(
                DeckView { id: old(self)@.next_id, name: name@, config_id: 1 },
            ) && final(self)@.next_id == old(self)@.next_id + 1,
            r is Err ==> final(self)@ == old(self)@ && r.unwrap_err() is DatabaseError,
    {
        let mut i: usize = 0;
        while i < self.decks.len()
            invariant
                i <= self@.decks.len(),
                forall|j: int| 0 <= j < i ==> (#[trigger] self@.decks[j]).name != name@,
            decreases self@.decks.len() - i,
        {
            if crate::text::str_eq(self.decks[i].name.as_str(), name) {
                let id = self.decks[i].id;
                proof {
                    assert(self@.decks[i as int].id == id);
                    let w = choose|w: int|
                        0 <= w < self@.decks.len() && (#[trigger] self@.decks[w]).id == id;
                    if w != i as int {
                        assert(false);
                    }
                }
                return Ok(id);
            }
            i += 1;
        }
        if self.next_id > i64::MAX - 1 {
            return Err(
                AnkiChessError::DatabaseError(String::from_str("identifier space exhausted")),
            );
        }
        let id = self.next_id;
        let ghost prev = self@;
        self.decks.push(HostDeck { id, name: String::from_str(name), config_id: 1 });
        self.next_id = id + 1;
        proof {
            let d = DeckView { id: prev.next_id, name: name@, config_id: 1 };
            assert(self@.decks =~= prev.decks.push(d));
            lemma_decks_ok_push(prev.decks, d, prev.next_id, self@.next_id);
            assert(self@.decks[(self@.decks.len() - 1) as int].id == id);
            let w = choose|w: int|
                0 <= w < self@.decks.len() && (#[trigger] self@.decks[w]).id == id;
            if w != self@.decks.len() - 1 {
                assert(false);
            }
        }
        Ok(id)
    }

    /// Creates a host record (a note and its card) in the given scope and
    /// returns the note id, per the host collaborator contract: fails with
    /// `NotFound` when the scope does not exist.
    pub fn add_note(&mut self, deck_id: i64, sfld: &str) -> (r: Result<i64, AnkiChessError>)
        requires
            old(self)@.wf(),
        ensures
            final(self)@.wf(),
            final(self)@.decks == old(self)@.decks,
            final(self)@.configs == old(self)@.configs,
            final(self)@.has_basic_notetype == old(self)@.has_basic_notetype,
            !old(self)@.has_deck(deck_id) ==> r is Err && r.unwrap_err() is NotFound && final(self)@
                == old(self)@,
            r is Err ==> final(self)@ == old(self)@,
            r is Ok ==> {
                &&& old(self)@.has_deck(deck_id)
                &&& r.unwrap() == old(self)@.next_id
                &&& final(self)@.notes == old(self)@.notes.push(
                    NoteView { id: old(self)@.next_id, sfld: sfld@ },
                )
                &&& final(self)@.cards == old(self)@.cards.push(
                    HostCard {
                        id: (old(self)@.next_id + 1) as i64,
                        nid: old(self)@.next_id,
                        did: deck_id,
                    },
                )
                &&& final(self)@.next_id == old(self)@.next_id + 2
                &&& !old(self)@.has_note(r.unwrap())
            },
            old(self)@.has_deck(deck_id) && old(self)@.next_id <= i64::MAX - 2 ==> r is Ok,
    {
        if !self.deck_exists(deck_id) {
            return Err(AnkiChessError::NotFound(String::from_str("deck not found")));
        }
        if self.next_id > i64::MAX - 2 {
            return Err(
                AnkiChessError::DatabaseError(String::from_str("identifier space exhausted")),
            );
        }
        let nid = self.next_id;
        let ghost prev = self@;
        self.notes.push(HostNote { id: nid, sfld: String::from_str(sfld) });
        self.cards.push(HostCard { id: nid + 1, nid, did: deck_id });
        self.next_id = nid + 2;
        proof {
            let nv = NoteView { id: prev.next_id, sfld: sfld@ };
            let cv = HostCard { id: (prev.next_id + 1) as i64, nid: prev.next_id, did: deck_id };
            assert(self@.notes =~= prev.notes.push(nv));
            assert(self@.cards =~= prev.cards.push(cv));
            lemma_notes_ok_push(prev.notes, nv, prev.next_id, self@.next_id);
            lemma_cards_ok_push(prev.cards, cv, prev.next_id, self@.next_id);
            lemma_decks_ok_grow(prev.decks, prev.next_id, self@.next_id);
            lemma_configs_ok_grow(prev.configs, prev.next_id, self@.next_id);
            if prev.has_note(nid) {
                let w = choose|w: int|
                    0 <= w < prev.notes.len() && (#[trigger] prev.notes[w]).id == nid;
                assert(false);
            }
        }
        Ok(nid)
    }

    /// Whether the note has a card in the scope.
    pub fn note_has_card_in_deck(&self, nid: i64, did: i64) -> (r: bool)
        ensures
            r == self@.note_in_deck(nid, did),
    {
        let mut i: usize = 0;
        while i < self.cards.len()
            invariant
                i <= self@.cards.len(),
                forall|j: int|
                    0 <= j < i ==> !((#[trigger] self@.cards[j]).nid == nid && self@.cards[j].did
                        == did),
            decreases self@.cards.len() - i,
        {
            if self.cards[i].nid == nid && self.cards[i].did == did {
                assert(self@.cards[i as int].nid == nid && self@.cards[i as int].did == did);
                return true;
            }
            i += 1;
        }
        false
    }

    /// The distinct note ids that have a card in the scope, in
    /// first-occurrence order.
    pub fn nids_in_deck(&self, did: i64) -> (r: Vec<i64>)
        ensures
            r@ == nids_in_deck_spec(self@.cards, did),
            forall|i: int, j: int| 0 <= i < j < r@.len() ==> r@[i] != r@[j],
            forall|nid: i64| r@.contains(nid) <==> self@.note_in_deck(nid, did),
    {
        let mut out: Vec<i64> = Vec::new();
        let mut i: usize = 0;
        proof {
            assert(out@ =~= nids_in_deck_spec(self@.cards.take(0), did));
        }
        while i < self.cards.len()
            invariant
                i <= self@.cards.len(),
                out@ == nids_in_deck_spec(self@.cards.take(i as int), did),
                forall|a: int, b: int| 0 <= a < b < out@.len() ==> out@[a] != out@[b],
                forall|nid: i64| out@.contains(nid) ==> self@.note_in_deck(nid, did),
                forall|j: int|
                    0 <= j < i && (#[trigger] self@.cards[j]).did == did ==> out@.contains(
                        self@.cards[j].nid,
                    ),
            decreases self@.cards.len() - i,
        {
            proof {
                assert(self@.cards.take(i + 1).drop_last() =~= self@.cards.take(i as int));
                assert(self@.cards.take(i + 1).last() == self@.cards[i as int]);
            }
            if self.cards[i].did == did {
                let nid = self.cards[i].nid;
                if !contains_i64(out.as_slice(), nid) {
                    let ghost prev = out@;
                    out.push(nid);
                    proof {
                        assert(out@[out@.len() - 1] == nid);
                        assert(self@.cards[i as int].nid == nid && self@.cards[i as int].did
                            == did);
                        assert(self@.note_in_deck(nid, did));
                        assert forall|x: i64| out@.contains(x) implies self@.note_in_deck(
                            x,
                            did,
                        ) by {
                            let j = choose|j: int| 0 <= j < out@.len() && out@[j] == x;
                            if j < prev.len() {
                                assert(prev[j] == x && prev.contains(x));
                            }
                        }
                        assert forall|x: i64| prev.contains(x) implies out@.contains(x) by {
                            let j = choose|j: int| 0 <= j < prev.len() && prev[j] == x;
                            assert(out@[j] == x);
                        }
                    }
                }
            }
            i += 1;
        }
        proof {
            assert(self@.cards.take(self@.cards.len() as int) =~= self@.cards);
        }
        out
    }

    /// Removes the deck row itself; its cards and notes are removed through
    /// `remove_notes` beforehand.
    pub fn remove_deck_row(&mut self, did: i64)
        requires
            old(self)@.wf(),
        ensures
            final(self)@.wf(),
            final(self)@.decks == decks_without(old(self)@.decks, did),
            final(self)@.notes == old(self)@.notes,
            final(self)@.cards == old(self)@.cards,
            final(self)@.configs == old(self)@.configs,
            final(self)@.next_id == old(self)@.next_id,
            final(self)@.has_basic_notetype == old(self)@.has_basic_notetype,
            !final(self)@.has_deck(did),
    {
        let ghost orig = self@;
        let mut kept: Vec<HostDeck> = Vec::new();
        let mut i: usize = 0;
        while i < self.decks.len()
            invariant
                i <= self@.decks.len(),
                self@ == orig,
                kept@.map_values(|d: HostDeck| d@) == decks_without(
                    orig.decks.take(i as int),
                    did,
                ),
            decreases self@.decks.len() - i,
        {
            let ghost prev = kept@.map_values(|d: HostDeck| d@);
            if self.decks[i].id != did {
                let d = &self.decks[i];
                kept.push(HostDeck { id: d.id, name: d.name.clone(), config_id: d.config_id });
                assert(kept@.map_values(|d: HostDeck| d@) =~= prev.push(orig.decks[i as int]));
            }
            proof {
                assert(orig.decks.take(i + 1).drop_last() =~= orig.decks.take(i as int));
                assert(orig.decks.take(i + 1).last() == orig.decks[i as int]);
            }
            i += 1;
        }
        proof {
            assert(orig.decks.take(orig.decks.len() as int) =~= orig.decks);
        }
        self.decks = kept;
        proof {
            lemma_decks_without_ok(orig.decks, did, orig.next_id);
        }
    }

    /// Removes the given notes and every card of theirs, per the host
    /// collaborator contract for record deletion.
    pub fn remove_notes(&mut self, nids: &[i64])
        requires
            old(self)@.wf(),
        ensures
            final(self)@.wf(),
            final(self)@.decks == old(self)@.decks,
            final(self)@.configs == old(self)@.configs,
            final(self)@.next_id == old(self)@.next_id,
            final(self)@.has_basic_notetype == old(self)@.has_basic_notetype,
            final(self)@.notes == notes_without(old(self)@.notes, nids@),
            final(self)@.cards == cards_without_nids(old(self)@.cards, nids@),
    {
        let ghost orig = self@;
        let mut kept_notes: Vec<HostNote> = Vec::new();
        let mut i: usize = 0;
        while i < self.notes.len()
            invariant
                i <= self@.notes.len(),
                self@ == orig,
                kept_notes@.map_values(|n: HostNote| n@) == notes_without(
                    orig.notes.take(i as int),
                    nids@,
                ),
            decreases self@.notes.len() - i,
        {
            let ghost prev = kept_notes@.map_values(|n: HostNote| n@);
            if !contains_i64(nids, self.notes[i].id) {
                let n = &self.notes[i];
                kept_notes.push(HostNote { id: n.id, sfld: n.sfld.clone() });
                assert(kept_notes@.map_values(|n: HostNote| n@) =~= prev.push(
                    orig.notes[i as int],
                ));
            }
            proof {
                assert(orig.notes.take(i + 1).drop_last() =~= orig.notes.take(i as int));
                assert(orig.notes.take(i + 1).last() == orig.notes[i as int]);
            }
            i += 1;
        }
        let mut kept_cards: Vec<HostCard> = Vec::new();
        let mut k: usize = 0;
        while k < self.cards.len()
            invariant
                k <= self@.cards.len(),
                self@ == orig,
                kept_cards@ == cards_without_nids(orig.cards.take(k as int), nids@),
            decreases self@.cards.len() - k,
        {
            let ghost prevc = kept_cards@;
            if !contains_i64(nids, self.cards[k].nid) {
                kept_cards.push(self.cards[k]);
                assert(kept_cards@ =~= prevc.push(orig.cards[k as int]));
            }
            proof {
                assert(orig.cards.take(k + 1).drop_last() =~= orig.cards.take(k as int));
                assert(orig.cards.take(k + 1).last() == orig.cards[k as int]);
            }
            k += 1;
        }
        proof {
            assert(orig.notes.take(orig.notes.len() as int) =~= orig.notes);
            assert(orig.cards.take(orig.cards.len() as int) =~= orig.cards);
        }
        self.notes = kept_notes;
        self.cards = kept_cards;
        proof {
            lemma_notes_without_ok(orig.notes, nids@, orig.next_id);
            lemma_cards_without_ok(orig.cards, nids@, orig.next_id);
        }
    }

    /// The card with this id, if any.
    pub fn find_card(&self, card_id: i64) -> (r: Option<HostCard>)
        requires
            self@.wf(),
        ensures
            r is Some <==> self@.has_card(card_id),
            r is Some ==> r.unwrap() == self@.card_at(card_id),
    {
        let mut i: usize = 0;
        while i < self.cards.len()
            invariant
                i <= self@.cards.len(),
                forall|j: int| 0 <= j < i ==> (#[trigger] self@.cards[j]).id != card_id,
            decreases self@.cards.len() - i,
        {
            if self.cards[i].id == card_id {
                let c = self.cards[i];
                assert(self@.cards[i as int].id == card_id);
                proof {
                    let w = choose|w: int|
                        0 <= w < self@.cards.len() && (#[trigger] self@.cards[w]).id == card_id;
                    if w != i as int {
                        assert(false);
                    }
                }
                return Some(c);
            }
            i += 1;
        }
        None
    }
}

pub proof fn lemma_configs_ok_grow(s: Seq<ConfigView>, a: i64, b: i64)
    requires
        configs_ok(s, a),
        a <= b,
    ensures
        configs_ok(s, b),
{
}

} // verus!
