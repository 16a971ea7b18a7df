//! Reference data loaded at startup: the opening catalog from tab-separated
//! lines and the theme labels and descriptions folded out of the theme
//! document's events.

use vstd::prelude::*;

verus! {

/// One opening: classification code, name and move text.
#[derive(Debug)]
pub struct Opening {
    pub eco: String,
    pub name: String,
    pub pgn: String,
}

pub struct OpeningView {
    pub eco: Seq<char>,
    pub name: Seq<char>,
    pub pgn: Seq<char>,
}

impl View for Opening {
    type V = OpeningView;

    open spec fn view(&self) -> OpeningView {
        OpeningView { eco: self.eco@, name: self.name@, pgn: self.pgn@ }
    }
}

/// One puzzle theme: identifier, label and free-text description.
#[derive(Debug)]
pub struct Theme {
    pub id: String,
    pub label: String,
    pub description: String,
}

pub struct ThemeView {
    pub id: Seq<char>,
    pub label: Seq<char>,
    pub description: Seq<char>,
}

impl View for Theme {
    type V = ThemeView;

    open spec fn view(&self) -> ThemeView {
        ThemeView { id: self.id@, label: self.label@, description: self.description@ }
    }
}

/// One event of the theme document: the opening of a named string element,
/// or a run of text.
pub enum ThemeEvent {
    StartName(String),
    Text(String),
}

pub enum ThemeEventView {
    StartName(Seq<char>),
    Text(Seq<char>),
}

impl View for ThemeEvent {
    type V = ThemeEventView;

    open spec fn view(&self) -> ThemeEventView {
        match self {
            ThemeEvent::StartName(n) => ThemeEventView::StartName(n@),
            ThemeEvent::Text(t) => ThemeEventView::Text(t@),
        }
    }
}

/// Splitting on a separator character, keeping empty fields; the split of an
/// empty string is one empty field.
pub open spec fn split_exact_acc(
    s: Seq<char>,
    sep: char,
    i: int,
    cur: Seq<char>,
    out: Seq<Seq<char>>,
) -> Seq<Seq<char>>
    decreases s.len() - i,
{
    if i < 0 || i >= s.len() {
        out.push(cur)
    } else if s[i] == sep {
        split_exact_acc(s, sep, i + 1, Seq::empty(), out.push(cur))
    } else {
        split_exact_acc(s, sep, i + 1, cur.push(s[i]), out)
    }
}

pub open spec fn split_exact(s: Seq<char>, sep: char) -> Seq<Seq<char>> {
    split_exact_acc(s, sep, 0, Seq::empty(), Seq::empty())
}

/// Splits on the separator, keeping empty fields.
pub fn split_char(s: &str, sep: char) -> (r: Vec<String>)
    ensures
        r.deep_view() == split_exact(s@, sep),
{
    let n = s.unicode_len();
    let mut out: Vec<String> = Vec::new();
    let mut cur = String::new();
    proof {
        assert(out.deep_view() =~= Seq::<Seq<char>>::empty());
        assert(cur@ =~= Seq::<char>::empty());
    }
    let mut i: usize = 0;
    while i < n
        invariant
            i <= n,
            n == s@.len(),
            split_exact(s@, sep) == split_exact_acc(s@, sep, i as int, cur@, out.deep_view()),
        decreases n - i,
    {
        let c = s.get_char(i);
        if c == sep {
            let ghost prev = out.deep_view();
            out.push(cur);
            assert(out.deep_view() =~= prev.push(cur@));
            cur = String::new();
            proof {
                assert(cur@ =~= Seq::<char>::empty());
            }
        } else {
            cur.push(c);
        }
        i += 1;
    }
    let ghost prev = out.deep_view();
    out.push(cur);
    assert(out.deep_view() =~= prev.push(cur@));
    out
}

/// A line with a trailing carriage return removed.
pub open spec fn strip_cr(t: Seq<char>) -> Seq<char> {
    if t.len() > 0 && t.last() == '\r' {
        t.drop_last()
    } else {
        t
    }
}

/// The lines of the text: separated by newlines, tolerant of carriage
/// returns, with no phantom empty line after a trailing newline.
pub open spec fn spec_lines(s: Seq<char>) -> Seq<Seq<char>> {
    let parts = split_exact(s, '\n').map_values(|t: Seq<char>| strip_cr(t));
    if parts.len() > 0 && parts.last().len() == 0 {
        parts.drop_last()
    } else {
        parts
    }
}

/// Splits the text into lines.
pub fn text_lines(s: &str) -> (r: Vec<String>)
    ensures
        r.deep_view() == spec_lines(s@),
{
    let raw = split_char(s, '\n');
    let mut out: Vec<String> = Vec::new();
    let mut i: usize = 0;
    let ghost mapped = split_exact(s@, '\n').map_values(|t: Seq<char>| strip_cr(t));
    proof {
        assert(out.deep_view() =~= mapped.take(0));
    }
    while i < raw.len()
        invariant
            i <= raw@.len(),
            raw.deep_view() == split_exact(s@, '\n'),
            raw.deep_view().len() == raw@.len(),
            mapped == split_exact(s@, '\n').map_values(|t: Seq<char>| strip_cr(t)),
            out.deep_view() == mapped.take(i as int),
        decreases raw@.len() - i,
    {
        let ghost prev = out.deep_view();
        let line = raw[i].as_str();
        proof {
            assert(raw.deep_view()[i as int] == raw@[i as int]@);
        }
        let ln = line.unicode_len();
        if ln > 0 && line.get_char(ln - 1) == '\r' {
            let stripped = line.substring_char(0, ln - 1);
            proof {
                assert(stripped@ =~= line@.drop_last());
            }
            out.push(String::from_str(stripped));
        } else {
            out.push(String::from_str(line));
        }
        proof {
            assert(out.deep_view() =~= prev.push(strip_cr(raw.deep_view()[i as int])));
            assert(mapped.take(i + 1) =~= mapped.take(i as int).push(mapped[i as int]));
        }
        i += 1;
    }
    proof {
        assert(mapped.take(mapped.len() as int) =~= mapped);
    }
    if out.len() > 0 {
        let last_empty = out[out.len() - 1].as_str().unicode_len() == 0;
        if last_empty {
            let ghost prev = out.deep_view();
            out.pop();
            proof {
                assert(out.deep_view() =~= prev.drop_last());
            }
        }
    }
    proof {
        if mapped.len() > 0 && mapped.last().len() == 0 {
            assert(out.deep_view() =~= spec_lines(s@));
        } else {
            assert(out.deep_view() =~= spec_lines(s@));
        }
    }
    out
}

/// The openings of a tab-separated file: its first line is a header; each
/// later line with at least three fields yields one opening.
pub open spec fn openings_of(lines: Seq<Seq<char>>) -> Seq<OpeningView>
    decreases lines.len(),
{
    if lines.len() <= 1 {
        Seq::empty()
    } else {
        let pre = openings_of(lines.drop_last());
        let parts = split_exact(lines.last(), '\t');
        if parts.len() >= 3 {
            pre.push(OpeningView { eco: parts[0], name: parts[1], pgn: parts[2] })
        } else {
            pre
        }
    }
}

/// The first index holding a theme with this id, or a negative value.
pub open spec fn theme_idx(s: Seq<ThemeView>, id: Seq<char>) -> int
    decreases s.len(),
{
    if s.len() == 0 {
        -1
    } else if s[0].id == id {
        0
    } else {
        let r = theme_idx(s.drop_first(), id);
        if r < 0 {
            -1
        } else {
            r + 1
        }
    }
}

pub proof fn lemma_theme_idx(s: Seq<ThemeView>, id: Seq<char>)
    ensures
        theme_idx(s, id) < 0 ==> forall|k: int| 0 <= k < s.len() ==> (#[trigger] s[k]).id != id,
        theme_idx(s, id) >= 0 ==> 0 <= theme_idx(s, id) < s.len() && s[theme_idx(s, id)].id == id
            && forall|k: int| 0 <= k < theme_idx(s, id) ==> (#[trigger] s[k]).id != id,
    decreases s.len(),
{
    if s.len() > 0 && s[0].id != id {
        lemma_theme_idx(s.drop_first(), id);
        assert(forall|k: int| 0 <= k < s.drop_first().len() ==> s.drop_first()[k] == s[k + 1]);
        let r = theme_idx(s.drop_first(), id);
        if r < 0 {
            assert forall|k: int| 0 <= k < s.len() implies (#[trigger] s[k]).id != id by {
                if k > 0 {
                    assert(s.drop_first()[k - 1] == s[k]);
                }
            }
        } else {
            assert(s.drop_first()[r] == s[r + 1]);
            assert forall|k: int| 0 <= k < theme_idx(s, id) implies (#[trigger] s[k]).id != id by {
                if k > 0 {
                    assert(s.drop_first()[k - 1] == s[k]);
                }
            }
        }
    }
}

/// The id ends with the description suffix.
pub open spec fn ends_with_description(id: Seq<char>) -> bool {
    id.len() >= 11 && id.skip(id.len() - 11) == "Description"@
}

/// One event folded into the theme list: a named element start selects the
/// current id; text under a description id fills the first matching theme's
/// description; other text introduces a new theme under the current id.
pub open spec fn themes_step(cur: Seq<char>, acc: Seq<ThemeView>, ev: ThemeEventView) -> (
    Seq<char>,
    Seq<ThemeView>,
) {
    match ev {
        ThemeEventView::StartName(n) => (n, acc),
        ThemeEventView::Text(t) => {
            if ends_with_description(cur) {
                let id = cur.take(cur.len() - 11);
                let i = theme_idx(acc, id);
                if i >= 0 {
                    (cur, acc.update(i, ThemeView { description: t, ..acc[i] }))
                } else {
                    (cur, acc)
                }
            } else {
                (cur, acc.push(ThemeView { id: cur, label: t, description: Seq::empty() }))
            }
        },
    }
}

/// The theme list after folding all events, starting from the given current
/// id and accumulated themes.
pub open spec fn themes_fold(events: Seq<ThemeEventView>, cur: Seq<char>, acc: Seq<ThemeView>) -> (
    Seq<char>,
    Seq<ThemeView>,
)
    decreases events.len(),
{
    if events.len() == 0 {
        (cur, acc)
    } else {
        let prev = themes_fold(events.drop_last(), cur, acc);
        themes_step(prev.0, prev.1, events.last())
    }
}

/// The reference data served to the interface at startup.
pub struct AppBootstrapData {
    pub openings: Vec<Opening>,
    pub themes: Vec<Theme>,
}

pub struct BootstrapView {
    pub openings: Seq<OpeningView>,
    pub themes: Seq<ThemeView>,
}

impl View for AppBootstrapData {
    type V = BootstrapView;

    open spec fn view(&self) -> BootstrapView {
        BootstrapView {
            openings: self.openings@.map_values(|o: Opening| o@),
            themes: self.themes@.map_values(|t: Theme| t@),
        }
    }
}

impl AppBootstrapData {
    /// Empty reference data, to be filled from the resource files.
    pub fn new() -> (r: AppBootstrapData)
        ensures
            r@.openings.len() == 0,
            r@.themes.len() == 0,
    {
        AppBootstrapData { openings: Vec::new(), themes: Vec::new() }
    }

    /// Adds the openings of one tab-separated file: the first line is a
    /// header, every later line with at least three fields is one opening.
    pub fn load_openings(&mut self, content: &str)
        ensures
            final(self)@.openings == old(self)@.openings + openings_of(spec_lines(content@)),
            final(self)@.themes == old(self)@.themes,
    {
        let ghost orig = self@.openings;
        let lines = text_lines(content);
        let ghost linevs = lines.deep_view();
        let mut i: usize = 0;
        proof {
            assert(openings_of(linevs.take(0)) =~= Seq::<OpeningView>::empty());
            assert(self@.openings =~= orig + openings_of(linevs.take(0)));
        }
        while i < lines.len()
            invariant
                i <= lines@.len(),
                linevs == lines.deep_view(),
                linevs.len() == lines@.len(),
                self@.openings == orig + openings_of(linevs.take(i as int)),
                self@.themes == old(self)@.themes,
            decreases lines@.len() - i,
        {
            let ghost prev = self@.openings;
            proof {
                assert(linevs.take(i + 1).drop_last() =~= linevs.take(i as int));
                assert(linevs.take(i + 1).last() == linevs[i as int]);
                assert(linevs[i as int] == lines@[i as int]@);
            }
            if i >= 1 {
                let parts = split_char(lines[i].as_str(), '\t');
                if parts.len() >= 3 {
                    proof {
                        assert(parts.deep_view()[0] == parts@[0]@);
                        assert(parts.deep_view()[1] == parts@[1]@);
                        assert(parts.deep_view()[2] == parts@[2]@);
                    }
                    self.openings.push(
                        Opening {
                            eco: parts[0].clone(),
                            name: parts[1].clone(),
                            pgn: parts[2].clone(),
                        },
                    );
                    proof {
                        assert(self@.openings =~= prev.push(
                            OpeningView {
                                eco: parts.deep_view()[0],
                                name: parts.deep_view()[1],
                                pgn: parts.deep_view()[2],
                            },
                        ));
                        assert(self@.openings =~= orig + openings_of(linevs.take(i + 1)));
                    }
                } else {
                    proof {
                        assert(self@.openings =~= orig + openings_of(linevs.take(i + 1)));
                    }
                }
            } else {
                proof {
                    assert(openings_of(linevs.take(1)) =~= Seq::<OpeningView>::empty());
                    assert(self@.openings =~= orig + openings_of(linevs.take(i + 1)));
                }
            }
            i += 1;
        }
        proof {
            assert(linevs.take(linevs.len() as int) =~= linevs);
        }
    }

    /// Folds the theme document's events into the theme list: labels first,
    /// then descriptions matched back onto their themes by id.
    pub fn load_themes(&mut self, events: &[ThemeEvent])
        ensures
            final(self)@.themes == themes_fold(
                events@.map_values(|e: ThemeEvent| e@),
                Seq::empty(),
                old(self)@.themes,
            ).1,
            final(self)@.openings == old(self)@.openings,
    {
        let ghost evs = events@.map_values(|e: ThemeEvent| e@);
        let ghost acc0 = self@.themes;
        let mut cur = String::new();
        let mut i: usize = 0;
        proof {
            assert(cur@ =~= Seq::<char>::empty());
        }
        while i < events.len()
            invariant
                i <= events@.len(),
                evs == events@.map_values(|e: ThemeEvent| e@),
                (cur@, self@.themes) == themes_fold(evs.take(i as int), Seq::empty(), acc0),
                self@.openings == old(self)@.openings,
            decreases events@.len() - i,
        {
            proof {
                assert(evs.take(i + 1).drop_last() =~= evs.take(i as int));
                assert(evs.take(i + 1).last() == evs[i as int]);
            }
            let ghost prev_cur = cur@;
            let ghost prev_acc = self@.themes;
            match &events[i] {
                ThemeEvent::StartName(n) => {
                    cur = n.clone();
                },
                ThemeEvent::Text(t) => {
                    let is_desc = Self::has_description_suffix(cur.as_str());
                    if is_desc {
                        let cn = cur.as_str().unicode_len();
                        let id = cur.as_str().substring_char(0, cn - 11);
                        proof {
                            assert(id@ =~= prev_cur.take(prev_cur.len() - 11));
                            lemma_theme_idx(prev_acc, id@);
                        }
                        let mut k: usize = 0;
                        let mut found: bool = false;
                        while k < self.themes.len() && !found
                            invariant
                                k <= self@.themes.len(),
                                self@.themes == prev_acc,
                                !found ==> forall|j: int|
                                    0 <= j < k ==> (#[trigger] prev_acc[j]).id != id@,
                                found ==> k < self@.themes.len() && prev_acc[k as int].id == id@
                                    && forall|j: int|
                                    0 <= j < k ==> (#[trigger] prev_acc[j]).id != id@,
                            decreases self@.themes.len() - k + (if found {
                                0int
                            } else {
                                1int
                            }),
                        {
                            if crate::text::str_eq(self.themes[k].id.as_str(), id) {
                                assert(prev_acc[k as int].id == id@);
                                found = true;
                            } else {
                                k += 1;
                            }
                        }
                        if found {
                            proof {
                                if theme_idx(prev_acc, id@) != k as int {
                                    assert(false);
                                }
                            }
                            let old_theme = &self.themes[k];
                            let updated = Theme {
                                id: old_theme.id.clone(),
                                label: old_theme.label.clone(),
                                description: t.clone(),
                            };
                            self.themes[k] = updated;
                            proof {
                                assert(self@.themes =~= prev_acc.update(
                                    k as int,
                                    ThemeView { description: t@, ..prev_acc[k as int] },
                                ));
                            }
                        } else {
                            proof {
                                if theme_idx(prev_acc, id@) >= 0 {
                                    assert(false);
                                }
                            }
                        }
                    } else {
                        self.themes.push(
                            Theme {
                                id: cur.clone(),
                                label: t.clone(),
                                description: String::new(),
                            },
                        );
                        proof {
                            assert(self@.themes =~= prev_acc.push(
                                ThemeView {
                                    id: prev_cur,
                                    label: t@,
                                    description: Seq::empty(),
                                },
                            ));
                        }
                    }
                },
            }
            proof {
                assert(evs[i as int] == events@[i as int]@);
            }
            i += 1;
        }
        proof {
            assert(evs.take(evs.len() as int) =~= evs);
        }
    }

    /// Whether the current id carries the description suffix.
    fn has_description_suffix(s: &str) -> (r: bool)
        ensures
            r == ends_with_description(s@),
    {
        let n = s.unicode_len();
        if n < 11 {
            return false;
        }
        let tail = s.substring_char(n - 11, n);
        proof {
            assert(tail@ =~= s@.skip(s@.len() - 11));
        }
        crate::text::str_eq(tail, "Description")
    }
}

} // verus!
