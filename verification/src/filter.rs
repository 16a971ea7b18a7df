//! The browse filter grammar: a small parser from the free-text filter input
//! to a tagged predicate, plus the pagination arithmetic. The rules, tried in
//! order with the first match winning: a numeric range `A-B`, a bare integer
//! `N` (a fuzzy match fifty points either side), `>N`, `<N`, and otherwise a
//! case-insensitive text search.

use vstd::prelude::*;

use crate::text::{spec_parse_int, spec_trim};

verus! {

/// The parsed browse predicate.
pub enum BrowseFilter {
    /// Empty input: no predicate.
    All,
    /// Difficulty between the bounds, inclusive.
    Range(i32, i32),
    /// Difficulty strictly greater.
    Gt(i32),
    /// Difficulty strictly less.
    Lt(i32),
    /// Case-insensitive substring search over id, tags, note and category
    /// tags.
    Text(String),
}

pub enum FilterView {
    All,
    Range(int, int),
    Gt(int),
    Lt(int),
    Text(Seq<char>),
}

impl View for BrowseFilter {
    type V = FilterView;

    open spec fn view(&self) -> FilterView {
        match self {
            BrowseFilter::All => FilterView::All,
            BrowseFilter::Range(a, b) => FilterView::Range(*a as int, *b as int),
            BrowseFilter::Gt(n) => FilterView::Gt(*n as int),
            BrowseFilter::Lt(n) => FilterView::Lt(*n as int),
            BrowseFilter::Text(t) => FilterView::Text(t@),
        }
    }
}

/// The string parses as an `i32`.
pub open spec fn parses_i32(s: Seq<char>) -> bool {
    &&& spec_parse_int(s) is Some
    &&& i32::MIN <= spec_parse_int(s).unwrap() <= i32::MAX
}

pub open spec fn int32_of(s: Seq<char>) -> int {
    spec_parse_int(s).unwrap()
}

/// Position `p` holds the only `-` of the string.
pub open spec fn is_only_dash_at(s: Seq<char>, p: int) -> bool {
    &&& 0 <= p < s.len()
    &&& s[p] == '-'
    &&& forall|j: int| 0 <= j < s.len() && j != p ==> s[j] != '-'
}

pub open spec fn has_single_dash(s: Seq<char>) -> bool {
    exists|p: int| is_only_dash_at(s, p)
}

pub open spec fn dash_pos(s: Seq<char>) -> int {
    choose|p: int| is_only_dash_at(s, p)
}

/// The lower bound of the fuzzy near-rating match, clamped into `i32`.
pub open spec fn near_lo(v: int) -> int {
    if v - 50 < i32::MIN {
        i32::MIN as int
    } else {
        v - 50
    }
}

/// The upper bound of the fuzzy near-rating match, clamped into `i32`.
pub open spec fn near_hi(v: int) -> int {
    if v + 50 > i32::MAX {
        i32::MAX as int
    } else {
        v + 50
    }
}

/// What the filter input means, applied to the trimmed input text.
pub open spec fn spec_parse_filter(t: Seq<char>) -> FilterView {
    if t.len() == 0 {
        FilterView::All
    } else if has_single_dash(t) && parses_i32(spec_trim(t.take(dash_pos(t)))) && parses_i32(
        spec_trim(t.skip(dash_pos(t) + 1)),
    ) {
        FilterView::Range(
            int32_of(spec_trim(t.take(dash_pos(t)))),
            int32_of(spec_trim(t.skip(dash_pos(t) + 1))),
        )
    } else if parses_i32(t) {
        FilterView::Range(near_lo(int32_of(t)), near_hi(int32_of(t)))
    } else if t[0] == '>' && parses_i32(spec_trim(t.skip(1))) {
        FilterView::Gt(int32_of(spec_trim(t.skip(1))))
    } else if t[0] == '<' && parses_i32(spec_trim(t.skip(1))) {
        FilterView::Lt(int32_of(spec_trim(t.skip(1))))
    } else {
        FilterView::Text(t)
    }
}

/// Parses an `i32` with the exact acceptance of `str::parse::<i32>`.
fn parse_i32(s: &str) -> (r: Option<i32>)
    ensures
        r is Some <==> parses_i32(s@),
        r is Some ==> r.unwrap() as int == int32_of(s@),
{
    match crate::text::parse_i64(s) {
        Some(v) => {
            if -2147483648i64 <= v && v <= 2147483647i64 {
                Some(v as i32)
            } else {
                None
            }
        },
        None => None,
    }
}

/// Finds the position of the string's only dash, when it has exactly one.
fn find_single_dash(s: &str) -> (r: Option<usize>)
    ensures
        r is Some <==> has_single_dash(s@),
        r is Some ==> is_only_dash_at(s@, r.unwrap() as int),
{
    let n = s.unicode_len();
    let mut i: usize = 0;
    let mut found: Option<usize> = None;
    while i < n
        invariant
            i <= n,
            n == s@.len(),
            match found {
                Some(p) => p < i && s@[p as int] == '-' && forall|j: int|
                    0 <= j < i && j != p ==> s@[j] != '-',
                None => forall|j: int| 0 <= j < i ==> s@[j] != '-',
            },
        decreases n - i,
    {
        if s.get_char(i) == '-' {
            match found {
                Some(_) => {
                    proof {
                        let p0 = choose|p: int| is_only_dash_at(s@, p);
                        assert(!has_single_dash(s@)) by {
                            if is_only_dash_at(s@, p0) {
                                assert(s@[i as int] == '-');
                                assert(s@[found.unwrap() as int] == '-');
                            }
                        }
                    }
                    return None;
                },
                None => {
                    found = Some(i);
                },
            }
        }
        i += 1;
    }
    proof {
        match found {
            Some(p) => {
                assert(is_only_dash_at(s@, p as int));
            },
            None => {
                if has_single_dash(s@) {
                    let p = choose|p: int| is_only_dash_at(s@, p);
                    assert(s@[p] != '-');
                }
            },
        }
    }
    found
}

/// Parses the free-text filter input into a predicate, trimming it first.
/// The grammar is tried in precedence order and the first matching rule
/// wins; non-numeric input falls back to text search.
pub fn parse_filter(raw: &str) -> (r: BrowseFilter)
    ensures
        r@ == spec_parse_filter(spec_trim(raw@)),
{
    let t = crate::text::trim_str(raw);
    let ts = t.as_str();
    let n = ts.unicode_len();
    if n == 0 {
        return BrowseFilter::All;
    }
    match find_single_dash(ts) {
        Some(p) => {
            let left = ts.substring_char(0, p);
            let right = ts.substring_char(p + 1, n);
            proof {
                assert(left@ =~= ts@.take(p as int));
                assert(right@ =~= ts@.skip(p as int + 1));
                let q = dash_pos(ts@);
                if q != p as int {
                    assert(is_only_dash_at(ts@, q));
                    assert(ts@[p as int] == '-');
                }
            }
            let left_t = crate::text::trim_str(left);
            let right_t = crate::text::trim_str(right);
            match (parse_i32(left_t.as_str()), parse_i32(right_t.as_str())) {
                (Some(a), Some(b)) => {
                    return BrowseFilter::Range(a, b);
                },
                _ => {},
            }
        },
        None => {},
    }
    match parse_i32(ts) {
        Some(v) => {
            let lo: i32 = if v <= i32::MIN + 50 {
                i32::MIN
            } else {
                v - 50
            };
            let hi: i32 = if v >= i32::MAX - 50 {
                i32::MAX
            } else {
                v + 50
            };
            return BrowseFilter::Range(lo, hi);
        },
        None => {},
    }
    let c0 = ts.get_char(0);
    if c0 == '>' || c0 == '<' {
        let rest = ts.substring_char(1, n);
        proof {
            assert(rest@ =~= ts@.skip(1));
        }
        let rest_t = crate::text::trim_str(rest);
        match parse_i32(rest_t.as_str()) {
            Some(v) => {
                if c0 == '>' {
                    return BrowseFilter::Gt(v);
                } else {
                    return BrowseFilter::Lt(v);
                }
            },
            None => {},
        }
    }
    BrowseFilter::Text(t)
}

/// The slice bounds of the requested page: `page` is 1-based, a page of zero
/// or less is treated as page one, and the bounds are clamped to the total.
pub open spec fn spec_page_bounds(page: int, page_size: int, total: int) -> (int, int) {
    let offset = if page > 0 {
        (page - 1) * page_size
    } else {
        0
    };
    let start = if offset < total {
        offset
    } else {
        total
    };
    let end = if offset + page_size < total {
        offset + page_size
    } else {
        total
    };
    (start, end)
}

pub fn page_bounds(page: usize, page_size: usize, total: usize) -> (r: (usize, usize))
    ensures
        r.0 as int == spec_page_bounds(page as int, page_size as int, total as int).0,
        r.1 as int == spec_page_bounds(page as int, page_size as int, total as int).1,
        r.0 <= r.1 <= total,
{
    let offset_opt: Option<usize> = if page > 0 {
        (page - 1).checked_mul(page_size)
    } else {
        Some(0)
    };
    match offset_opt {
        Some(offset) => {
            let start = if offset < total {
                offset
            } else {
                total
            };
            let end = match offset.checked_add(page_size) {
                Some(e) => {
                    if e < total {
                        e
                    } else {
                        total
                    }
                },
                None => total,
            };
            (start, end)
        },
        None => {
            // the mathematical offset exceeds usize::MAX, hence the total
            proof {
                assert((page - 1) * page_size > usize::MAX) by (nonlinear_arith)
                    requires
                        page > 0,
                        (page - 1) as usize as int == page - 1,
                        !(((page - 1) as usize).checked_mul(page_size) is Some),
                        ((page - 1) as usize).checked_mul(page_size) is Some <==> (page - 1)
                            * page_size <= usize::MAX,
                ;
            }
            (total, total)
        },
    }
}

} // verus!
