use vstd::prelude::*;

use crate::context;
use crate::context::{clone_opt_string, Context};
use crate::text;
use crate::text::{
    chars_of, contains_string, copy_range, dedup_strings, digit_run_exec, find_char,
    join_strings, push_decimal, string_of, trim_bounds,
};
use crate::types;
use crate::types::{
    parse_u32_chars, parse_u32_spec, Highlighter, HighlighterScope, KakounePosition,
    KakouneRange, Location,
};
use crate::util::{strip_an, DEFAULT_NAME};

verus! {

/// Why a location list could not be read.
#[derive(Clone, Copy, Debug, PartialEq, Eq, Structural)]
pub enum LocationListErr {
    InvalidStrList,
    InvalidRange,
    InvalidGrepFmt,
}

impl LocationListErr {
    /// The message of the error.
    pub fn message(&self) -> (r: &'static str)
        ensures
            r@ == match self {
                LocationListErr::InvalidStrList => "Invalid source list"@,
                LocationListErr::InvalidRange => "Invalid range in source list"@,
                LocationListErr::InvalidGrepFmt => "Invalid grep format"@,
            },
    {
        match self {
            LocationListErr::InvalidStrList => "Invalid source list",
            LocationListErr::InvalidRange => "Invalid range in source list",
            LocationListErr::InvalidGrepFmt => "Invalid grep format",
        }
    }
}

/// What a location holds: its file, its range and its preview.
pub type LocationModel = (Seq<char>, KakouneRange, Seq<char>);

pub open spec fn location_views(v: Seq<Location>) -> Seq<LocationModel> {
    v.map_values(|l: Location| l@)
}

pub open spec fn highlighter_views(v: Seq<Highlighter>) -> Seq<
    (Seq<char>, crate::types::HighlighterScope),
> {
    v.map_values(|h: Highlighter| h@)
}

/// A named list of locations, with the index of the current one and the
/// highlighters that show it.
#[derive(Debug)]
pub struct LocationList {
    pub highlighters: Vec<Highlighter>,
    pub index: usize,
    pub locations: Vec<Location>,
    pub name: String,
}

impl LocationList {
    /// The highlighters form a set: no two are equal.
    pub open spec fn wf(&self) -> bool {
        highlighter_views(self.highlighters@).no_duplicates()
    }
}

// ---------------------------------------------------------------------------
// grep's output: `file:line:column:text` or `file:line:text`
// ---------------------------------------------------------------------------

/// Whether the filename of a grep line can end at `p`: a `:`, one or more
/// decimal digits (`text::is_decimal_digit`), and a `:` again.
pub open spec fn grep_sep_at(l: Seq<char>, p: int) -> bool {
    let r = text::digit_run(l, p + 1);
    &&& 0 <= p < l.len()
    &&& l[p] == ':'
    &&& r >= 1
    &&& p + 1 + r < l.len()
    &&& l[p + 1 + r] == ':'
}

/// The first index at or after `from` where the filename can end (the
/// shortest filename, as the lazy pattern takes it).
pub open spec fn first_grep_sep(l: Seq<char>, from: int) -> Option<int>
    decreases l.len() - from,
{
    if from < 0 || from >= l.len() {
        None
    } else if grep_sep_at(l, from) {
        Some(from)
    } else {
        first_grep_sep(l, from + 1)
    }
}

/// The location that one line of grep's output gives, or `None` where the line
/// does not have the form or a number does not read as a `u32` (it is too
/// large, or holds a decimal digit other than `0`-`9`).
///
/// The line is `filename:line:` followed by an optional column (digits), an
/// optional `:`, and the preview (trimmed). The filename is the shortest
/// prefix after which the form holds; a missing column is 1.
pub open spec fn grep_line(l: Seq<char>) -> Option<LocationModel> {
    match first_grep_sep(l, 0) {
        None => None,
        Some(p) => {
            let r = text::digit_run(l, p + 1);
            let q = p + 2 + r;
            let c = text::digit_run(l, q);
            let line = parse_u32_spec(l.subrange(p + 1, p + 1 + r));
            let column = if c == 0 {
                Some(1u32)
            } else {
                parse_u32_spec(l.subrange(q, q + c))
            };
            let k = if q + c < l.len() && l[q + c] == ':' {
                q + c + 1
            } else {
                q + c
            };
            match (line, column) {
                (Some(line), Some(column)) => {
                    let pos = KakounePosition { line, column };
                    Some(
                        (
                            l.take(p),
                            KakouneRange { start: pos, end: pos },
                            text::trim(l.subrange(k, l.len() as int)),
                        ),
                    )
                },
                _ => None,
            }
        },
    }
}

/// The locations of the lines, or `None` as soon as one line gives none.
pub open spec fn grep_lines(ls: Seq<Seq<char>>) -> Option<Seq<LocationModel>>
    decreases ls.len(),
{
    if ls.len() == 0 {
        Some(seq![])
    } else {
        match (grep_line(ls[0]), grep_lines(ls.drop_first())) {
            (Some(x), Some(rest)) => Some(seq![x] + rest),
            _ => None,
        }
    }
}

pub proof fn lemma_first_grep_sep(l: Seq<char>, from: int)
    requires
        0 <= from,
    ensures
        first_grep_sep(l, from) matches Some(p) ==> from <= p && grep_sep_at(l, p),
    decreases l.len() - from,
{
    if from < l.len() && !grep_sep_at(l, from) {
        lemma_first_grep_sep(l, from + 1);
    }
}

pub open spec fn prepend<T>(a: Seq<T>, o: Option<Seq<T>>) -> Option<Seq<T>> {
    match o {
        Some(rest) => Some(a + rest),
        None => None,
    }
}

fn first_grep_sep_exec(l: &Vec<char>) -> (r: Option<usize>)
    ensures
        match first_grep_sep(l@, 0) {
            Some(p) => r == Some(p as usize),
            None => r is None,
        },
{
    let n = l.len();
    let mut p: usize = 0;
    while p < n
        invariant
            n == l.len(),
            p <= n,
            first_grep_sep(l@, 0) == first_grep_sep(l@, p as int),
        decreases n - p,
    {
        if l[p] == ':' {
            let r = digit_run_exec(l, p + 1);
            if r >= 1 && p + 1 + r < n && l[p + 1 + r] == ':' {
                assert(grep_sep_at(l@, p as int));
                return Some(p);
            }
        }
        p = p + 1;
    }
    None
}

fn parse_grep_line(l: &Vec<char>) -> (r: Option<Location>)
    ensures
        match grep_line(l@) {
            Some(x) => r matches Some(loc) && loc@ == x,
            None => r is None,
        },
{
    let n = l.len();
    let p = match first_grep_sep_exec(l) {
        Some(p) => p,
        None => return None,
    };
    proof {
        lemma_first_grep_sep(l@, 0);
    }
    let r = digit_run_exec(l, p + 1);
    let q = p + 2 + r;
    let c = digit_run_exec(l, q);
    let line = match parse_u32_chars(l, p + 1, p + 1 + r) {
        Some(x) => x,
        None => return None,
    };
    let column = if c == 0 {
        1u32
    } else {
        match parse_u32_chars(l, q, q + c) {
            Some(x) => x,
            None => return None,
        }
    };
    let k = if q + c < n && l[q + c] == ':' {
        q + c + 1
    } else {
        q + c
    };
    let (a, b) = trim_bounds(l, k, n);
    let pos = KakounePosition { line, column };
    let filename = string_of(l, 0, p);
    let preview = string_of(l, a, b);
    assert(filename@ =~= l@.take(p as int));
    Some(Location { filename, range: KakouneRange { start: pos, end: pos }, preview })
}

impl LocationList {
    /// Reads grep's output (`grep -n`, optionally with columns): one location
    /// per line.
    #[verifier::spinoff_prover]
    #[verifier::rlimit(40)]
    pub fn from_grep(name: &str, input: String) -> (r: Result<LocationList, LocationListErr>)
        ensures
            match grep_lines(text::lines(input@)) {
                Some(locs) => r matches Ok(list) && location_views(list.locations@) == locs
                    && list.name@ == name@ && list.index == 0 && list.highlighters@.len() == 0
                    && list.wf(),
                None => r matches Err(e) && e == LocationListErr::InvalidGrepFmt,
            },
    {
        let v = chars_of(input.as_str());
        let n = v.len();
        let mut locations: Vec<Location> = Vec::new();
        let mut pos: usize = 0;
        while pos < n
            invariant
                v@ == input@,
                n == v.len(),
                pos <= n,
                grep_lines(text::lines(v@)) == prepend(
                    location_views(locations@),
                    grep_lines(text::lines_from(v@, pos as int)),
                ),
            decreases n - pos,
        {
            let e = find_char(&v, '\n', pos, n);
            proof {
                text::lemma_find_char_first(v@, '\n', pos as int, e as int);
            }
            let mut end = e;
            if e < n && e > pos && v[e - 1] == '\r' {
                end = e - 1;
            }
            let line = copy_range(&v, pos, end);
            let ghost rest = text::lines_from(v@, if e < n { e + 1 } else { n as int });
            proof {
                if e < n {
                    assert(line@ =~= text::strip_cr(v@.subrange(pos as int, e as int)));
                    assert(text::lines_from(v@, pos as int) == seq![line@] + rest);
                } else {
                    assert(text::lines_from(v@, pos as int) == seq![line@]);
                    assert(rest == Seq::<Seq<char>>::empty());
                    assert(seq![line@] + rest =~= seq![line@]);
                }
                assert((seq![line@] + rest).drop_first() =~= rest);
                assert((seq![line@] + rest)[0] == line@);
            }
            match parse_grep_line(&line) {
                None => {
                    return Err(LocationListErr::InvalidGrepFmt);
                },
                Some(loc) => {
                    proof {
                        assert(location_views(locations@.push(loc)) =~= location_views(locations@)
                            + seq![loc@]);
                        match grep_lines(rest) {
                            Some(more) => {
                                assert(location_views(locations@) + (seq![loc@] + more)
                                    =~= location_views(locations@) + seq![loc@] + more);
                            },
                            None => {},
                        }
                    }
                    locations.push(loc);
                },
            }
            if e == n {
                pos = n;
            } else {
                pos = e + 1;
            }
        }
        proof {
            assert(location_views(locations@) + seq![] =~= location_views(locations@));
        }
        Ok(
            LocationList {
                highlighters: Vec::new(),
                index: 0,
                locations,
                name: name.to_owned(),
            },
        )
    }
}


// ---------------------------------------------------------------------------
// The editor's quoted list: `'file|line.column,line.column|preview' ...`
// ---------------------------------------------------------------------------

/// The ends of the four numbers that follow a `|` at `p`: each number is the
/// run of decimal digits after the previous end (or after `p`) and one
/// separator.
pub open spec fn number_ends(s: Seq<char>, p: int) -> (int, int, int, int) {
    let e1 = p + 1 + text::digit_run(s, p + 1);
    let e2 = e1 + 1 + text::digit_run(s, e1 + 1);
    let e3 = e2 + 1 + text::digit_run(s, e2 + 1);
    let e4 = e3 + 1 + text::digit_run(s, e3 + 1);
    (e1, e2, e3, e4)
}

/// The first `'` at or after `j`, unless a line ends before it.
pub open spec fn closing_quote(s: Seq<char>, j: int) -> Option<int>
    decreases s.len() - j,
{
    if j < 0 || j >= s.len() {
        None
    } else if s[j] == '\'' {
        Some(j)
    } else if s[j] == '\n' {
        None
    } else {
        closing_quote(s, j + 1)
    }
}

/// Whether `|line.column,line.column|preview'` stands at `p`; if so, the
/// index of the closing `'`.
pub open spec fn entry_tail(s: Seq<char>, p: int) -> Option<int> {
    let (e1, e2, e3, e4) = number_ends(s, p);
    if 0 <= p < s.len() && s[p] == '|' && e1 > p + 1 && e1 < s.len() && s[e1] == '.' && e2 > e1
        + 1 && e2 < s.len() && s[e2] == ',' && e3 > e2 + 1 && e3 < s.len() && s[e3] == '.' && e4
        > e3 + 1 && e4 < s.len() && s[e4] == '|' {
        closing_quote(s, e4 + 1)
    } else {
        None
    }
}

/// The first `|` at or after `from`, before the line ends, that the rest of an
/// entry follows (the filename is the shortest that fits).
pub open spec fn entry_bar(s: Seq<char>, from: int) -> Option<int>
    decreases s.len() - from,
{
    if from < 0 || from >= s.len() || s[from] == '\n' {
        None
    } else if entry_tail(s, from) is Some {
        Some(from)
    } else {
        entry_bar(s, from + 1)
    }
}

/// Whether an entry starts at `a`: a `'` and then a filename, a range and a
/// preview; if so, the index of the `|` that ends the filename.
pub open spec fn entry_at(s: Seq<char>, a: int) -> Option<int> {
    if 0 <= a < s.len() && s[a] == '\'' {
        entry_bar(s, a + 1)
    } else {
        None
    }
}

/// The leftmost entry that starts at or after `from`: its start and its `|`.
pub open spec fn next_entry(s: Seq<char>, from: int) -> Option<(int, int)>
    decreases s.len() - from,
{
    if from < 0 || from >= s.len() {
        None
    } else {
        match entry_at(s, from) {
            Some(p) => Some((from, p)),
            None => next_entry(s, from + 1),
        }
    }
}

/// The location of the entry that starts at `a`, has its `|` at `p` and its
/// closing `'` at `k`; `None` where a number does not read as a `u32` (it is
/// too large, or holds a decimal digit other than `0`-`9`).
pub open spec fn entry_location(s: Seq<char>, a: int, p: int, k: int) -> Option<LocationModel> {
    let (e1, e2, e3, e4) = number_ends(s, p);
    match (
        parse_u32_spec(s.subrange(p + 1, e1)),
        parse_u32_spec(s.subrange(e1 + 1, e2)),
        parse_u32_spec(s.subrange(e2 + 1, e3)),
        parse_u32_spec(s.subrange(e3 + 1, e4)),
    ) {
        (Some(sl), Some(sc), Some(el), Some(ec)) => Some(
            (
                s.subrange(a + 1, p),
                KakouneRange {
                    start: KakounePosition { line: sl, column: sc },
                    end: KakounePosition { line: el, column: ec },
                },
                s.subrange(e4 + 1, k),
            ),
        ),
        _ => None,
    }
}

/// The locations of the entries from `from` on, each entry searched after the
/// end of the one before; `None` as soon as one has a number that does not
/// read as a `u32`.
#[verifier::opaque]
pub open spec fn list_entries(s: Seq<char>, from: int) -> Option<Seq<LocationModel>>
    decreases s.len() - from,
{
    if from < 0 || from > s.len() {
        Some(seq![])
    } else {
        match next_entry(s, from) {
            None => Some(seq![]),
            Some((a, p)) => match entry_tail(s, p) {
                Some(k) => if k < from || k >= s.len() {
                    Some(seq![])
                } else {
                    match (entry_location(s, a, p, k), list_entries(s, k + 1)) {
                        (Some(x), Some(rest)) => Some(seq![x] + rest),
                        _ => None,
                    }
                },
                None => Some(seq![]),
            },
        }
    }
}

pub proof fn lemma_closing_quote(s: Seq<char>, j: int)
    requires
        0 <= j,
    ensures
        closing_quote(s, j) matches Some(k) ==> j <= k < s.len() && s[k] == '\'',
    decreases s.len() - j,
{
    if j < s.len() && s[j] != '\'' && s[j] != '\n' {
        lemma_closing_quote(s, j + 1);
    }
}

pub proof fn lemma_entry_bar(s: Seq<char>, from: int)
    requires
        0 <= from,
    ensures
        entry_bar(s, from) matches Some(p) ==> from <= p < s.len() && entry_tail(s, p) is Some,
    decreases s.len() - from,
{
    if from < s.len() && s[from] != '\n' && entry_tail(s, from) is None {
        lemma_entry_bar(s, from + 1);
    }
}

pub proof fn lemma_next_entry(s: Seq<char>, from: int)
    requires
        0 <= from,
    ensures
        next_entry(s, from) matches Some((a, p)) ==> from <= a < p < s.len() && entry_tail(s, p) is Some,
    decreases s.len() - from,
{
    if from < s.len() {
        if entry_at(s, from) is None {
            lemma_next_entry(s, from + 1);
        } else {
            lemma_entry_bar(s, from + 1);
        }
    }
}

pub proof fn lemma_entry_tail(s: Seq<char>, p: int)
    requires
        0 <= p,
    ensures
        entry_tail(s, p) matches Some(k) ==> {
            let (e1, e2, e3, e4) = number_ends(s, p);
            p < e1 < e2 < e3 < e4 < k < s.len()
        },
{
    let (e1, e2, e3, e4) = number_ends(s, p);
    if 0 <= p < s.len() && e4 < s.len() {
        lemma_closing_quote(s, e4 + 1);
    }
}

fn closing_quote_exec(v: &Vec<char>, j: usize) -> (r: Option<usize>)
    ensures
        match closing_quote(v@, j as int) {
            Some(k) => r == Some(k as usize),
            None => r is None,
        },
{
    let mut i = j;
    while i < v.len()
        invariant
            j <= i,
            closing_quote(v@, j as int) == closing_quote(v@, i as int),
        decreases v.len() - i,
    {
        if v[i] == '\'' {
            return Some(i);
        }
        if v[i] == '\n' {
            return None;
        }
        i = i + 1;
    }
    None
}

fn entry_tail_exec(v: &Vec<char>, p: usize) -> (r: Option<usize>)
    requires
        p < v.len(),
    ensures
        match entry_tail(v@, p as int) {
            Some(k) => r == Some(k as usize),
            None => r is None,
        },
{
    let n = v.len();
    if v[p] != '|' {
        return None;
    }
    let e1 = p + 1 + digit_run_exec(v, p + 1);
    if !(e1 > p + 1 && e1 < n && v[e1] == '.') {
        return None;
    }
    let e2 = e1 + 1 + digit_run_exec(v, e1 + 1);
    if !(e2 > e1 + 1 && e2 < n && v[e2] == ',') {
        return None;
    }
    let e3 = e2 + 1 + digit_run_exec(v, e2 + 1);
    if !(e3 > e2 + 1 && e3 < n && v[e3] == '.') {
        return None;
    }
    let e4 = e3 + 1 + digit_run_exec(v, e3 + 1);
    if !(e4 > e3 + 1 && e4 < n && v[e4] == '|') {
        return None;
    }
    closing_quote_exec(v, e4 + 1)
}

fn entry_bar_exec(v: &Vec<char>, from: usize) -> (r: Option<usize>)
    ensures
        match entry_bar(v@, from as int) {
            Some(p) => r == Some(p as usize),
            None => r is None,
        },
{
    let mut p = from;
    while p < v.len()
        invariant
            from <= p,
            entry_bar(v@, from as int) == entry_bar(v@, p as int),
        decreases v.len() - p,
    {
        if v[p] == '\n' {
            return None;
        }
        if v[p] == '|' {
            if entry_tail_exec(v, p).is_some() {
                return Some(p);
            }
        } else {
            assert(entry_tail(v@, p as int) is None);
        }
        p = p + 1;
    }
    None
}

fn next_entry_exec(v: &Vec<char>, from: usize) -> (r: Option<(usize, usize)>)
    ensures
        match next_entry(v@, from as int) {
            Some((a, p)) => r == Some((a as usize, p as usize)),
            None => r is None,
        },
{
    let mut a = from;
    while a < v.len()
        invariant
            from <= a,
            next_entry(v@, from as int) == next_entry(v@, a as int),
        decreases v.len() - a,
    {
        if v[a] == '\'' {
            match entry_bar_exec(v, a + 1) {
                Some(p) => {
                    return Some((a, p));
                },
                None => {},
            }
        }
        a = a + 1;
    }
    None
}

impl LocationList {
    /// Reads the editor's quoted list of locations,
    /// `'file|line.column,line.column|preview'` entries one after the other.
    ///
    /// Each entry is the leftmost one after the previous entry: a `'`, the
    /// shortest filename (no line end in it) after which a `|`, four numbers
    /// `line.column,line.column`, a `|` and a preview up to the next `'` on
    /// the same line follow. Text that is no entry is skipped.
    #[verifier::spinoff_prover]
    pub fn from_str_list(name: &str, input: &str) -> (r: Result<LocationList, LocationListErr>)
        ensures
            match list_entries(input@, 0) {
                Some(locs) => r matches Ok(list) && location_views(list.locations@) == locs
                    && list.name@ == name@ && list.index == 0 && list.highlighters@.len() == 0
                    && list.wf(),
                None => r matches Err(e) && e == LocationListErr::InvalidRange,
            },
    {
        reveal(list_entries);
        let v = chars_of(input);
        let n = v.len();
        let mut locations: Vec<Location> = Vec::new();
        let mut pos: usize = 0;
        loop
            invariant
                v@ == input@,
                n == v.len(),
                pos <= n,
                list_entries(v@, 0) == prepend(
                    location_views(locations@),
                    list_entries(v@, pos as int),
                ),
            ensures
                list_entries(v@, 0) == Some(location_views(locations@)),
            decreases n - pos,
        {
            proof {
                reveal(list_entries);
            }
            let (a, p) = match next_entry_exec(&v, pos) {
                Some(m) => m,
                None => {
                    proof {
                        assert(location_views(locations@) + seq![] =~= location_views(locations@));
                    }
                    break;
                },
            };
            proof {
                lemma_next_entry(v@, pos as int);
                lemma_entry_tail(v@, p as int);
            }
            let k = match entry_tail_exec(&v, p) {
                Some(k) => k,
                None => {
                    return Err(LocationListErr::InvalidStrList);
                },
            };
            let e1 = p + 1 + digit_run_exec(&v, p + 1);
            let e2 = e1 + 1 + digit_run_exec(&v, e1 + 1);
            let e3 = e2 + 1 + digit_run_exec(&v, e2 + 1);
            let e4 = e3 + 1 + digit_run_exec(&v, e3 + 1);
            let sl = parse_u32_chars(&v, p + 1, e1);
            let sc = parse_u32_chars(&v, e1 + 1, e2);
            let el = parse_u32_chars(&v, e2 + 1, e3);
            let ec = parse_u32_chars(&v, e3 + 1, e4);
            let range = match (sl, sc, el, ec) {
                (Some(sl), Some(sc), Some(el), Some(ec)) => KakouneRange {
                    start: KakounePosition { line: sl, column: sc },
                    end: KakounePosition { line: el, column: ec },
                },
                _ => {
                    return Err(LocationListErr::InvalidRange);
                },
            };
            let loc = Location {
                filename: string_of(&v, a + 1, p),
                range,
                preview: string_of(&v, e4 + 1, k),
            };
            proof {
                assert(location_views(locations@.push(loc)) =~= location_views(locations@) + seq![
                    loc@,
                ]);
                match list_entries(v@, k + 1) {
                    Some(more) => {
                        assert(location_views(locations@) + (seq![loc@] + more)
                            =~= location_views(locations@) + seq![loc@] + more);
                    },
                    None => {},
                }
            }
            locations.push(loc);
            pos = k + 1;
        }
        Ok(
            LocationList {
                highlighters: Vec::new(),
                index: 0,
                locations,
                name: name.to_owned(),
            },
        )
    }
}


// ---------------------------------------------------------------------------
// Range-specs: one option per file for the highlights, one for the indices
// ---------------------------------------------------------------------------

/// An option of range-specs: its name and its members.
pub type RangeOption = (Seq<char>, Seq<Seq<char>>);

/// The first index at or after `from` of the option named `key`.
pub open spec fn option_index(opts: Seq<RangeOption>, key: Seq<char>, from: int) -> Option<int>
    decreases opts.len() - from,
{
    if from < 0 || from >= opts.len() {
        None
    } else if opts[from].0 == key {
        Some(from)
    } else {
        option_index(opts, key, from + 1)
    }
}

/// `m` added to the option `key`, made at the end if there is none yet.
pub open spec fn add_member(opts: Seq<RangeOption>, key: Seq<char>, m: Seq<char>) -> Seq<
    RangeOption,
> {
    match option_index(opts, key, 0) {
        Some(j) => opts.update(j, (key, opts[j].1.push(m))),
        None => opts.push((key, seq![m])),
    }
}

/// The options of range-specs of a list of locations, in the order in which
/// their names first come: for location `i` of file `f` (stripped to its
/// alphanumeric characters), `range|loli_highlight` goes to `f_highlight` and
/// `range|i` to `f_indices`.
pub open spec fn range_options(locs: Seq<LocationModel>) -> Seq<RangeOption>
    decreases locs.len(),
{
    if locs.len() == 0 {
        seq![]
    } else {
        let i = locs.len() - 1;
        let loc = locs[i];
        let f = text::keep_alphanumeric(loc.0);
        let opts = add_member(
            range_options(locs.drop_last()),
            f + "_highlight"@,
            types::range_text(loc.1) + "|loli_highlight"@,
        );
        add_member(opts, f + "_indices"@, types::range_text(loc.1) + "|"@ + text::decimal(i as nat))
    }
}

/// The commands that declare and set one option of range-specs of list `list`.
pub open spec fn option_command(list: Seq<char>, timestamp: nat, opt: RangeOption) -> Seq<char> {
    "decl range-specs loli_"@ + list + "_"@ + opt.0
        + "\n                        set global loli_"@ + list + "_"@ + opt.0 + " "@
        + text::decimal(timestamp) + " '"@ + text::join(opt.1, "' '"@) + "'"@
}

/// The script that declares and sets every option of range-specs of a list.
pub open spec fn ranges_script(list: Seq<char>, timestamp: nat, locs: Seq<LocationModel>) -> Seq<
    char,
> {
    text::join(
        range_options(locs).map_values(|o: RangeOption| option_command(list, timestamp, o)),
        "\n"@,
    )
}

pub open spec fn options_view(keys: Seq<String>, members: Seq<Vec<String>>) -> Seq<RangeOption> {
    Seq::new(keys.len(), |j: int| (keys[j]@, text::views(members[j]@)))
}

pub proof fn lemma_option_index(opts: Seq<RangeOption>, key: Seq<char>, from: int, k: int)
    requires
        0 <= from <= k <= opts.len(),
        forall|j: int| from <= j < k ==> opts[j].0 != key,
    ensures
        k < opts.len() && opts[k].0 == key ==> option_index(opts, key, from) == Some(k),
        k == opts.len() ==> option_index(opts, key, from) is None,
    decreases k - from,
{
    if from < k {
        lemma_option_index(opts, key, from + 1, k);
    }
}

/// Whether option `key` of `opts` has member `m`.
pub open spec fn has_member(opts: Seq<RangeOption>, key: Seq<char>, m: Seq<char>) -> bool {
    exists|j: int| 0 <= j < opts.len() && opts[j].0 == key && opts[j].1.contains(m)
}

/// No two options have the same name.
pub open spec fn option_names_unique(opts: Seq<RangeOption>) -> bool {
    forall|a: int, b: int| 0 <= a < opts.len() && 0 <= b < opts.len() && a != b ==> opts[a].0 != opts[b].0
}

pub proof fn lemma_option_index_found(opts: Seq<RangeOption>, key: Seq<char>, from: int)
    requires
        0 <= from,
    ensures
        option_index(opts, key, from) matches Some(j) ==> from <= j < opts.len() && opts[j].0 == key,
        option_index(opts, key, from) is None ==> forall|j: int| from <= j < opts.len() ==> opts[j].0 != key,
    decreases opts.len() - from,
{
    if from < opts.len() && opts[from].0 != key {
        lemma_option_index_found(opts, key, from + 1);
    }
}

/// Adding a member puts it in its option and keeps every other member and
/// the names apart.
pub proof fn lemma_add_member(opts: Seq<RangeOption>, key: Seq<char>, m: Seq<char>)
    ensures
        has_member(add_member(opts, key, m), key, m),
        option_names_unique(opts) ==> option_names_unique(add_member(opts, key, m)),
{
    lemma_option_index_found(opts, key, 0);
    let r = add_member(opts, key, m);
    match option_index(opts, key, 0) {
        Some(j) => {
            assert(r[j].1 == opts[j].1.push(m));
            assert(r[j].1[opts[j].1.len() as int] == m);
        },
        None => {
            assert(r[opts.len() as int] == (key, seq![m]));
            assert(seq![m][0] == m);
        },
    }
}

pub proof fn lemma_add_member_keeps(
    opts: Seq<RangeOption>,
    key: Seq<char>,
    m: Seq<char>,
    k: Seq<char>,
    x: Seq<char>,
)
    requires
        has_member(opts, k, x),
    ensures
        has_member(add_member(opts, key, m), k, x),
{
    lemma_option_index_found(opts, key, 0);
    let r = add_member(opts, key, m);
    let j0 = choose|j: int| 0 <= j < opts.len() && opts[j].0 == k && opts[j].1.contains(x);
    let t = choose|t: int| 0 <= t < opts[j0].1.len() && opts[j0].1[t] == x;
    match option_index(opts, key, 0) {
        Some(j) => {
            if j == j0 {
                assert(r[j0].1 == opts[j0].1.push(m));
                assert(r[j0].1[t] == x);
            } else {
                assert(r[j0] == opts[j0]);
            }
        },
        None => {
            assert(r[j0] == opts[j0]);
        },
    }
}

/// What `gen_ranges` sets for each location: location `i` of a file `f`
/// (stripped to its alphanumeric characters) is a member of option
/// `f_highlight`, written `range|loli_highlight`, and of option `f_indices`,
/// written `range|i`, so that its index reads back from the editor; and no two
/// options have the same name.
pub proof fn lemma_range_options_members(locs: Seq<LocationModel>, i: int)
    requires
        0 <= i < locs.len(),
    ensures
        has_member(
            range_options(locs),
            text::keep_alphanumeric(locs[i].0) + "_highlight"@,
            types::range_text(locs[i].1) + "|loli_highlight"@,
        ),
        has_member(
            range_options(locs),
            text::keep_alphanumeric(locs[i].0) + "_indices"@,
            types::range_text(locs[i].1) + "|"@ + text::decimal(i as nat),
        ),
        option_names_unique(range_options(locs)),
    decreases locs.len(),
{
    let n = locs.len() - 1;
    let loc = locs[n];
    let f = text::keep_alphanumeric(loc.0);
    let prev = range_options(locs.drop_last());
    let kh = f + "_highlight"@;
    let mh = types::range_text(loc.1) + "|loli_highlight"@;
    let ki = f + "_indices"@;
    let mi = types::range_text(loc.1) + "|"@ + text::decimal(n as nat);
    let o1 = add_member(prev, kh, mh);
    assert(range_options(locs) == add_member(o1, ki, mi));
    if n > 0 {
        lemma_range_options_members(locs.drop_last(), if i < n { i } else { 0 });
    } else {
        assert(prev.len() == 0);
    }
    lemma_add_member(prev, kh, mh);
    lemma_add_member(o1, ki, mi);
    if i < n {
        assert(locs.drop_last()[i] == locs[i]);
        let ah = text::keep_alphanumeric(locs[i].0) + "_highlight"@;
        let bh = types::range_text(locs[i].1) + "|loli_highlight"@;
        let ai = text::keep_alphanumeric(locs[i].0) + "_indices"@;
        let bi = types::range_text(locs[i].1) + "|"@ + text::decimal(i as nat);
        lemma_add_member_keeps(prev, kh, mh, ah, bh);
        lemma_add_member_keeps(o1, ki, mi, ah, bh);
        lemma_add_member_keeps(prev, kh, mh, ai, bi);
        lemma_add_member_keeps(o1, ki, mi, ai, bi);
    } else {
        lemma_add_member_keeps(o1, ki, mi, kh, mh);
    }
}

fn add_member_exec(keys: &mut Vec<String>, members: &mut Vec<Vec<String>>, key: String, m: String)
    requires
        old(keys).len() == old(members).len(),
    ensures
        final(keys).len() == final(members).len(),
        options_view(final(keys)@, final(members)@) == add_member(
            options_view(old(keys)@, old(members)@),
            key@,
            m@,
        ),
{
    let ghost opts = options_view(keys@, members@);
    let mut j: usize = 0;
    while j < keys.len()
        invariant
            keys@ == old(keys)@,
            members@ == old(members)@,
            keys.len() == members.len(),
            opts == options_view(keys@, members@),
            j <= keys.len(),
            forall|i: int| 0 <= i < j ==> opts[i].0 != key@,
        decreases keys.len() - j,
    {
        if keys[j] == key {
            proof {
                lemma_option_index(opts, key@, 0, j as int);
            }
            let ghost old_members = members@;
            members[j].push(m);
            proof {
                assert(text::views(members@[j as int]@) =~= text::views(old_members[j as int]@).push(m@));
                assert(options_view(keys@, members@) =~= opts.update(
                    j as int,
                    (key@, opts[j as int].1.push(m@)),
                ));
            }
            return;
        }
        j = j + 1;
    }
    proof {
        lemma_option_index(opts, key@, 0, j as int);
    }
    let mut fresh: Vec<String> = Vec::new();
    fresh.push(m);
    keys.push(key);
    members.push(fresh);
    proof {
        assert(text::views(fresh@) =~= seq![m@]);
        assert(options_view(keys@, members@) =~= opts.push((key@, seq![m@])));
    }
}

/// The commands of one option of range-specs, from its name and members.
fn option_command_exec(list: &String, timestamp: usize, key: &String, members: &Vec<String>) -> (r:
    String)
    ensures
        r@ == option_command(list@, timestamp as nat, (key@, text::views(members@))),
{
    let mut r = String::new();
    r.append("decl range-specs loli_");
    r.append(list.as_str());
    r.append("_");
    r.append(key.as_str());
    r.append("\n                        set global loli_");
    r.append(list.as_str());
    r.append("_");
    r.append(key.as_str());
    r.append(" ");
    push_decimal(&mut r, timestamp as u64);
    r.append(" '");
    let joined = join_strings(members, "' '");
    r.append(joined.as_str());
    r.append("'");
    r
}

/// The commands of `highlight_all` for one buffer.
pub open spec fn buffer_highlight_command(file: Seq<char>, list: Seq<char>, stripped: Seq<char>) -> Seq<
    char,
> {
    "eval -save-regs a -draft %{\n                    exec '\"aZ'\n                    edit "@ + file
        + "\n                    add-highlighter -override buffer/ ranges loli_"@ + list + "_"@
        + stripped + "_highlight\n                    add-highlighter -override buffer/ ranges loli_"@
        + list + "_"@ + stripped
        + "_indices\n                    exec '\"az'\n                }"@
}

/// The files of a list of locations, each stripped to its alphanumeric characters.
pub open spec fn stripped_files(locs: Seq<LocationModel>) -> Seq<Seq<char>> {
    locs.map_values(|l: LocationModel| text::keep_alphanumeric(l.0))
}

/// The buffers whose stripped name is the stripped name of one of the files.
pub open spec fn shown_buffers(buffers: Seq<Seq<char>>, files: Seq<Seq<char>>) -> Seq<Seq<char>>
    decreases buffers.len(),
{
    if buffers.len() == 0 {
        seq![]
    } else {
        let rest = shown_buffers(buffers.drop_last(), files);
        if files.contains(text::keep_alphanumeric(buffers.last())) {
            rest.push(buffers.last())
        } else {
            rest
        }
    }
}

/// `h` added to a set of highlighters kept as a sequence without repeats.
pub open spec fn insert_highlighter(
    hs: Seq<(Seq<char>, HighlighterScope)>,
    h: (Seq<char>, HighlighterScope),
) -> Seq<(Seq<char>, HighlighterScope)> {
    if hs.contains(h) {
        hs
    } else {
        hs.push(h)
    }
}

/// Highlighters on each of `buffers`, at buffer level, added to `hs`.
pub open spec fn insert_buffer_highlighters(
    hs: Seq<(Seq<char>, HighlighterScope)>,
    buffers: Seq<Seq<char>>,
) -> Seq<(Seq<char>, HighlighterScope)>
    decreases buffers.len(),
{
    if buffers.len() == 0 {
        hs
    } else {
        insert_highlighter(
            insert_buffer_highlighters(hs, buffers.drop_last()),
            (buffers.last(), HighlighterScope::Buffer),
        )
    }
}

pub proof fn lemma_insert_highlighter(
    hs: Seq<(Seq<char>, HighlighterScope)>,
    h: (Seq<char>, HighlighterScope),
)
    requires
        hs.no_duplicates(),
    ensures
        insert_highlighter(hs, h).no_duplicates(),
        forall|x| #[trigger] insert_highlighter(hs, h).contains(x) <==> hs.contains(x) || x == h,
{
    let r = insert_highlighter(hs, h);
    if !hs.contains(h) {
        assert forall|i: int, j: int| 0 <= i < r.len() && 0 <= j < r.len() && i != j implies r[i]
            != r[j] by {
            if i == hs.len() {
                assert(r[j] == hs[j]);
            } else if j == hs.len() {
                assert(r[i] == hs[i]);
            }
        }
        assert forall|x| #[trigger] r.contains(x) <==> hs.contains(x) || x == h by {
            if r.contains(x) {
                let k = choose|k: int| 0 <= k < r.len() && r[k] == x;
                if k < hs.len() {
                    assert(hs[k] == x);
                }
            }
            if hs.contains(x) {
                let k = choose|k: int| 0 <= k < hs.len() && hs[k] == x;
                assert(r[k] == x);
            }
            if x == h {
                assert(r[hs.len() as int] == x);
            }
        }
    }
}

/// The commands of `highlight_all` on list `name` with locations `locs` and
/// the editor's buffers `buffers`: only the shared list shows itself so.
pub open spec fn highlight_all_commands(
    name: Seq<char>,
    locs: Seq<LocationModel>,
    buffers: Seq<Seq<char>>,
) -> Seq<Seq<char>> {
    if name == DEFAULT_NAME@ {
        shown_buffers(buffers, stripped_files(locs)).map_values(
            |b: Seq<char>| buffer_highlight_command(b, name, text::keep_alphanumeric(b)),
        )
    } else {
        seq![]
    }
}

/// The highlighters `hs` of list `name` after `highlight_all`.
pub open spec fn highlighted(
    hs: Seq<(Seq<char>, HighlighterScope)>,
    name: Seq<char>,
    locs: Seq<LocationModel>,
    buffers: Seq<Seq<char>>,
) -> Seq<(Seq<char>, HighlighterScope)> {
    if name == DEFAULT_NAME@ {
        insert_buffer_highlighters(hs, shown_buffers(buffers, stripped_files(locs)))
    } else {
        hs
    }
}

pub proof fn lemma_insert_highlighter_contains(
    hs: Seq<(Seq<char>, HighlighterScope)>,
    h: (Seq<char>, HighlighterScope),
    x: (Seq<char>, HighlighterScope),
)
    ensures
        insert_highlighter(hs, h).contains(x) <==> hs.contains(x) || x == h,
{
    if !hs.contains(h) {
        let r = hs.push(h);
        if r.contains(x) {
            let k = choose|k: int| 0 <= k < r.len() && r[k] == x;
            if k < hs.len() {
                assert(hs[k] == x);
            }
        }
        if hs.contains(x) {
            let k = choose|k: int| 0 <= k < hs.len() && hs[k] == x;
            assert(r[k] == x);
        }
        assert(r[hs.len() as int] == h);
    }
}

pub proof fn lemma_insert_buffer_highlighters(
    hs: Seq<(Seq<char>, HighlighterScope)>,
    bs: Seq<Seq<char>>,
    x: (Seq<char>, HighlighterScope),
)
    ensures
        insert_buffer_highlighters(hs, bs).contains(x) <==> hs.contains(x) || (x.1
            == HighlighterScope::Buffer && bs.contains(x.0)),
    decreases bs.len(),
{
    if bs.len() > 0 {
        let prev = bs.drop_last();
        lemma_insert_buffer_highlighters(hs, prev, x);
        lemma_insert_highlighter_contains(
            insert_buffer_highlighters(hs, prev),
            (bs.last(), HighlighterScope::Buffer),
            x,
        );
        if bs.contains(x.0) {
            let k = choose|k: int| 0 <= k < bs.len() && bs[k] == x.0;
            if k < prev.len() {
                assert(prev[k] == x.0);
            }
        }
        if prev.contains(x.0) {
            let k = choose|k: int| 0 <= k < prev.len() && prev[k] == x.0;
            assert(bs[k] == x.0);
        }
    }
}

pub proof fn lemma_shown_buffers(buffers: Seq<Seq<char>>, files: Seq<Seq<char>>, b: Seq<char>)
    ensures
        shown_buffers(buffers, files).contains(b) <==> buffers.contains(b) && files.contains(
            text::keep_alphanumeric(b),
        ),
    decreases buffers.len(),
{
    if buffers.len() > 0 {
        let prev = buffers.drop_last();
        let rest = shown_buffers(prev, files);
        lemma_shown_buffers(prev, files, b);
        if files.contains(text::keep_alphanumeric(buffers.last())) {
            let r = rest.push(buffers.last());
            assert(r[rest.len() as int] == buffers.last());
            if r.contains(b) {
                let k = choose|k: int| 0 <= k < r.len() && r[k] == b;
                if k < rest.len() {
                    assert(rest[k] == b);
                }
            }
            if rest.contains(b) {
                let k = choose|k: int| 0 <= k < rest.len() && rest[k] == b;
                assert(r[k] == b);
            }
        }
        if buffers.contains(b) {
            let k = choose|k: int| 0 <= k < buffers.len() && buffers[k] == b;
            if k < prev.len() {
                assert(prev[k] == b);
            }
        }
        if prev.contains(b) {
            let k = choose|k: int| 0 <= k < prev.len() && prev[k] == b;
            assert(buffers[k] == b);
        }
    }
}

/// Whether one of the locations is in a file whose stripped name is that of
/// `b`.
pub open spec fn has_stripped_file(locs: Seq<LocationModel>, b: Seq<char>) -> bool {
    exists|i: int|
        0 <= i < locs.len() && text::keep_alphanumeric(locs[i].0) == text::keep_alphanumeric(b)
}

/// What `highlight_all` does with the shared list: a buffer of the editor
/// gets a buffer-level highlighter, and a command that shows the list on it,
/// exactly where any location of the list is in a file with the same stripped
/// name; another list shows nothing and keeps its highlighters.
pub proof fn lemma_highlight_all_shows(
    hs: Seq<(Seq<char>, HighlighterScope)>,
    name: Seq<char>,
    locs: Seq<LocationModel>,
    buffers: Seq<Seq<char>>,
    b: Seq<char>,
)
    ensures
        name == DEFAULT_NAME@ ==> (highlighted(hs, name, locs, buffers).contains(
            (b, HighlighterScope::Buffer),
        ) <==> hs.contains((b, HighlighterScope::Buffer)) || (buffers.contains(b)
            && has_stripped_file(locs, b))),
        name == DEFAULT_NAME@ && buffers.contains(b) && has_stripped_file(locs, b)
            ==> highlight_all_commands(name, locs, buffers).contains(
            buffer_highlight_command(b, name, text::keep_alphanumeric(b)),
        ),
        name != DEFAULT_NAME@ ==> highlighted(hs, name, locs, buffers) == hs
            && highlight_all_commands(name, locs, buffers).len() == 0,
{
    let files = stripped_files(locs);
    let kb = text::keep_alphanumeric(b);
    if has_stripped_file(locs, b) {
        let i = choose|i: int|
            0 <= i < locs.len() && text::keep_alphanumeric(locs[i].0) == text::keep_alphanumeric(b);
        assert(files[i] == kb);
    }
    if files.contains(kb) {
        let i = choose|i: int| 0 <= i < files.len() && files[i] == kb;
        assert(text::keep_alphanumeric(locs[i].0) == kb);
    }
    let shown = shown_buffers(buffers, files);
    lemma_shown_buffers(buffers, files, b);
    lemma_insert_buffer_highlighters(hs, shown, (b, HighlighterScope::Buffer));
    if name == DEFAULT_NAME@ && buffers.contains(b) && has_stripped_file(locs, b) {
        let k = choose|k: int| 0 <= k < shown.len() && shown[k] == b;
        let cmds = highlight_all_commands(name, locs, buffers);
        assert(cmds[k] == buffer_highlight_command(b, name, kb));
    }
}

/// Adds `h` to the set of highlighters `hs`.
pub fn insert_highlighter_exec(hs: &mut Vec<Highlighter>, h: Highlighter)
    ensures
        highlighter_views(final(hs)@) == insert_highlighter(highlighter_views(old(hs)@), h@),
{
    let ghost views = highlighter_views(hs@);
    let mut i: usize = 0;
    while i < hs.len()
        invariant
            hs@ == old(hs)@,
            views == highlighter_views(hs@),
            i <= hs.len(),
            forall|k: int| 0 <= k < i ==> views[k] != h@,
        decreases hs.len() - i,
    {
        if hs[i].same(&h) {
            assert(views[i as int] == h@);
            return;
        }
        i = i + 1;
    }
    proof {
        assert(!views.contains(h@));
    }
    hs.push(h);
    assert(highlighter_views(hs@) =~= views.push(h@));
}

impl LocationList {
    /// The files of the locations, each stripped to its alphanumeric
    /// characters, with repeats in a row kept once.
    pub fn file_names(&self) -> (r: Vec<String>)
        ensures
            text::views(r@) == text::dedup(stripped_files(location_views(self.locations@))),
    {
        let ghost locs = location_views(self.locations@);
        let ghost files_spec = stripped_files(locs);
        let mut stripped: Vec<String> = Vec::new();
        let mut i: usize = 0;
        while i < self.locations.len()
            invariant
                locs == location_views(self.locations@),
                files_spec == stripped_files(locs),
                i <= self.locations.len(),
                text::views(stripped@) == files_spec.take(i as int),
            decreases self.locations.len() - i,
        {
            let s = strip_an(self.locations[i].filename.as_str());
            let ghost prev = text::views(stripped@);
            stripped.push(s);
            proof {
                assert(text::views(stripped@) =~= prev.push(s@));
                assert(locs[i as int].0 == self.locations@[i as int].filename@);
                assert(files_spec[i as int] == s@);
                assert(text::views(stripped@) =~= files_spec.take(i + 1));
            }
            i = i + 1;
        }
        assert(files_spec.take(i as int) =~= files_spec);
        dedup_strings(stripped)
    }

    /// The script that declares the range-specs used to highlight and track
    /// the locations, one option per file for highlighting and one for the
    /// indices, set at the context's timestamp.
    ///
    /// The options come in the order in which their names first come in the
    /// list.
    #[verifier::spinoff_prover]
    pub fn gen_ranges(&self, ctx: &Context) -> (r: String)
        requires
            ctx.timestamp is Some || self.locations.len() == 0,
        ensures
            r@ == ranges_script(
                self.name@,
                ctx.timestamp->0 as nat,
                location_views(self.locations@),
            ),
    {
        let timestamp = match ctx.timestamp {
            Some(t) => t,
            None => 0,
        };
        let ghost locs = location_views(self.locations@);
        let mut keys: Vec<String> = Vec::new();
        let mut members: Vec<Vec<String>> = Vec::new();
        let mut i: usize = 0;
        while i < self.locations.len()
            invariant
                locs == location_views(self.locations@),
                i <= self.locations.len(),
                keys.len() == members.len(),
                options_view(keys@, members@) == range_options(locs.take(i as int)),
            decreases self.locations.len() - i,
        {
            let loc = &self.locations[i];
            let stripped = strip_an(loc.filename.as_str());
            let mut key_h = stripped.clone();
            key_h.append("_highlight");
            let mut member_h = loc.range.to_string();
            member_h.append("|loli_highlight");
            add_member_exec(&mut keys, &mut members, key_h, member_h);
            let mut key_i = stripped;
            key_i.append("_indices");
            let mut member_i = loc.range.to_string();
            member_i.append("|");
            push_decimal(&mut member_i, i as u64);
            add_member_exec(&mut keys, &mut members, key_i, member_i);
            proof {
                assert(locs.take(i + 1).drop_last() =~= locs.take(i as int));
                assert(locs.take(i + 1)[i as int] == locs[i as int]);
            }
            i = i + 1;
        }
        assert(locs.take(i as int) =~= locs);
        let ghost opts = options_view(keys@, members@);
        let mut commands: Vec<String> = Vec::new();
        let mut j: usize = 0;
        while j < keys.len()
            invariant
                keys.len() == members.len(),
                opts == options_view(keys@, members@),
                opts == range_options(locs),
                j <= keys.len(),
                text::views(commands@) == opts.take(j as int).map_values(
                    |o: RangeOption| option_command(self.name@, timestamp as nat, o),
                ),
            decreases keys.len() - j,
        {
            let c = option_command_exec(&self.name, timestamp, &keys[j], &members[j]);
            proof {
                assert(opts[j as int] == (keys@[j as int]@, text::views(members@[j as int]@)));
            }
            let ghost prev = text::views(commands@);
            commands.push(c);
            proof {
                assert(text::views(commands@) =~= prev.push(c@));
                assert(text::views(commands@) =~= opts.take(j + 1).map_values(
                    |o: RangeOption| option_command(self.name@, timestamp as nat, o),
                ));
            }
            j = j + 1;
        }
        assert(opts.take(j as int) =~= opts);
        proof {
            if ctx.timestamp is None {
                assert(locs =~= Seq::<LocationModel>::empty());
                assert(opts.len() == 0);
                assert(opts.map_values(|o: RangeOption| option_command(self.name@, timestamp as nat, o))
                    =~= opts.map_values(
                    |o: RangeOption| option_command(self.name@, ctx.timestamp->0 as nat, o),
                ));
            }
        }
        join_strings(&commands, "\n")
    }

    /// Shows the shared list on each of `buffers` (the editor's buffer list)
    /// whose stripped name is that of one of the list's files, and records
    /// the highlighters. Returns the commands to run; does nothing for another
    /// list.
    #[verifier::spinoff_prover]
    pub fn highlight_all(&mut self, buffers: &Vec<String>) -> (r: Vec<String>)
        requires
            old(self).wf(),
        ensures
            final(self).wf(),
            final(self).name == old(self).name,
            final(self).index == old(self).index,
            final(self).locations == old(self).locations,
            text::views(r@) == highlight_all_commands(
                old(self).name@,
                location_views(old(self).locations@),
                text::views(buffers@),
            ),
            highlighter_views(final(self).highlighters@) == highlighted(
                highlighter_views(old(self).highlighters@),
                old(self).name@,
                location_views(old(self).locations@),
                text::views(buffers@),
            ),
    {
        let mut r: Vec<String> = Vec::new();
        let default_name = String::from_str(DEFAULT_NAME);
        if self.name != default_name {
            return r;
        }
        let ghost locs = location_views(self.locations@);
        let ghost files_spec = stripped_files(locs);
        let files = self.file_names();
        let ghost buffers_spec = text::views(buffers@);
        let ghost old_hs = highlighter_views(self.highlighters@);
        let mut k: usize = 0;
        while k < buffers.len()
            invariant
                buffers_spec == text::views(buffers@),
                text::views(files@) == text::dedup(files_spec),
                k <= buffers.len(),
                self.name@ == DEFAULT_NAME@,
                self.name == old(self).name,
                self.index == old(self).index,
                self.locations == old(self).locations,
                locs == location_views(self.locations@),
                files_spec == stripped_files(locs),
                old_hs == highlighter_views(old(self).highlighters@),
                self.wf(),
                text::views(r@) == shown_buffers(buffers_spec.take(k as int), files_spec).map_values(
                    |b: Seq<char>| buffer_highlight_command(b, self.name@, text::keep_alphanumeric(b)),
                ),
                highlighter_views(self.highlighters@) == insert_buffer_highlighters(
                    old_hs,
                    shown_buffers(buffers_spec.take(k as int), files_spec),
                ),
            decreases buffers.len() - k,
        {
            let buffer = &buffers[k];
            let s = strip_an(buffer.as_str());
            let shown = contains_string(&files, &s);
            let ghost before = shown_buffers(buffers_spec.take(k as int), files_spec);
            proof {
                text::lemma_dedup_contains(files_spec, s@);
                assert(buffers_spec.take(k + 1).drop_last() =~= buffers_spec.take(k as int));
                assert(buffers_spec.take(k + 1).last() == buffer@);
                assert(before.push(buffer@).drop_last() =~= before);
            }
            if shown {
                let mut c = String::new();
                c.append("eval -save-regs a -draft %{\n                    exec '\"aZ'\n                    edit ");
                c.append(buffer.as_str());
                c.append("\n                    add-highlighter -override buffer/ ranges loli_");
                c.append(self.name.as_str());
                c.append("_");
                c.append(s.as_str());
                c.append("_highlight\n                    add-highlighter -override buffer/ ranges loli_");
                c.append(self.name.as_str());
                c.append("_");
                c.append(s.as_str());
                c.append("_indices\n                    exec '\"az'\n                }");
                let ghost prev_r = text::views(r@);
                r.push(c);
                proof {
                    assert(text::views(r@) =~= prev_r.push(c@));
                    lemma_insert_highlighter(
                        highlighter_views(self.highlighters@),
                        (buffer@, HighlighterScope::Buffer),
                    );
                }
                let h = Highlighter::new(buffer.as_str(), HighlighterScope::Buffer);
                insert_highlighter_exec(&mut self.highlighters, h);
            }
            k = k + 1;
        }
        assert(buffers_spec.take(k as int) =~= buffers_spec);
        r
    }
}


/// The commands that remove every highlighter of list `list`.
pub open spec fn purge_command(list: Seq<char>, hs: Seq<(Seq<char>, HighlighterScope)>) -> Seq<
    char,
> {
    "evaluate-commands -save-regs a -draft %{\n                "@ + text::join(
        hs.map_values(|h: (Seq<char>, HighlighterScope)| types::removal_command(h, list)),
        "\n"@,
    ) + "\n            }"@
}

/// The command that opens a location.
pub open spec fn edit_command(loc: LocationModel) -> Seq<char> {
    "edit "@ + loc.0 + " "@ + text::decimal(loc.1.start.line as nat) + " "@ + text::decimal(
        loc.1.start.column as nat,
    )
}

/// The command that `navigate` returns opens the location at its start: after
/// `edit `, the file name and a space come two numbers, separated by a space,
/// that read back as the start line and the start column.
pub proof fn lemma_edit_command_start(loc: LocationModel)
    ensures
        exists|a: Seq<char>, b: Seq<char>|
            {
                &&& edit_command(loc) == "edit "@ + loc.0 + " "@ + a + " "@ + b
                &&& text::parse_unsigned(a, u32::MAX as int) == Some(loc.1.start.line as int)
                &&& text::parse_unsigned(b, u32::MAX as int) == Some(loc.1.start.column as int)
            },
{
    let a = text::decimal(loc.1.start.line as nat);
    let b = text::decimal(loc.1.start.column as nat);
    text::lemma_parse_decimal(loc.1.start.line as nat, u32::MAX as int);
    text::lemma_parse_decimal(loc.1.start.column as nat, u32::MAX as int);
    assert(edit_command(loc) == "edit "@ + loc.0 + " "@ + a + " "@ + b);
}

impl LocationList {
    /// The commands that remove all the list's highlighters (the highlighters
    /// stay recorded).
    pub fn purge_highlighters(&self) -> (r: String)
        ensures
            r@ == purge_command(self.name@, highlighter_views(self.highlighters@)),
    {
        let ghost hs = highlighter_views(self.highlighters@);
        let ghost f = |h: (Seq<char>, HighlighterScope)| types::removal_command(h, self.name@);
        let mut removals: Vec<String> = Vec::new();
        let mut i: usize = 0;
        while i < self.highlighters.len()
            invariant
                hs == highlighter_views(self.highlighters@),
                f == (|h: (Seq<char>, HighlighterScope)| types::removal_command(h, self.name@)),
                i <= self.highlighters.len(),
                text::views(removals@) == hs.take(i as int).map_values(f),
            decreases self.highlighters.len() - i,
        {
            let c = self.highlighters[i].gen_removal(self.name.as_str());
            let ghost prev = text::views(removals@);
            removals.push(c);
            proof {
                assert(text::views(removals@) =~= prev.push(c@));
                assert(text::views(removals@) =~= hs.take(i + 1).map_values(f));
            }
            i = i + 1;
        }
        assert(hs.take(i as int) =~= hs);
        let mut r = String::new();
        r.append("evaluate-commands -save-regs a -draft %{\n                ");
        let joined = join_strings(&removals, "\n");
        r.append(joined.as_str());
        r.append("\n            }");
        r
    }

    /// Makes location `index` (at most the last one) the current one; returns
    /// the command that opens it.
    pub fn navigate(&mut self, index: usize) -> (r: String)
        requires
            old(self).locations.len() > 0,
        ensures
            final(self).index == if index < old(self).locations.len() {
                index
            } else {
                (old(self).locations.len() - 1) as usize
            },
            final(self).locations == old(self).locations,
            final(self).highlighters == old(self).highlighters,
            final(self).name == old(self).name,
            r@ == edit_command(old(self).locations@[final(self).index as int]@),
    {
        let last = self.locations.len() - 1;
        let index = if index > last {
            last
        } else {
            index
        };
        self.index = index;
        let location = &self.locations[index];
        let mut r = String::new();
        r.append("edit ");
        r.append(location.filename.as_str());
        r.append(" ");
        push_decimal(&mut r, location.range.start.line as u64);
        r.append(" ");
        push_decimal(&mut r, location.range.start.column as u64);
        r
    }
}


// ---------------------------------------------------------------------------
// The lists of a session, by name
// ---------------------------------------------------------------------------

/// The location lists of a session, each found by its name, and the file
/// they are stored in.
#[derive(Debug)]
pub struct Lists {
    pub lists: Vec<LocationList>,
    pub path: String,
}

/// The first index at or after `from` of the list named `key`.
pub open spec fn list_index(lists: Seq<LocationList>, key: Seq<char>, from: int) -> Option<int>
    decreases lists.len() - from,
{
    if from < 0 || from >= lists.len() {
        None
    } else if lists[from].name@ == key {
        Some(from)
    } else {
        list_index(lists, key, from + 1)
    }
}

/// The list named `key`, if any.
pub open spec fn lookup(lists: Seq<LocationList>, key: Seq<char>) -> Option<LocationList> {
    match list_index(lists, key, 0) {
        Some(i) => Some(lists[i]),
        None => None,
    }
}

/// The lists without the one named `key`.
pub open spec fn remove_key(lists: Seq<LocationList>, key: Seq<char>) -> Seq<LocationList> {
    match list_index(lists, key, 0) {
        Some(i) => lists.remove(i),
        None => lists,
    }
}

/// The lists with `l` in place of the list of its name, or added at the end.
pub open spec fn store(lists: Seq<LocationList>, l: LocationList) -> Seq<LocationList> {
    match list_index(lists, l.name@, 0) {
        Some(i) => lists.update(i, l),
        None => lists.push(l),
    }
}

/// No two lists have the same name.
pub open spec fn names_unique(lists: Seq<LocationList>) -> bool {
    forall|i: int, j: int|
        0 <= i < lists.len() && 0 <= j < lists.len() && i != j ==> lists[i].name@ != lists[j].name@
}

/// Whether one of the locations is in file `f`.
pub open spec fn has_file(locs: Seq<LocationModel>, f: Seq<char>) -> bool {
    exists|i: int| 0 <= i < locs.len() && locs[i].0 == f
}

pub proof fn lemma_list_index(lists: Seq<LocationList>, key: Seq<char>, from: int, k: int)
    requires
        0 <= from <= k <= lists.len(),
        forall|j: int| from <= j < k ==> lists[j].name@ != key,
    ensures
        k < lists.len() && lists[k].name@ == key ==> list_index(lists, key, from) == Some(k),
        k == lists.len() ==> list_index(lists, key, from) is None,
    decreases k - from,
{
    if from < k {
        lemma_list_index(lists, key, from + 1, k);
    }
}

pub proof fn lemma_list_index_found(lists: Seq<LocationList>, key: Seq<char>, from: int)
    requires
        0 <= from,
    ensures
        list_index(lists, key, from) matches Some(i) ==> from <= i < lists.len() && lists[i].name@
            == key,
        list_index(lists, key, from) is None ==> forall|j: int|
            from <= j < lists.len() ==> lists[j].name@ != key,
    decreases lists.len() - from,
{
    if from < lists.len() && lists[from].name@ != key {
        lemma_list_index_found(lists, key, from + 1);
    }
}

/// With unique names, the list found under a name is the one of that name.
pub proof fn lemma_lookup_unique(lists: Seq<LocationList>, key: Seq<char>)
    requires
        names_unique(lists),
    ensures
        forall|i: int| 0 <= i < lists.len() && lists[i].name@ == key ==> list_index(lists, key, 0) == Some(i),
        lookup(lists, key) is None <==> forall|i: int| 0 <= i < lists.len() ==> lists[i].name@ != key,
{
    lemma_list_index_found(lists, key, 0);
}

/// Removing the list of a name: that name is found no more, every other name
/// finds what it found before, and names stay unique.
#[verifier::spinoff_prover]
pub proof fn lemma_lookup_remove_key(lists: Seq<LocationList>, key: Seq<char>, k: Seq<char>)
    requires
        names_unique(lists),
    ensures
        names_unique(remove_key(lists, key)),
        lookup(remove_key(lists, key), k) == if k == key {
            None
        } else {
            lookup(lists, k)
        },
{
    let r = remove_key(lists, key);
    lemma_list_index_found(lists, key, 0);
    lemma_lookup_unique(lists, k);
    match list_index(lists, key, 0) {
        Some(i) => {
            assert forall|a: int, b: int| 0 <= a < r.len() && 0 <= b < r.len() && a != b implies r[a].name@
                != r[b].name@ by {
                let a1 = if a < i { a } else { a + 1 };
                let b1 = if b < i { b } else { b + 1 };
                assert(r[a] == lists[a1]);
                assert(r[b] == lists[b1]);
            }
            lemma_lookup_unique(r, k);
            lemma_list_index_found(r, k, 0);
            if k == key {
                assert forall|j: int| 0 <= j < r.len() implies r[j].name@ != k by {
                    let j1 = if j < i { j } else { j + 1 };
                    assert(r[j] == lists[j1]);
                }
            } else {
                match list_index(lists, k, 0) {
                    Some(m) => {
                        let m1 = if m < i { m } else { m - 1 };
                        assert(m != i);
                        assert(r[m1] == lists[m]);
                    },
                    None => {
                        assert forall|j: int| 0 <= j < r.len() implies r[j].name@ != k by {
                            let j1 = if j < i { j } else { j + 1 };
                            assert(r[j] == lists[j1]);
                        }
                    },
                }
            }
        },
        None => {},
    }
}

/// Storing a list: its name finds it, every other name finds what it found
/// before, and names stay unique.
#[verifier::spinoff_prover]
pub proof fn lemma_lookup_store(lists: Seq<LocationList>, l: LocationList, k: Seq<char>)
    requires
        names_unique(lists),
    ensures
        names_unique(store(lists, l)),
        lookup(store(lists, l), k) == if k == l.name@ {
            Some(l)
        } else {
            lookup(lists, k)
        },
{
    let r = store(lists, l);
    lemma_list_index_found(lists, l.name@, 0);
    lemma_lookup_unique(lists, k);
    match list_index(lists, l.name@, 0) {
        Some(i) => {
            assert forall|a: int, b: int| 0 <= a < r.len() && 0 <= b < r.len() && a != b implies r[a].name@
                != r[b].name@ by {
                if a != i && b != i {
                    assert(r[a] == lists[a] && r[b] == lists[b]);
                } else if a == i {
                    assert(r[b] == lists[b]);
                } else {
                    assert(r[a] == lists[a]);
                }
            }
            lemma_lookup_unique(r, k);
            lemma_list_index_found(r, k, 0);
            if k != l.name@ {
                match list_index(lists, k, 0) {
                    Some(m) => {
                        assert(r[m] == lists[m]);
                    },
                    None => {
                        assert forall|j: int| 0 <= j < r.len() implies r[j].name@ != k by {
                            if j != i {
                                assert(r[j] == lists[j]);
                            }
                        }
                    },
                }
            } else {
                assert(r[i] == l);
            }
        },
        None => {
            assert forall|a: int, b: int| 0 <= a < r.len() && 0 <= b < r.len() && a != b implies r[a].name@
                != r[b].name@ by {
                if a < lists.len() && b < lists.len() {
                    assert(r[a] == lists[a] && r[b] == lists[b]);
                } else if a == lists.len() {
                    assert(r[b] == lists[b]);
                } else {
                    assert(r[a] == lists[a]);
                }
            }
            lemma_lookup_unique(r, k);
            lemma_list_index_found(r, k, 0);
            if k == l.name@ {
                assert(r[lists.len() as int] == l);
            } else {
                match list_index(lists, k, 0) {
                    Some(m) => {
                        assert(r[m] == lists[m]);
                    },
                    None => {
                        assert forall|j: int| 0 <= j < r.len() implies r[j].name@ != k by {
                            if j < lists.len() {
                                assert(r[j] == lists[j]);
                            }
                        }
                    },
                }
            }
        },
    }
}

/// The first index of the list named `key`.
fn find_list(lists: &Vec<LocationList>, key: &String) -> (r: Option<usize>)
    ensures
        r matches Some(i) ==> list_index(lists@, key@, 0) == Some(i as int) && i < lists.len()
            && lists@[i as int].name@ == key@,
        r is None ==> list_index(lists@, key@, 0) is None,
{
    let mut i: usize = 0;
    while i < lists.len()
        invariant
            i <= lists.len(),
            forall|j: int| 0 <= j < i ==> lists@[j].name@ != key@,
        decreases lists.len() - i,
    {
        if lists[i].name == *key {
            proof {
                lemma_list_index(lists@, key@, 0, i as int);
            }
            return Some(i);
        }
        i = i + 1;
    }
    proof {
        lemma_list_index(lists@, key@, 0, i as int);
    }
    None
}

/// The key of the list of the context's client (or of the shared list).
fn client_key(ctx: &Context) -> (r: String)
    ensures
        r@ == context::list_key_of(context::opt_view(ctx.client)),
{
    match &ctx.client {
        Some(client) => client.clone(),
        None => String::from_str(DEFAULT_NAME),
    }
}

/// What `Lists::insert` asks the caller to do: print the removal of the
/// highlighters of the list it replaced, run the range-specs script, and
/// print the highlighting commands.
#[derive(Debug)]
pub struct Insertion {
    pub purge: Option<String>,
    pub ranges: String,
    pub highlights: Vec<String>,
}

impl Lists {
    /// Every list is well formed and no two share a name.
    pub open spec fn wf(&self) -> bool {
        &&& names_unique(self.lists@)
        &&& forall|i: int| 0 <= i < self.lists@.len() ==> (#[trigger] self.lists@[i]).wf()
    }

    /// No lists yet, to be stored at `path`.
    pub fn new(path: &str) -> (r: Lists)
        ensures
            r.lists@.len() == 0,
            r.path@ == path@,
            r.wf(),
    {
        Lists { lists: Vec::new(), path: String::from_str(path) }
    }

    /// The list of the context's client, or the shared list without a client.
    pub fn get(&self, ctx: &Context) -> (r: Option<&LocationList>)
        ensures
            match lookup(self.lists@, context::list_key_of(context::opt_view(ctx.client))) {
                Some(l) => r matches Some(x) && *x == l,
                None => r is None,
            },
    {
        let key = client_key(ctx);
        match find_list(&self.lists, &key) {
            Some(i) => Some(&self.lists[i]),
            None => None,
        }
    }

    /// Removes the list of the context's key; returns the commands that remove
    /// its highlighters.
    pub fn clear(&mut self, ctx: &Context) -> (r: Option<String>)
        ensures
            final(self).lists@ == remove_key(old(self).lists@, ctx.list_key@),
            final(self).path == old(self).path,
            old(self).wf() ==> final(self).wf(),
            match lookup(old(self).lists@, ctx.list_key@) {
                Some(l) => r matches Some(c) && c@ == purge_command(
                    l.name@,
                    highlighter_views(l.highlighters@),
                ),
                None => r is None,
            },
    {
        match find_list(&self.lists, &ctx.list_key) {
            Some(i) => {
                let c = self.lists[i].purge_highlighters();
                let ghost before = self.lists@;
                self.lists.remove(i);
                proof {
                    if names_unique(before) {
                        lemma_lookup_remove_key(before, ctx.list_key@, ctx.list_key@);
                    }
                    assert forall|j: int| 0 <= j < self.lists@.len() && before.len() > 0 && (
                    forall|m: int| 0 <= m < before.len() ==> (#[trigger] before[m]).wf()) implies (
                    #[trigger] self.lists@[j]).wf() by {
                        let j1 = if j < i { j } else { j + 1 };
                        assert(self.lists@[j] == before[j1]);
                    }
                }
                Some(c)
            },
            None => None,
        }
    }

    /// Stores `l` under its name, in place of the list of that name if any.
    fn store_list(&mut self, l: LocationList)
        ensures
            final(self).lists@ == store(old(self).lists@, l),
            final(self).path == old(self).path,
    {
        match find_list(&self.lists, &l.name) {
            Some(i) => {
                self.lists.set(i, l);
            },
            None => {
                self.lists.push(l);
            },
        }
    }

    /// Makes `list` the list of its name: the list of the context's key is
    /// removed first (its highlighters to be removed), the range-specs of the
    /// new list are generated, and the shared list is shown on the editor's
    /// `buffers`.
    #[verifier::spinoff_prover]
    pub fn insert(&mut self, list: LocationList, ctx: &Context, buffers: &Vec<String>) -> (r:
        Insertion)
        requires
            old(self).wf(),
            list.wf(),
            ctx.timestamp is Some || list.locations.len() == 0,
        ensures
            final(self).wf(),
            final(self).path == old(self).path,
            match lookup(old(self).lists@, ctx.list_key@) {
                Some(l) => r.purge matches Some(c) && c@ == purge_command(
                    l.name@,
                    highlighter_views(l.highlighters@),
                ),
                None => r.purge is None,
            },
            r.ranges@ == ranges_script(
                list.name@,
                ctx.timestamp->0 as nat,
                location_views(list.locations@),
            ),
            text::views(r.highlights@) == highlight_all_commands(
                list.name@,
                location_views(list.locations@),
                text::views(buffers@),
            ),
            lookup(final(self).lists@, list.name@) matches Some(l) && l.name == list.name
                && l.index == list.index && l.locations == list.locations && highlighter_views(
                l.highlighters@,
            ) == highlighted(
                highlighter_views(list.highlighters@),
                list.name@,
                location_views(list.locations@),
                text::views(buffers@),
            ),
            forall|k: Seq<char>|
                k != list.name@ && k != ctx.list_key@ ==> #[trigger] lookup(final(self).lists@, k)
                    == lookup(old(self).lists@, k),
            lookup(final(self).lists@, ctx.list_key@) is Some ==> ctx.list_key@ == list.name@,
    {
        let ghost old_lists = self.lists@;
        let purge = self.clear(ctx);
        let ghost cleared = self.lists@;
        proof {
            lemma_list_index_found(old_lists, ctx.list_key@, 0);
            lemma_lookup_remove_key(old_lists, ctx.list_key@, ctx.list_key@);
            assert forall|i: int| 0 <= i < cleared.len() implies (#[trigger] cleared[i]).wf() by {
                match list_index(old_lists, ctx.list_key@, 0) {
                    Some(m) => {
                        let i1 = if i < m { i } else { i + 1 };
                        assert(cleared[i] == old_lists[i1]);
                    },
                    None => {},
                }
            }
        }
        let ranges = list.gen_ranges(ctx);
        let mut list = list;
        let highlights = list.highlight_all(buffers);
        let ghost stored = list;
        self.store_list(list);
        proof {
            lemma_list_index_found(cleared, stored.name@, 0);
            lemma_lookup_store(cleared, stored, stored.name@);
            assert forall|k: Seq<char>|
                k != stored.name@ && k != ctx.list_key@ implies #[trigger] lookup(self.lists@, k) == lookup(
                old_lists,
                k,
            ) by {
                lemma_lookup_store(cleared, stored, k);
                lemma_lookup_remove_key(old_lists, ctx.list_key@, k);
            }
            lemma_lookup_store(cleared, stored, ctx.list_key@);
            lemma_lookup_remove_key(old_lists, ctx.list_key@, ctx.list_key@);
            assert forall|i: int| 0 <= i < self.lists@.len() implies (#[trigger] self.lists@[i]).wf() by {
                match list_index(cleared, stored.name@, 0) {
                    Some(m) => {
                        if i != m {
                            assert(self.lists@[i] == cleared[i]);
                        }
                    },
                    None => {
                        if i < cleared.len() {
                            assert(self.lists@[i] == cleared[i]);
                        }
                    },
                }
            }
        }
        Insertion { purge, ranges, highlights }
    }
}


impl Lists {
    /// The list of the context's client (or the shared list), to change.
    pub fn get_mut(&mut self, ctx: &Context) -> (r: Option<&mut LocationList>)
        ensures
            match list_index(old(self).lists@, context::list_key_of(context::opt_view(ctx.client)), 0) {
                Some(i) => r matches Some(x) && *x == old(self).lists@[i] && final(self).lists@
                    == old(self).lists@.update(i, *final(x)) && final(self).path == old(self).path,
                None => r is None && final(self).lists@ == old(self).lists@ && final(self).path == old(self).path,
            },
    {
        let key = client_key(ctx);
        match find_list(&self.lists, &key) {
            Some(i) => Some(&mut self.lists[i]),
            None => None,
        }
    }
}


/// Whether highlighting `buffer` shows list `i`, found as the list named `key`.
pub open spec fn shows(lists: Seq<LocationList>, key: Seq<char>, i: int, buffer: Seq<char>) -> bool {
    list_index(lists, key, 0) == Some(i) && has_file(location_views(lists[i].locations@), buffer)
}

/// The highlighters of list `i` after highlighting `buffer`: a buffer-level
/// one if it is the shared list, a window-level one if it is the client's list,
/// each only where the list has a location in `buffer`.
pub open spec fn highlight_views(
    lists: Seq<LocationList>,
    i: int,
    client: Seq<char>,
    buffer: Seq<char>,
) -> Seq<(Seq<char>, HighlighterScope)> {
    let hs = highlighter_views(lists[i].highlighters@);
    let h1 = if shows(lists, DEFAULT_NAME@, i, buffer) {
        insert_highlighter(hs, (buffer, HighlighterScope::Buffer))
    } else {
        hs
    };
    if shows(lists, client, i, buffer) {
        insert_highlighter(h1, (buffer, HighlighterScope::Window))
    } else {
        h1
    }
}

/// The commands of highlighting `buffer`: the shared list at buffer level,
/// then the client's list at window level, each only where it has a location
/// in `buffer`.
pub open spec fn highlight_commands(lists: Seq<LocationList>, client: Seq<char>, buffer: Seq<char>) -> Seq<
    Seq<char>,
> {
    let g = match list_index(lists, DEFAULT_NAME@, 0) {
        Some(i) => if has_file(location_views(lists[i].locations@), buffer) {
            seq![context::add_highlighters_command(lists[i].name@, buffer, true)]
        } else {
            seq![]
        },
        None => seq![],
    };
    let c = match list_index(lists, client, 0) {
        Some(i) => if has_file(location_views(lists[i].locations@), buffer) {
            seq![context::add_highlighters_command(lists[i].name@, buffer, false)]
        } else {
            seq![]
        },
        None => seq![],
    };
    g + c
}

pub proof fn lemma_list_index_names(a: Seq<LocationList>, b: Seq<LocationList>, key: Seq<char>, from: int)
    requires
        a.len() == b.len(),
        forall|i: int| 0 <= i < a.len() ==> a[i].name@ == b[i].name@,
    ensures
        list_index(a, key, from) == list_index(b, key, from),
    decreases a.len() - from,
{
    if 0 <= from < a.len() {
        lemma_list_index_names(a, b, key, from + 1);
    }
}

/// Whether one of the locations is in file `f`.
fn has_file_exec(locations: &Vec<Location>, f: &str) -> (b: bool)
    ensures
        b == has_file(location_views(locations@), f@),
{
    let name = String::from_str(f);
    let mut i: usize = 0;
    while i < locations.len()
        invariant
            name@ == f@,
            i <= locations.len(),
            forall|j: int| 0 <= j < i ==> locations@[j].filename@ != f@,
        decreases locations.len() - i,
    {
        if locations[i].filename == name {
            assert(location_views(locations@)[i as int].0 == f@);
            return true;
        }
        i = i + 1;
    }
    proof {
        if has_file(location_views(locations@), f@) {
            let j = choose|j: int|
                0 <= j < location_views(locations@).len() && location_views(locations@)[j].0 == f@;
            assert(locations@[j].filename@ == f@);
        }
    }
    false
}

impl Lists {
    /// Adds a highlighter on `buffer` to list `i` if it has a location there;
    /// returns the command that shows it.
    fn highlight_one(&mut self, ctx: &Context, i: usize, buffer: &str, is_global: bool) -> (r: Vec<String>)
        requires
            i < old(self).lists.len(),
            old(self).wf(),
        ensures
            final(self).wf(),
            final(self).path == old(self).path,
            final(self).lists.len() == old(self).lists.len(),
            forall|j: int| 0 <= j < old(self).lists.len() && j != i ==> final(self).lists@[j] == old(self).lists@[j],
            final(self).lists@[i as int].name == old(self).lists@[i as int].name,
            final(self).lists@[i as int].index == old(self).lists@[i as int].index,
            final(self).lists@[i as int].locations == old(self).lists@[i as int].locations,
            highlighter_views(final(self).lists@[i as int].highlighters@) == if has_file(
                location_views(old(self).lists@[i as int].locations@),
                buffer@,
            ) {
                insert_highlighter(
                    highlighter_views(old(self).lists@[i as int].highlighters@),
                    (
                        buffer@,
                        if is_global {
                            HighlighterScope::Buffer
                        } else {
                            HighlighterScope::Window
                        },
                    ),
                )
            } else {
                highlighter_views(old(self).lists@[i as int].highlighters@)
            },
            text::views(r@) == if has_file(
                location_views(old(self).lists@[i as int].locations@),
                buffer@,
            ) {
                seq![
                    context::add_highlighters_command(
                        old(self).lists@[i as int].name@,
                        buffer@,
                        is_global,
                    ),
                ]
            } else {
                seq![]
            },
    {
        let mut r: Vec<String> = Vec::new();
        if has_file_exec(&self.lists[i].locations, buffer) {
            let c = ctx.add_highlighters(self.lists[i].name.as_str(), buffer, is_global);
            r.push(c);
            assert(text::views(r@) =~= seq![c@]);
            let scope = if is_global {
                HighlighterScope::Buffer
            } else {
                HighlighterScope::Window
            };
            let h = Highlighter::new(buffer, scope);
            proof {
                lemma_insert_highlighter(highlighter_views(self.lists@[i as int].highlighters@), h@);
            }
            let ghost before = self.lists@;
            insert_highlighter_exec(&mut self.lists[i].highlighters, h);
            proof {
                assert forall|a: int, b: int|
                    0 <= a < self.lists@.len() && 0 <= b < self.lists@.len() && a != b implies self.lists@[a].name@
                    != self.lists@[b].name@ by {
                    assert(self.lists@[a].name == before[a].name);
                    assert(self.lists@[b].name == before[b].name);
                }
                assert forall|j: int| 0 <= j < self.lists@.len() implies (#[trigger] self.lists@[j]).wf() by {
                    if j != i {
                        assert(self.lists@[j] == before[j]);
                    }
                }
            }
        } else {
            assert(text::views(r@) =~= Seq::<Seq<char>>::empty());
        }
        r
    }

    /// Shows the lists on `buffer`: the shared list at buffer level and the
    /// client's list at window level, each where it has a location in
    /// `buffer`; records the highlighters and returns the commands.
    #[verifier::spinoff_prover]
    pub fn highlight(&mut self, ctx: &Context, buffer: &str) -> (r: Vec<String>)
        requires
            old(self).wf(),
            ctx.client is Some,
        ensures
            final(self).wf(),
            final(self).path == old(self).path,
            final(self).lists.len() == old(self).lists.len(),
            forall|i: int|
                0 <= i < old(self).lists.len() ==> {
                    &&& (#[trigger] final(self).lists@[i]).name == old(self).lists@[i].name
                    &&& final(self).lists@[i].index == old(self).lists@[i].index
                    &&& final(self).lists@[i].locations == old(self).lists@[i].locations
                    &&& highlighter_views(final(self).lists@[i].highlighters@) == highlight_views(
                        old(self).lists@,
                        i,
                        ctx.client->0@,
                        buffer@,
                    )
                },
            text::views(r@) == highlight_commands(old(self).lists@, ctx.client->0@, buffer@),
    {
        let ghost lists0 = self.lists@;
        let ghost client = ctx.client->0@;
        let default_name = String::from_str(DEFAULT_NAME);
        let mut r: Vec<String> = Vec::new();
        let ghost g = list_index(lists0, DEFAULT_NAME@, 0);
        match find_list(&self.lists, &default_name) {
            Some(i) => {
                r = self.highlight_one(ctx, i, buffer, true);
            },
            None => {},
        }
        let ghost lists1 = self.lists@;
        let ghost r1 = text::views(r@);
        proof {
            lemma_list_index_names(lists0, lists1, client, 0);
            lemma_list_index_found(lists0, client, 0);
            lemma_list_index_found(lists0, DEFAULT_NAME@, 0);
        }
        let client_name = match &ctx.client {
            Some(c) => c.clone(),
            None => String::new(),
        };
        match find_list(&self.lists, &client_name) {
            Some(i) => {
                let more = self.highlight_one(ctx, i, buffer, false);
                let ghost prev = text::views(r@);
                let ghost added = text::views(more@);
                let mut more = more;
                r.append(&mut more);
                proof {
                    assert(text::views(r@) =~= prev + added);
                }
            },
            None => {},
        }
        proof {
            assert forall|i: int| 0 <= i < lists0.len() implies {
                &&& (#[trigger] self.lists@[i]).name == lists0[i].name
                &&& self.lists@[i].index == lists0[i].index
                &&& self.lists@[i].locations == lists0[i].locations
                &&& highlighter_views(self.lists@[i].highlighters@) == highlight_views(
                    lists0,
                    i,
                    client,
                    buffer@,
                )
            } by {
                assert(lists1[i].locations == lists0[i].locations);
            }
            assert(text::views(r@) =~= highlight_commands(lists0, client, buffer@));
        }
        r
    }
}


/// Inserting a highlighter that is already there changes nothing.
pub proof fn lemma_insert_highlighter_again(
    hs: Seq<(Seq<char>, HighlighterScope)>,
    h: (Seq<char>, HighlighterScope),
)
    ensures
        insert_highlighter(hs, h).contains(h),
        insert_highlighter(insert_highlighter(hs, h), h) == insert_highlighter(hs, h),
        forall|x| hs.contains(x) ==> #[trigger] insert_highlighter(hs, h).contains(x),
{
    if !hs.contains(h) {
        assert(hs.push(h)[hs.len() as int] == h);
        assert forall|x| hs.contains(x) implies #[trigger] hs.push(h).contains(x) by {
            let k = choose|k: int| 0 <= k < hs.len() && hs[k] == x;
            assert(hs.push(h)[k] == x);
        }
    }
}

/// Highlighting a buffer a second time changes nothing more: where a call of
/// `Lists::highlight` has turned `before` into `after`, a second call with the
/// same client and buffer leaves each list with the highlighters it has in
/// `after` (highlighters form a set), and gives the same commands again.
pub proof fn lemma_highlight_twice(
    before: Seq<LocationList>,
    after: Seq<LocationList>,
    client: Seq<char>,
    buffer: Seq<char>,
)
    requires
        after.len() == before.len(),
        forall|i: int|
            0 <= i < before.len() ==> {
                &&& (#[trigger] after[i]).name == before[i].name
                &&& after[i].locations == before[i].locations
                &&& highlighter_views(after[i].highlighters@) == highlight_views(
                    before,
                    i,
                    client,
                    buffer,
                )
            },
    ensures
        forall|i: int|
            0 <= i < after.len() ==> #[trigger] highlight_views(after, i, client, buffer)
                == highlighter_views(after[i].highlighters@),
        highlight_commands(after, client, buffer) == highlight_commands(before, client, buffer),
{
    lemma_list_index_names(before, after, client, 0);
    lemma_list_index_names(before, after, DEFAULT_NAME@, 0);
    lemma_list_index_found(before, client, 0);
    lemma_list_index_found(before, DEFAULT_NAME@, 0);
    assert forall|i: int| 0 <= i < after.len() implies #[trigger] highlight_views(
        after,
        i,
        client,
        buffer,
    ) == highlighter_views(after[i].highlighters@) by {
        assert(after[i].locations == before[i].locations);
        assert(shows(after, DEFAULT_NAME@, i, buffer) == shows(before, DEFAULT_NAME@, i, buffer));
        assert(shows(after, client, i, buffer) == shows(before, client, i, buffer));
        let hs = highlighter_views(before[i].highlighters@);
        let b = (buffer, HighlighterScope::Buffer);
        let w = (buffer, HighlighterScope::Window);
        lemma_insert_highlighter_again(hs, b);
        let h1 = if shows(before, DEFAULT_NAME@, i, buffer) {
            insert_highlighter(hs, b)
        } else {
            hs
        };
        lemma_insert_highlighter_again(h1, w);
        if shows(before, DEFAULT_NAME@, i, buffer) {
            assert(h1.contains(b));
        }
    }
    let g = list_index(before, DEFAULT_NAME@, 0);
    let c = list_index(before, client, 0);
    if g is Some {
        assert(after[g->0].locations == before[g->0].locations);
        assert(after[g->0].name == before[g->0].name);
    }
    if c is Some {
        assert(after[c->0].locations == before[c->0].locations);
        assert(after[c->0].name == before[c->0].name);
    }
}

/// Whether location `j` of list `i` is in `buffer`.
pub open spec fn location_in(lists: Seq<LocationList>, i: int, j: int, buffer: Seq<char>) -> bool {
    &&& 0 <= i < lists.len()
    &&& 0 <= j < lists[i].locations.len()
    &&& lists[i].locations@[j].filename@ == buffer
}

/// A list is shown on a buffer when any one of its locations is in that
/// buffer, whichever it is.
pub proof fn lemma_has_file(locs: Seq<LocationModel>, l: LocationModel, f: Seq<char>)
    ensures
        has_file(locs.push(l), l.0),
        has_file(locs, f) ==> has_file(locs.push(l), f),
        has_file(locs.push(l), f) ==> has_file(locs, f) || l.0 == f,
        !has_file(Seq::<LocationModel>::empty(), f),
{
    let r = locs.push(l);
    assert(r[locs.len() as int] == l);
    if has_file(locs, f) {
        let i = choose|i: int| 0 <= i < locs.len() && locs[i].0 == f;
        assert(r[i] == locs[i]);
    }
    if has_file(r, f) {
        let i = choose|i: int| 0 <= i < r.len() && r[i].0 == f;
        if i < locs.len() {
            assert(r[i] == locs[i]);
        }
    }
}

/// What `Lists::highlight` does on `buffer`: where any location of the
/// client's list is in `buffer`, that list gets a window-level highlighter on
/// it and the command that shows it; where any location of the shared list
/// is, the shared list gets a buffer-level one and its command; a list with no
/// location in `buffer` keeps its highlighters.
pub proof fn lemma_highlight_shows(
    lists: Seq<LocationList>,
    client: Seq<char>,
    buffer: Seq<char>,
    i: int,
    j: int,
)
    ensures
        list_index(lists, client, 0) == Some(i) && location_in(lists, i, j, buffer) ==> {
            &&& highlight_views(lists, i, client, buffer).contains(
                (buffer, HighlighterScope::Window),
            )
            &&& highlight_commands(lists, client, buffer).contains(
                context::add_highlighters_command(client, buffer, false),
            )
        },
        list_index(lists, DEFAULT_NAME@, 0) == Some(i) && location_in(lists, i, j, buffer) ==> {
            &&& highlight_views(lists, i, client, buffer).contains(
                (buffer, HighlighterScope::Buffer),
            )
            &&& highlight_commands(lists, client, buffer).contains(
                context::add_highlighters_command(DEFAULT_NAME@, buffer, true),
            )
        },
        0 <= i < lists.len() && (forall|k: int|
            0 <= k < lists[i].locations.len() ==> lists[i].locations@[k].filename@ != buffer)
            ==> highlight_views(lists, i, client, buffer) == highlighter_views(
            lists[i].highlighters@,
        ),
{
    lemma_list_index_found(lists, client, 0);
    lemma_list_index_found(lists, DEFAULT_NAME@, 0);
    if 0 <= i < lists.len() {
        let locs = location_views(lists[i].locations@);
        if 0 <= j < locs.len() {
            assert(locs[j] == lists[i].locations@[j]@);
        }
        if has_file(locs, buffer) {
            let k = choose|k: int| 0 <= k < locs.len() && locs[k].0 == buffer;
            assert(locs[k] == lists[i].locations@[k]@);
        }
        let hs = highlighter_views(lists[i].highlighters@);
        let bh = (buffer, HighlighterScope::Buffer);
        let wh = (buffer, HighlighterScope::Window);
        lemma_insert_highlighter_again(hs, bh);
        let h1 = if shows(lists, DEFAULT_NAME@, i, buffer) {
            insert_highlighter(hs, bh)
        } else {
            hs
        };
        lemma_insert_highlighter_again(h1, wh);
        let g = match list_index(lists, DEFAULT_NAME@, 0) {
            Some(x) => if has_file(location_views(lists[x].locations@), buffer) {
                seq![context::add_highlighters_command(lists[x].name@, buffer, true)]
            } else {
                seq![]
            },
            None => seq![],
        };
        let c = match list_index(lists, client, 0) {
            Some(x) => if has_file(location_views(lists[x].locations@), buffer) {
                seq![context::add_highlighters_command(lists[x].name@, buffer, false)]
            } else {
                seq![]
            },
            None => seq![],
        };
        assert(highlight_commands(lists, client, buffer) == g + c);
        if list_index(lists, client, 0) == Some(i) && location_in(lists, i, j, buffer) {
            assert((g + c)[g.len() as int] == c[0]);
        }
        if list_index(lists, DEFAULT_NAME@, 0) == Some(i) && location_in(lists, i, j, buffer) {
            assert((g + c)[0] == g[0]);
        }
    }
}


// ---------------------------------------------------------------------------
// Reading back the editor's quoted list
// ---------------------------------------------------------------------------

/// A location as an entry of the editor's quoted list.
pub open spec fn entry_text(l: LocationModel) -> Seq<char> {
    seq!['\''] + l.0 + seq!['|'] + types::range_text(l.1) + seq!['|'] + l.2 + seq!['\'']
}

/// Locations as the editor's quoted list: entries separated by spaces.
pub open spec fn list_text(locs: Seq<LocationModel>) -> Seq<char> {
    text::join(locs.map_values(|l: LocationModel| entry_text(l)), " "@)
}

/// A location that its entry writes plainly: no `|`, `'` or line end in its
/// file name, no `'` or line end in its preview.
pub open spec fn plain_location(l: LocationModel) -> bool {
    &&& !l.0.contains('|')
    &&& !l.0.contains('\'')
    &&& !l.0.contains('\n')
    &&& !l.2.contains('\'')
    &&& !l.2.contains('\n')
}

pub open spec fn shift(o: Option<int>, n: int) -> Option<int> {
    match o {
        Some(x) => Some(x + n),
        None => None,
    }
}

pub proof fn lemma_digit_run_shift(c: Seq<char>, u: Seq<char>, i: int)
    requires
        0 <= i,
    ensures
        text::digit_run(c + u, c.len() + i) == text::digit_run(u, i),
    decreases u.len() - i,
{
    if i < u.len() {
        assert((c + u)[c.len() + i] == u[i]);
        lemma_digit_run_shift(c, u, i + 1);
    }
}

pub proof fn lemma_closing_quote_shift(c: Seq<char>, u: Seq<char>, j: int)
    requires
        0 <= j,
    ensures
        closing_quote(c + u, c.len() + j) == shift(closing_quote(u, j), c.len() as int),
    decreases u.len() - j,
{
    if j < u.len() {
        assert((c + u)[c.len() + j] == u[j]);
        lemma_closing_quote_shift(c, u, j + 1);
    }
}

#[verifier::rlimit(40)]
#[verifier::spinoff_prover]
pub proof fn lemma_entry_tail_shift(c: Seq<char>, u: Seq<char>, p: int)
    requires
        0 <= p,
    ensures
        entry_tail(c + u, c.len() + p) == shift(entry_tail(u, p), c.len() as int),
        number_ends(c + u, c.len() + p) == {
            let (e1, e2, e3, e4) = number_ends(u, p);
            (e1 + c.len(), e2 + c.len(), e3 + c.len(), e4 + c.len())
        },
{
    let n = c.len() as int;
    let s = c + u;
    let (e1, e2, e3, e4) = number_ends(u, p);
    lemma_digit_run_shift(c, u, p + 1);
    lemma_digit_run_shift(c, u, e1 + 1);
    lemma_digit_run_shift(c, u, e2 + 1);
    lemma_digit_run_shift(c, u, e3 + 1);
    lemma_closing_quote_shift(c, u, e4 + 1);
    assert forall|k: int| 0 <= k < u.len() implies s[n + k] == u[k] by {}
}

pub proof fn lemma_entry_bar_shift(c: Seq<char>, u: Seq<char>, p: int)
    requires
        0 <= p,
    ensures
        entry_bar(c + u, c.len() + p) == shift(entry_bar(u, p), c.len() as int),
    decreases u.len() - p,
{
    if p < u.len() {
        assert((c + u)[c.len() + p] == u[p]);
        lemma_entry_tail_shift(c, u, p);
        lemma_entry_bar_shift(c, u, p + 1);
    }
}

pub proof fn lemma_next_entry_shift(c: Seq<char>, u: Seq<char>, from: int)
    requires
        0 <= from,
    ensures
        next_entry(c + u, c.len() + from) == match next_entry(u, from) {
            Some((a, p)) => Some((a + c.len(), p + c.len())),
            None => None,
        },
    decreases u.len() - from,
{
    if from < u.len() {
        assert((c + u)[c.len() + from] == u[from]);
        lemma_entry_bar_shift(c, u, from + 1);
        lemma_next_entry_shift(c, u, from + 1);
    }
}

pub proof fn lemma_entry_location_shift(c: Seq<char>, u: Seq<char>, a: int, p: int, k: int)
    requires
        0 <= a < p < k < u.len(),
        entry_tail(u, p) == Some(k),
    ensures
        entry_location(c + u, a + c.len(), p + c.len(), k + c.len()) == entry_location(u, a, p, k),
{
    let n = c.len() as int;
    let s = c + u;
    lemma_entry_tail_shift(c, u, p);
    lemma_entry_tail(u, p);
    let (e1, e2, e3, e4) = number_ends(u, p);
    assert(s.subrange(p + n + 1, e1 + n) =~= u.subrange(p + 1, e1));
    assert(s.subrange(e1 + n + 1, e2 + n) =~= u.subrange(e1 + 1, e2));
    assert(s.subrange(e2 + n + 1, e3 + n) =~= u.subrange(e2 + 1, e3));
    assert(s.subrange(e3 + n + 1, e4 + n) =~= u.subrange(e3 + 1, e4));
    assert(s.subrange(a + n + 1, p + n) =~= u.subrange(a + 1, p));
    assert(s.subrange(e4 + n + 1, k + n) =~= u.subrange(e4 + 1, k));
}

/// Reading from index `c.len() + i` of `c + u` reads from index `i` of `u`.
#[verifier::rlimit(40)]
#[verifier::spinoff_prover]
pub proof fn lemma_list_entries_shift(c: Seq<char>, u: Seq<char>, i: int)
    requires
        0 <= i <= u.len(),
    ensures
        list_entries(c + u, c.len() + i) == list_entries(u, i),
    decreases u.len() - i,
{
    reveal(list_entries);
    let n = c.len() as int;
    lemma_next_entry_shift(c, u, i);
    lemma_next_entry(u, i);
    match next_entry(u, i) {
        Some((a, p)) => {
            lemma_entry_tail_shift(c, u, p);
            lemma_entry_tail(u, p);
            let k = entry_tail(u, p)->0;
            lemma_entry_location_shift(c, u, a, p, k);
            lemma_list_entries_shift(c, u, k + 1);
        },
        None => {},
    }
}

/// A leading space starts no entry.
pub proof fn lemma_list_entries_space(u: Seq<char>)
    ensures
        list_entries(seq![' '] + u, 0) == list_entries(u, 0),
{
    reveal(list_entries);
    let s = seq![' '] + u;
    assert(s[0] == ' ');
    assert(next_entry(s, 0) == next_entry(s, 1));
    lemma_list_entries_shift(seq![' '], u, 0);
    lemma_next_entry_shift(seq![' '], u, 0);
    lemma_next_entry(u, 0);
    match next_entry(u, 0) {
        Some((a, p)) => {
            lemma_entry_tail_shift(seq![' '], u, p);
            lemma_entry_tail(u, p);
            let k = entry_tail(u, p)->0;
            lemma_entry_location_shift(seq![' '], u, a, p, k);
            lemma_list_entries_shift(seq![' '], u, k + 1);
        },
        None => {},
    }
}


pub proof fn lemma_closing_quote_at(s: Seq<char>, j: int, k: int)
    requires
        0 <= j <= k < s.len(),
        forall|i: int| j <= i < k ==> s[i] != '\'' && s[i] != '\n',
        s[k] == '\'',
    ensures
        closing_quote(s, j) == Some(k),
    decreases k - j,
{
    if j < k {
        lemma_closing_quote_at(s, j + 1, k);
    }
}

pub proof fn lemma_entry_bar_at(s: Seq<char>, from: int, p: int)
    requires
        0 <= from <= p < s.len(),
        forall|j: int| from <= j < p ==> s[j] != '\n' && s[j] != '|',
        s[p] == '|',
        entry_tail(s, p) is Some,
    ensures
        entry_bar(s, from) == Some(p),
    decreases p - from,
{
    if from < p {
        lemma_entry_bar_at(s, from + 1, p);
    }
}

/// Where `|digits.digits,digits.digits|preview'` stands at `p` (the preview
/// without `'` or line end), the entry's tail ends at that `'`.
pub proof fn lemma_entry_shape(
    s: Seq<char>,
    p: int,
    dot1: int,
    comma: int,
    dot2: int,
    bar: int,
    k: int,
)
    requires
        0 <= p,
        p + 1 < dot1,
        dot1 + 1 < comma,
        comma + 1 < dot2,
        dot2 + 1 < bar < k < s.len(),
        s[p] == '|',
        s[dot1] == '.',
        s[comma] == ',',
        s[dot2] == '.',
        s[bar] == '|',
        s[k] == '\'',
        forall|j: int| p < j < dot1 ==> text::is_digit(#[trigger] s[j]),
        forall|j: int| dot1 < j < comma ==> text::is_digit(#[trigger] s[j]),
        forall|j: int| comma < j < dot2 ==> text::is_digit(#[trigger] s[j]),
        forall|j: int| dot2 < j < bar ==> text::is_digit(#[trigger] s[j]),
        forall|j: int| bar < j < k ==> s[j] != '\'' && s[j] != '\n',
    ensures
        number_ends(s, p) == (dot1, comma, dot2, bar),
        entry_tail(s, p) == Some(k),
{
    text::lemma_digit_run_exact(s, p + 1, dot1 - p - 1);
    text::lemma_digit_run_exact(s, dot1 + 1, comma - dot1 - 1);
    text::lemma_digit_run_exact(s, comma + 1, dot2 - comma - 1);
    text::lemma_digit_run_exact(s, dot2 + 1, bar - dot2 - 1);
    lemma_closing_quote_at(s, bar + 1, k);
}

/// An entry written plainly at the front is read first, whatever follows it.
#[verifier::rlimit(80)]
#[verifier::spinoff_prover]
pub proof fn lemma_entry_front(l: LocationModel, w: Seq<char>)
    requires
        plain_location(l),
    ensures
        list_entries(entry_text(l) + w, 0) == prepend(
            seq![l],
            list_entries(entry_text(l) + w, entry_text(l).len() as int),
        ),
{
    reveal(list_entries);
    let e = entry_text(l);
    let s = e + w;
    let r = l.1;
    let l1 = text::decimal(r.start.line as nat);
    let c1 = text::decimal(r.start.column as nat);
    let l2 = text::decimal(r.end.line as nat);
    let c2 = text::decimal(r.end.column as nat);
    text::lemma_decimal(r.start.line as nat);
    text::lemma_decimal(r.start.column as nat);
    text::lemma_decimal(r.end.line as nat);
    text::lemma_decimal(r.end.column as nat);
    let rt = types::range_text(r);
    let p: int = l.0.len() as int + 1;
    let dot1: int = p + 1 + l1.len();
    let comma: int = dot1 + 1 + c1.len();
    let dot2: int = comma + 1 + l2.len();
    let bar: int = dot2 + 1 + c2.len();
    let k: int = bar + 1 + l.2.len();
    assert(rt =~= l1 + seq!['.'] + c1 + seq![','] + l2 + seq!['.'] + c2);
    assert(e.len() == k + 1);
    assert forall|j: int| 0 <= j < e.len() implies s[j] == e[j] by {}
    assert(s[0] == '\'');
    assert forall|j: int| 1 <= j < p implies s[j] == l.0[j - 1] by {}
    assert forall|j: int| 0 <= j < rt.len() implies s[p + 1 + j] == rt[j] by {}
    assert forall|j: int| 0 <= j < l.2.len() implies s[bar + 1 + j] == l.2[j] by {}
    assert(s[p] == '|' && s[bar] == '|' && s[k] == '\'');
    assert forall|j: int| 0 <= j < l1.len() implies rt[j] == l1[j] by {}
    assert forall|j: int| 0 <= j < c1.len() implies rt[l1.len() + 1 + j] == c1[j] by {}
    assert forall|j: int| 0 <= j < l2.len() implies rt[comma - p + j] == l2[j] by {}
    assert forall|j: int| 0 <= j < c2.len() implies rt[dot2 - p + j] == c2[j] by {}
    assert(rt[l1.len() as int] == '.' && rt[comma - p - 1] == ',' && rt[dot2 - p - 1] == '.');
    assert forall|j: int| p < j < dot1 implies text::is_digit(#[trigger] s[j]) by {
        assert(s[j] == rt[j - p - 1]);
        assert(rt[j - p - 1] == l1[j - p - 1]);
    }
    assert forall|j: int| dot1 < j < comma implies text::is_digit(#[trigger] s[j]) by {
        assert(s[j] == rt[j - p - 1]);
        assert(rt[j - p - 1] == c1[j - dot1 - 1]);
    }
    assert forall|j: int| comma < j < dot2 implies text::is_digit(#[trigger] s[j]) by {
        assert(s[j] == rt[j - p - 1]);
        assert(rt[j - p - 1] == l2[j - comma - 1]);
    }
    assert forall|j: int| dot2 < j < bar implies text::is_digit(#[trigger] s[j]) by {
        assert(s[j] == rt[j - p - 1]);
        assert(rt[j - p - 1] == c2[j - dot2 - 1]);
    }
    assert(s[dot1] == rt[l1.len() as int]);
    assert(s[comma] == rt[comma - p - 1]);
    assert(s[dot2] == rt[dot2 - p - 1]);
    assert forall|j: int| bar < j < k implies s[j] != '\'' && s[j] != '\n' by {
        assert(s[j] == l.2[j - bar - 1]);
        assert(!l.2.contains(s[j]) || (s[j] != '\'' && s[j] != '\n'));
    }
    lemma_entry_shape(s, p, dot1, comma, dot2, bar, k);
    assert forall|j: int| 1 <= j < p implies s[j] != '\n' && s[j] != '|' by {
        assert(s[j] == l.0[j - 1]);
        assert(!l.0.contains(s[j]) || (s[j] != '\n' && s[j] != '|'));
    }
    lemma_entry_bar_at(s, 1, p);
    assert(entry_at(s, 0) == Some(p));
    assert(next_entry(s, 0) == Some((0int, p)));
    // The numbers read back.
    assert(s.subrange(p + 1, dot1) =~= l1);
    assert(s.subrange(dot1 + 1, comma) =~= c1);
    assert(s.subrange(comma + 1, dot2) =~= l2);
    assert(s.subrange(dot2 + 1, bar) =~= c2);
    text::lemma_parse_decimal(r.start.line as nat, u32::MAX as int);
    text::lemma_parse_decimal(r.start.column as nat, u32::MAX as int);
    text::lemma_parse_decimal(r.end.line as nat, u32::MAX as int);
    text::lemma_parse_decimal(r.end.column as nat, u32::MAX as int);
    assert(s.subrange(1, p) =~= l.0);
    assert(s.subrange(bar + 1, k) =~= l.2);
    assert(entry_location(s, 0, p, k) == Some(l));
}


pub proof fn lemma_list_text_front(locs: Seq<LocationModel>)
    requires
        locs.len() >= 2,
    ensures
        list_text(locs) == entry_text(locs[0]) + (" "@ + list_text(locs.drop_first())),
{
    let es = locs.map_values(|l: LocationModel| entry_text(l));
    text::lemma_join_front(es, " "@);
    assert(es.drop_first() =~= locs.drop_first().map_values(|l: LocationModel| entry_text(l)));
    assert(es[0] == entry_text(locs[0]));
    assert(list_text(locs) =~= entry_text(locs[0]) + (" "@ + list_text(locs.drop_first())));
}

pub proof fn lemma_list_text_one(locs: Seq<LocationModel>)
    requires
        locs.len() == 1,
    ensures
        list_text(locs) == entry_text(locs[0]),
{
    let es = locs.map_values(|l: LocationModel| entry_text(l));
    assert(es.len() == 1);
    assert(es[0] == entry_text(locs[0]));
}

#[verifier::spinoff_prover]
proof fn lemma_list_round_trip_step(locs: Seq<LocationModel>)
    requires
        locs.len() >= 2,
        plain_location(locs[0]),
        list_entries(list_text(locs.drop_first()), 0) == Some(locs.drop_first()),
    ensures
        list_entries(list_text(locs), 0) == Some(locs),
{
    let rest = locs.drop_first();
    let rest_text = list_text(rest);
    lemma_list_text_front(locs);
    let e = entry_text(locs[0]);
    let w = " "@ + rest_text;
    lemma_entry_front(locs[0], w);
    lemma_list_entries_shift(e, w, 0);
    reveal_strlit(" ");
    assert(" "@ =~= seq![' ']);
    lemma_list_entries_space(rest_text);
    assert(seq![locs[0]] + rest =~= locs);
}

proof fn lemma_list_round_trip_one(locs: Seq<LocationModel>)
    requires
        locs.len() == 1,
        plain_location(locs[0]),
    ensures
        list_entries(list_text(locs), 0) == Some(locs),
{
    reveal(list_entries);
    let e = entry_text(locs[0]);
    lemma_list_text_one(locs);
    lemma_entry_front(locs[0], Seq::empty());
    assert(e + Seq::<char>::empty() =~= e);
    assert(seq![locs[0]] + Seq::<LocationModel>::empty() =~= locs);
}

/// Reading the editor's quoted list of plainly written locations gives the
/// locations back.
pub proof fn lemma_list_round_trip(locs: Seq<LocationModel>)
    requires
        forall|i: int| 0 <= i < locs.len() ==> plain_location(#[trigger] locs[i]),
    ensures
        list_entries(list_text(locs), 0) == Some(locs),
    decreases locs.len(),
{
    if locs.len() == 0 {
        reveal(list_entries);
        assert(list_text(locs) =~= Seq::<char>::empty());
        assert(locs =~= Seq::<LocationModel>::empty());
    } else if locs.len() == 1 {
        assert(plain_location(locs[0]));
        lemma_list_round_trip_one(locs);
    } else {
        let rest = locs.drop_first();
        assert forall|i: int| 0 <= i < rest.len() implies plain_location(#[trigger] rest[i]) by {
            assert(rest[i] == locs[i + 1]);
        }
        lemma_list_round_trip(rest);
        assert(plain_location(locs[0]));
        lemma_list_round_trip_step(locs);
    }
}

} // verus!
