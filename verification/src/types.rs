use vstd::prelude::*;

use crate::location_list::LocationListErr;
use crate::text;
use crate::text::{chars_of, find_char, parse_u32, parse_unsigned_chars, push_char, push_decimal};
use crate::util::strip_an;

verus! {

/// Where a highlighter is installed: on a buffer or on a window.
#[derive(Clone, Copy, Debug, PartialEq, Eq, Hash, Structural)]
pub enum HighlighterScope {
    Buffer,
    Window,
}

impl HighlighterScope {
    /// The editor's word for the scope.
    pub open spec fn word(self) -> Seq<char> {
        match self {
            HighlighterScope::Buffer => "buffer"@,
            HighlighterScope::Window => "window"@,
        }
    }

    /// The editor's word for the scope.
    pub fn as_str(&self) -> (s: &'static str)
        ensures
            s@ == self.word(),
    {
        match self {
            HighlighterScope::Buffer => "buffer",
            HighlighterScope::Window => "window",
        }
    }
}

/// A highlighter that a list installed on a file.
#[derive(Debug)]
pub struct Highlighter {
    pub filename: String,
    pub scope: HighlighterScope,
}

impl View for Highlighter {
    type V = (Seq<char>, HighlighterScope);

    open spec fn view(&self) -> (Seq<char>, HighlighterScope) {
        (self.filename@, self.scope)
    }
}

/// The commands that remove highlighter `h` of the list named `list_name`.
pub open spec fn removal_command(h: (Seq<char>, HighlighterScope), list_name: Seq<char>) -> Seq<
    char,
> {
    "edit "@ + h.0 + "\n            remove-highlighter "@ + h.1.word() + "/ranges_loli_"@ + list_name
        + "_"@ + text::keep_alphanumeric(h.0)
}

impl Highlighter {
    pub fn new(filename: &str, scope: HighlighterScope) -> (h: Highlighter)
        ensures
            h@ == (filename@, scope),
    {
        Highlighter { filename: filename.to_owned(), scope }
    }

    /// Whether two highlighters are equal (same file, same scope).
    pub fn same(&self, other: &Highlighter) -> (b: bool)
        ensures
            b == (self@ == other@),
    {
        self.filename == other.filename && self.scope == other.scope
    }

    /// The commands that remove this highlighter of the list `list_name`.
    pub fn gen_removal(&self, list_name: &str) -> (r: String)
        ensures
            r@ == removal_command(self@, list_name@),
    {
        let mut r = String::new();
        r.append("edit ");
        r.append(self.filename.as_str());
        r.append("\n            remove-highlighter ");
        r.append(self.scope.as_str());
        r.append("/ranges_loli_");
        r.append(list_name);
        r.append("_");
        let stripped = strip_an(self.filename.as_str());
        r.append(stripped.as_str());
        r
    }
}

/// A position in a buffer: a line and a column (in bytes), both from 1.
#[derive(Clone, Copy, Debug, PartialEq, Eq, Structural)]
pub struct KakounePosition {
    pub line: u32,
    pub column: u32,
}

/// A range of a buffer, from `start` to `end`.
#[derive(Clone, Copy, Debug, PartialEq, Eq, Structural)]
pub struct KakouneRange {
    pub start: KakounePosition,
    pub end: KakounePosition,
}

/// A place of a file, with a line of text to show for it.
#[derive(Debug)]
pub struct Location {
    pub filename: String,
    pub range: KakouneRange,
    pub preview: String,
}

impl View for Location {
    type V = (Seq<char>, KakouneRange, Seq<char>);

    open spec fn view(&self) -> (Seq<char>, KakouneRange, Seq<char>) {
        (self.filename@, self.range, self.preview@)
    }
}

/// `line.column`: how a position is written.
pub open spec fn position_text(p: KakounePosition) -> Seq<char> {
    text::decimal(p.line as nat) + seq!['.'] + text::decimal(p.column as nat)
}

/// `start,end`: how a range is written.
pub open spec fn range_text(r: KakouneRange) -> Seq<char> {
    position_text(r.start) + seq![','] + position_text(r.end)
}

pub open spec fn parse_u32_spec(s: Seq<char>) -> Option<u32> {
    match text::parse_unsigned(s, u32::MAX as int) {
        Some(n) => Some(n as u32),
        None => None,
    }
}

/// How a position is read: `line.column`, split at the first `.`.
pub open spec fn parse_position(s: Seq<char>) -> Option<KakounePosition> {
    match text::find_char_from(s, '.', 0) {
        Some(i) => match (parse_u32_spec(s.take(i)), parse_u32_spec(s.skip(i + 1))) {
            (Some(line), Some(column)) => Some(KakounePosition { line, column }),
            _ => None,
        },
        None => None,
    }
}

/// How a range is read: `start,end`, split at the first `,`.
pub open spec fn parse_range(s: Seq<char>) -> Option<KakouneRange> {
    match text::find_char_from(s, ',', 0) {
        Some(i) => match (parse_position(s.take(i)), parse_position(s.skip(i + 1))) {
            (Some(start), Some(end)) => Some(KakouneRange { start, end }),
            _ => None,
        },
        None => None,
    }
}

/// Parses `v[lo..hi]` as a `u32`.
pub(crate) fn parse_u32_chars(v: &Vec<char>, lo: usize, hi: usize) -> (r: Option<u32>)
    requires
        lo <= hi <= v.len(),
    ensures
        r == parse_u32_spec(v@.subrange(lo as int, hi as int)),
{
    match parse_unsigned_chars(v, lo, hi, 4294967295u64) {
        Some(x) => Some(x as u32),
        None => None,
    }
}

/// Parses `v[lo..hi]` as a position.
pub(crate) fn parse_position_chars(v: &Vec<char>, lo: usize, hi: usize) -> (r: Option<
    KakounePosition,
>)
    requires
        lo <= hi <= v.len(),
    ensures
        r == parse_position(v@.subrange(lo as int, hi as int)),
{
    let ghost s = v@.subrange(lo as int, hi as int);
    let i = find_char(v, '.', lo, hi);
    proof {
        text::lemma_find_char_first(s, '.', 0, i - lo);
    }
    if i == hi {
        return None;
    }
    proof {
        assert(s.take(i - lo) =~= v@.subrange(lo as int, i as int));
        assert(s.skip(i - lo + 1) =~= v@.subrange(i + 1, hi as int));
    }
    let line = parse_u32_chars(v, lo, i);
    let column = parse_u32_chars(v, i + 1, hi);
    match (line, column) {
        (Some(line), Some(column)) => Some(KakounePosition { line, column }),
        _ => None,
    }
}

/// Parses `v[lo..hi]` as a range.
pub(crate) fn parse_range_chars(v: &Vec<char>, lo: usize, hi: usize) -> (r: Option<KakouneRange>)
    requires
        lo <= hi <= v.len(),
    ensures
        r == parse_range(v@.subrange(lo as int, hi as int)),
{
    let ghost s = v@.subrange(lo as int, hi as int);
    let i = find_char(v, ',', lo, hi);
    proof {
        text::lemma_find_char_first(s, ',', 0, i - lo);
    }
    if i == hi {
        return None;
    }
    proof {
        assert(s.take(i - lo) =~= v@.subrange(lo as int, i as int));
        assert(s.skip(i - lo + 1) =~= v@.subrange(i + 1, hi as int));
    }
    let start = parse_position_chars(v, lo, i);
    let end = parse_position_chars(v, i + 1, hi);
    match (start, end) {
        (Some(start), Some(end)) => Some(KakouneRange { start, end }),
        _ => None,
    }
}

impl KakounePosition {
    /// Reads `line.column`.
    pub fn from_str(s: &str) -> (r: Result<KakounePosition, LocationListErr>)
        ensures
            match parse_position(s@) {
                Some(p) => r == Ok::<KakounePosition, LocationListErr>(p),
                None => r == Err::<KakounePosition, LocationListErr>(LocationListErr::InvalidRange),
            },
    {
        let v = chars_of(s);
        assert(v@.subrange(0, v@.len() as int) =~= s@);
        match parse_position_chars(&v, 0, v.len()) {
            Some(p) => Ok(p),
            None => Err(LocationListErr::InvalidRange),
        }
    }

    /// Writes `line.column` at the end of `s`.
    pub fn write_to(&self, s: &mut String)
        ensures
            final(s)@ == old(s)@ + position_text(*self),
    {
        push_decimal(s, self.line as u64);
        push_char(s, '.');
        push_decimal(s, self.column as u64);
        assert(final(s)@ =~= old(s)@ + position_text(*self));
    }

    /// The position written as `line.column`.
    pub fn to_string(&self) -> (r: String)
        ensures
            r@ == position_text(*self),
    {
        let mut r = String::new();
        self.write_to(&mut r);
        assert(r@ =~= position_text(*self));
        r
    }
}

impl KakouneRange {
    /// Builds a range from the four numbers written in decimal.
    pub fn from_parts(start_line: &str, start_column: &str, end_line: &str, end_column: &str) -> (r:
        Result<KakouneRange, LocationListErr>)
        ensures
            match (
                parse_u32_spec(start_line@),
                parse_u32_spec(start_column@),
                parse_u32_spec(end_line@),
                parse_u32_spec(end_column@),
            ) {
                (Some(sl), Some(sc), Some(el), Some(ec)) => r == Ok::<
                    KakouneRange,
                    LocationListErr,
                >(
                    KakouneRange {
                        start: KakounePosition { line: sl, column: sc },
                        end: KakounePosition { line: el, column: ec },
                    },
                ),
                _ => r == Err::<KakouneRange, LocationListErr>(LocationListErr::InvalidRange),
            },
    {
        let sl = match parse_u32(start_line) {
            Some(x) => x,
            None => return Err(LocationListErr::InvalidRange),
        };
        let sc = match parse_u32(start_column) {
            Some(x) => x,
            None => return Err(LocationListErr::InvalidRange),
        };
        let el = match parse_u32(end_line) {
            Some(x) => x,
            None => return Err(LocationListErr::InvalidRange),
        };
        let ec = match parse_u32(end_column) {
            Some(x) => x,
            None => return Err(LocationListErr::InvalidRange),
        };
        Ok(
            KakouneRange {
                start: KakounePosition { line: sl, column: sc },
                end: KakounePosition { line: el, column: ec },
            },
        )
    }

    /// Reads `start,end`.
    pub fn from_str(s: &str) -> (r: Result<KakouneRange, LocationListErr>)
        ensures
            match parse_range(s@) {
                Some(p) => r == Ok::<KakouneRange, LocationListErr>(p),
                None => r == Err::<KakouneRange, LocationListErr>(LocationListErr::InvalidRange),
            },
    {
        let v = chars_of(s);
        assert(v@.subrange(0, v@.len() as int) =~= s@);
        match parse_range_chars(&v, 0, v.len()) {
            Some(p) => Ok(p),
            None => Err(LocationListErr::InvalidRange),
        }
    }

    /// Writes `start,end` at the end of `s`.
    pub fn write_to(&self, s: &mut String)
        ensures
            final(s)@ == old(s)@ + range_text(*self),
    {
        self.start.write_to(s);
        push_char(s, ',');
        self.end.write_to(s);
        assert(final(s)@ =~= old(s)@ + range_text(*self));
    }

    /// The range written as `start,end`.
    pub fn to_string(&self) -> (r: String)
        ensures
            r@ == range_text(*self),
    {
        let mut r = String::new();
        self.write_to(&mut r);
        assert(r@ =~= range_text(*self));
        r
    }
}

/// Reading a written position gives the position back.
pub proof fn lemma_position_round_trip(p: KakounePosition)
    ensures
        parse_position(position_text(p)) == Some(p),
{
    let l = text::decimal(p.line as nat);
    let c = text::decimal(p.column as nat);
    let s = position_text(p);
    text::lemma_decimal(p.line as nat);
    text::lemma_decimal(p.column as nat);
    text::lemma_parse_decimal(p.line as nat, u32::MAX as int);
    text::lemma_parse_decimal(p.column as nat, u32::MAX as int);
    assert forall|j: int| 0 <= j < l.len() implies s[j] != '.' by {
        assert(s[j] == l[j]);
        assert(text::is_digit(l[j]));
    }
    assert(s[l.len() as int] == '.');
    text::lemma_find_char_first(s, '.', 0, l.len() as int);
    assert(s.take(l.len() as int) =~= l);
    assert(s.skip(l.len() as int + 1) =~= c);
}

/// Reading a written range gives the range back.
pub proof fn lemma_range_round_trip(r: KakouneRange)
    ensures
        parse_range(range_text(r)) == Some(r),
{
    let a = position_text(r.start);
    let b = position_text(r.end);
    let s = range_text(r);
    let l = text::decimal(r.start.line as nat);
    text::lemma_decimal(r.start.line as nat);
    text::lemma_decimal(r.start.column as nat);
    lemma_position_round_trip(r.start);
    lemma_position_round_trip(r.end);
    assert forall|j: int| 0 <= j < a.len() implies s[j] != ',' by {
        assert(s[j] == a[j]);
        if j < l.len() {
            assert(a[j] == l[j]);
            assert(text::is_digit(l[j]));
        } else if j > l.len() {
            assert(a[j] == text::decimal(r.start.column as nat)[j - l.len() - 1]);
            assert(text::is_digit(text::decimal(r.start.column as nat)[j - l.len() - 1]));
        }
    }
    assert(s[a.len() as int] == ',');
    text::lemma_find_char_first(s, ',', 0, a.len() as int);
    assert(s.take(a.len() as int) =~= a);
    assert(s.skip(a.len() as int + 1) =~= b);
}

} // verus!
