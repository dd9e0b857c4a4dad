use vstd::prelude::*;

use crate::text;
use crate::text::{
    chars_of, digit_run_exec, find_char, join_strings, parse_unsigned_chars, push_char,
    push_decimal, string_of,
};

verus! {

// ---------------------------------------------------------------------------
// Command line
// ---------------------------------------------------------------------------

/// What the program is asked to do.
#[derive(Debug)]
pub enum Command {
    /// Print the editor script that sets the plugin up.
    Init,
    /// Rewrite the shared list with the ranges the editor tracked in `bufname`.
    UpdateList { bufname: String, list: Vec<String>, ranges: Vec<String> },
}

/// Why the command line could not be read.
#[derive(Debug)]
pub enum ArgsError {
    MissingSubcommand,
    MissingBufname,
    UnrecognizedSubcommand(String),
}

impl ArgsError {
    /// The message of the error.
    pub fn message(&self) -> (r: String)
        ensures
            r@ == match self {
                ArgsError::MissingSubcommand => "Must pass a subcommand."@,
                ArgsError::MissingBufname => "A bufname is required"@,
                ArgsError::UnrecognizedSubcommand(s) => "Unrecognized subcommand: "@ + s@,
            },
    {
        match self {
            ArgsError::MissingSubcommand => String::from_str("Must pass a subcommand."),
            ArgsError::MissingBufname => String::from_str("A bufname is required"),
            ArgsError::UnrecognizedSubcommand(s) => {
                let mut r = String::from_str("Unrecognized subcommand: ");
                r.append(s.as_str());
                r
            },
        }
    }
}

/// Whether an argument is a key: it starts with `--`.
pub open spec fn is_key(s: Seq<char>) -> bool {
    s.len() >= 2 && s[0] == '-' && s[1] == '-'
}

/// The first index at or after `from` of a key, or the number of arguments.
pub open spec fn list_end(args: Seq<Seq<char>>, from: int) -> int
    decreases args.len() - from,
{
    if from < 0 || from >= args.len() {
        if from < 0 { 0 } else { from }
    } else if is_key(args[from]) {
        from
    } else {
        list_end(args, from + 1)
    }
}

/// A list of values after a key: the argument at `pos` (the key) is skipped,
/// then the arguments up to the next key are taken. Returns them and where
/// reading goes on.
pub open spec fn list_after(args: Seq<Seq<char>>, pos: int) -> (Seq<Seq<char>>, int) {
    let start = if pos < args.len() {
        pos + 1
    } else {
        pos
    };
    let end = list_end(args, start);
    (args.subrange(start, end), end)
}

/// What reading the command line gives, in terms of the arguments' characters.
pub enum ArgsOutcome {
    Init,
    /// The buffer's name, the tracked ranges and the list.
    UpdateList(Seq<char>, Seq<Seq<char>>, Seq<Seq<char>>),
    MissingSubcommand,
    MissingBufname,
    Unrecognized(Seq<char>),
}

/// What the arguments (after the program's name) ask for: `init`, or
/// `update-list <key> <bufname> <key> <ranges...> <key> <list...>`, each list
/// running up to the next argument that starts with `--`.
pub open spec fn command_of(args: Seq<Seq<char>>) -> ArgsOutcome {
    if args.len() == 0 {
        ArgsOutcome::MissingSubcommand
    } else if args[0] == "init"@ {
        ArgsOutcome::Init
    } else if args[0] == "update-list"@ {
        let pos = if args.len() > 1 {
            2int
        } else {
            1int
        };
        if pos >= args.len() {
            ArgsOutcome::MissingBufname
        } else {
            let (ranges, p1) = list_after(args, pos + 1);
            let (list, _) = list_after(args, p1);
            ArgsOutcome::UpdateList(args[pos], ranges, list)
        }
    } else {
        ArgsOutcome::Unrecognized(args[0])
    }
}

pub proof fn lemma_list_end(args: Seq<Seq<char>>, from: int)
    requires
        0 <= from <= args.len(),
    ensures
        from <= list_end(args, from) <= args.len(),
    decreases args.len() - from,
{
    if from < args.len() && !is_key(args[from]) {
        lemma_list_end(args, from + 1);
    }
}

fn is_key_exec(s: &String) -> (b: bool)
    ensures
        b == is_key(s@),
{
    let v = chars_of(s.as_str());
    v.len() >= 2 && v[0] == '-' && v[1] == '-'
}

/// Reads a list of values after a key; see `list_after`.
pub fn parse_list(args: &Vec<String>, pos: usize) -> (r: (Vec<String>, usize))
    requires
        pos <= args.len(),
    ensures
        text::views(r.0@) == list_after(text::views(args@), pos as int).0,
        r.1 == list_after(text::views(args@), pos as int).1,
{
    let ghost a = text::views(args@);
    let mut i = if pos < args.len() {
        pos + 1
    } else {
        pos
    };
    let start = i;
    let mut list: Vec<String> = Vec::new();
    while i < args.len() && !is_key_exec(&args[i])
        invariant
            a == text::views(args@),
            start <= i <= args.len(),
            list_end(a, start as int) == list_end(a, i as int),
            text::views(list@) == a.subrange(start as int, i as int),
        decreases args.len() - i,
    {
        let ghost prev = text::views(list@);
        list.push(args[i].clone());
        assert(text::views(list@) =~= prev.push(a[i as int]));
        assert(text::views(list@) =~= a.subrange(start as int, i + 1));
        i = i + 1;
    }
    (list, i)
}

/// Reads the arguments that follow the program's name.
#[verifier::spinoff_prover]
pub fn parse_args(args: &Vec<String>) -> (r: Result<Command, ArgsError>)
    ensures
        match command_of(text::views(args@)) {
            ArgsOutcome::Init => r matches Ok(Command::Init),
            ArgsOutcome::UpdateList(bufname, ranges, list) => r matches Ok(
                Command::UpdateList { bufname: b, list: l, ranges: g },
            ) && b@ == bufname && text::views(l@) == list && text::views(g@) == ranges,
            ArgsOutcome::MissingSubcommand => r matches Err(ArgsError::MissingSubcommand),
            ArgsOutcome::MissingBufname => r matches Err(ArgsError::MissingBufname),
            ArgsOutcome::Unrecognized(s) => r matches Err(ArgsError::UnrecognizedSubcommand(u))
                && u@ == s,
        },
{
    let ghost a = text::views(args@);
    if args.len() == 0 {
        return Err(ArgsError::MissingSubcommand);
    }
    let init = String::from_str("init");
    let update = String::from_str("update-list");
    assert(a[0] == args@[0]@);
    if args[0] == init {
        return Ok(Command::Init);
    }
    if args[0] == update {
        let pos: usize = if args.len() > 1 {
            2
        } else {
            1
        };
        if pos >= args.len() {
            return Err(ArgsError::MissingBufname);
        }
        let bufname = args[pos].clone();
        proof {
            lemma_list_end(a, if pos + 1 < a.len() { pos + 2 } else { pos + 1 });
        }
        let (ranges, p1) = parse_list(args, pos + 1);
        proof {
            let q = if p1 < a.len() { p1 + 1 } else { p1 as int };
            lemma_list_end(a, q);
        }
        let (list, _) = parse_list(args, p1);
        return Ok(Command::UpdateList { bufname, list, ranges });
    }
    Err(ArgsError::UnrecognizedSubcommand(args[0].clone()))
}


// ---------------------------------------------------------------------------
// Locations of the editor's list: `bufname|line.column,line.column|preview`
// ---------------------------------------------------------------------------

/// Why a location of the editor's list could not be read.
#[derive(Clone, Copy, Debug, PartialEq, Eq, Structural)]
pub enum LoliErr {
    InvalidLocation,
    InvalidRange,
    InvalidPosition,
}

impl LoliErr {
    /// The message of the error.
    pub fn message(&self) -> (r: &'static str)
        ensures
            r@ == match self {
                LoliErr::InvalidLocation => "Invalid location in list."@,
                LoliErr::InvalidRange => "Invalid range."@,
                LoliErr::InvalidPosition => "Invalid position."@,
            },
    {
        match self {
            LoliErr::InvalidLocation => "Invalid location in list.",
            LoliErr::InvalidRange => "Invalid range.",
            LoliErr::InvalidPosition => "Invalid position.",
        }
    }
}

/// A position in a buffer.
#[derive(Clone, Copy, Debug, PartialEq, Eq, Structural)]
pub struct KakounePosition {
    pub line: usize,
    pub column: usize,
}

/// A range of a buffer.
#[derive(Clone, Copy, Debug, PartialEq, Eq, Structural)]
pub struct KakouneRange {
    pub start: KakounePosition,
    pub end: KakounePosition,
}

/// A location of the editor's list.
#[derive(Debug)]
pub struct Location {
    pub bufname: String,
    pub range: KakouneRange,
    pub preview: String,
}

pub type LocModel = (Seq<char>, KakouneRange, Seq<char>);

impl View for Location {
    type V = LocModel;

    open spec fn view(&self) -> LocModel {
        (self.bufname@, self.range, self.preview@)
    }
}

pub open spec fn parse_usize_spec(s: Seq<char>) -> Option<usize> {
    match text::parse_unsigned(s, usize::MAX as int) {
        Some(n) => Some(n as usize),
        None => None,
    }
}

/// `line.column`, split at the first `.`.
pub open spec fn parse_position(s: Seq<char>) -> Option<KakounePosition> {
    match text::find_char_from(s, '.', 0) {
        Some(i) => match (parse_usize_spec(s.take(i)), parse_usize_spec(s.skip(i + 1))) {
            (Some(line), Some(column)) => Some(KakounePosition { line, column }),
            _ => None,
        },
        None => None,
    }
}

/// `start,end`, split at the first `,`.
pub open spec fn parse_range(s: Seq<char>) -> Option<KakouneRange> {
    match text::find_char_from(s, ',', 0) {
        Some(i) => match (parse_position(s.take(i)), parse_position(s.skip(i + 1))) {
            (Some(start), Some(end)) => Some(KakouneRange { start, end }),
            _ => None,
        },
        None => None,
    }
}

pub open spec fn position_text(p: KakounePosition) -> Seq<char> {
    text::decimal(p.line as nat) + seq!['.'] + text::decimal(p.column as nat)
}

pub open spec fn range_text(r: KakouneRange) -> Seq<char> {
    position_text(r.start) + seq![','] + position_text(r.end)
}

/// `bufname|range|preview`: how a location is written.
pub open spec fn location_text(l: LocModel) -> Seq<char> {
    l.0 + seq!['|'] + range_text(l.1) + seq!['|'] + l.2
}

/// The shape of the range part that starts at `a`: `d1` decimal digits
/// (`text::is_decimal_digit`), any character, decimal digits, `,`, `d3`
/// decimal digits, any character, decimal digits, then the `|` whose index is
/// returned.
pub open spec fn range_shape(s: Seq<char>, a: int, d1: int, d3: int) -> Option<int> {
    let x = a + d1;
    let b = x + 1 + text::digit_run(s, x + 1);
    let y = b + 1 + d3;
    let q = y + 1 + text::digit_run(s, y + 1);
    if 0 <= a && 0 <= d1 <= text::digit_run(s, a) && x < s.len() && b < s.len() && s[b] == ','
        && 0 <= d3 <= text::digit_run(s, b + 1) && y < s.len() && q < s.len() && s[q] == '|' {
        Some(q)
    } else {
        None
    }
}

/// The index of the comma of the range part when its first digits are `d1`.
pub open spec fn comma_of(s: Seq<char>, a: int, d1: int) -> int {
    a + d1 + 1 + text::digit_run(s, a + d1 + 1)
}

/// The first shape with `d1` digits first and at least `d3` digits after the
/// comma (the lazy digits take as few as they can).
pub open spec fn first_d3(s: Seq<char>, a: int, d1: int, d3: int) -> Option<int>
    decreases text::digit_run(s, comma_of(s, a, d1) + 1) - d3,
{
    if d3 < 0 || d3 > text::digit_run(s, comma_of(s, a, d1) + 1) {
        None
    } else if range_shape(s, a, d1, d3) is Some {
        range_shape(s, a, d1, d3)
    } else if d3 < text::digit_run(s, comma_of(s, a, d1) + 1) {
        first_d3(s, a, d1, d3 + 1)
    } else {
        None
    }
}

/// The first shape with at least `d1` digits first.
pub open spec fn first_d1(s: Seq<char>, a: int, d1: int) -> Option<int>
    decreases text::digit_run(s, a) - d1,
{
    if d1 < 0 || d1 > text::digit_run(s, a) {
        None
    } else if first_d3(s, a, d1, 0) is Some {
        first_d3(s, a, d1, 0)
    } else if d1 < text::digit_run(s, a) {
        first_d1(s, a, d1 + 1)
    } else {
        None
    }
}

/// The first `|` at or after `p` that a range part and a `|` follow, and the
/// index of that second `|`.
pub open spec fn first_loc_bar(s: Seq<char>, p: int) -> Option<(int, int)>
    decreases s.len() - p,
{
    if p < 0 || p >= s.len() {
        None
    } else if s[p] == '|' && first_d1(s, p + 1, 0) is Some {
        Some((p, first_d1(s, p + 1, 0)->0))
    } else {
        first_loc_bar(s, p + 1)
    }
}

/// How `Location::from_str` reads a location: a line (no `\n`) that is a
/// buffer name, `|`, a range part and `|` and a preview, where the buffer name
/// is the shortest possible and the range part's digit runs before each `.`
/// and `,` are the shortest possible; the range part must then read as
/// `line.column,line.column`, each number in ASCII digits.
pub open spec fn parse_location(s: Seq<char>) -> Result<LocModel, LoliErr> {
    if s.contains('\n') {
        Err(LoliErr::InvalidLocation)
    } else {
        match first_loc_bar(s, 0) {
            None => Err(LoliErr::InvalidLocation),
            Some((p, q)) => match parse_range(s.subrange(p + 1, q)) {
                None => Err(LoliErr::InvalidRange),
                Some(r) => Ok((s.take(p), r, s.subrange(q + 1, s.len() as int))),
            },
        }
    }
}

pub proof fn lemma_first_d3(s: Seq<char>, a: int, d1: int, d3: int)
    ensures
        first_d3(s, a, d1, d3) matches Some(q) ==> exists|e: int| d3 <= e && range_shape(s, a, d1, e) == Some(q),
    decreases text::digit_run(s, comma_of(s, a, d1) + 1) - d3,
{
    if 0 <= d3 <= text::digit_run(s, comma_of(s, a, d1) + 1) && range_shape(s, a, d1, d3) is None
        && d3 < text::digit_run(s, comma_of(s, a, d1) + 1) {
        lemma_first_d3(s, a, d1, d3 + 1);
    }
}

pub proof fn lemma_first_d1(s: Seq<char>, a: int, d1: int)
    ensures
        first_d1(s, a, d1) matches Some(q) ==> exists|e: int, f: int| range_shape(s, a, e, f) == Some(q),
    decreases text::digit_run(s, a) - d1,
{
    if 0 <= d1 <= text::digit_run(s, a) {
        lemma_first_d3(s, a, d1, 0);
        if first_d3(s, a, d1, 0) is None && d1 < text::digit_run(s, a) {
            lemma_first_d1(s, a, d1 + 1);
        }
    }
}

pub proof fn lemma_first_loc_bar(s: Seq<char>, p: int)
    requires
        0 <= p,
    ensures
        first_loc_bar(s, p) matches Some((b, q)) ==> p <= b < q < s.len(),
    decreases s.len() - p,
{
    if p < s.len() {
        if s[p] == '|' && first_d1(s, p + 1, 0) is Some {
            lemma_first_d1(s, p + 1, 0);
        } else {
            lemma_first_loc_bar(s, p + 1);
        }
    }
}

fn range_shape_exec(v: &Vec<char>, a: usize, d1: usize, d3: usize) -> (r: Option<usize>)
    requires
        a <= v.len(),
    ensures
        match range_shape(v@, a as int, d1 as int, d3 as int) {
            Some(q) => r == Some(q as usize),
            None => r is None,
        },
{
    let n = v.len();
    if d1 > digit_run_exec(v, a) {
        return None;
    }
    let x = a + d1;
    if x >= n {
        return None;
    }
    let b = x + 1 + digit_run_exec(v, x + 1);
    if b >= n || v[b] != ',' {
        return None;
    }
    if d3 > digit_run_exec(v, b + 1) {
        return None;
    }
    let y = b + 1 + d3;
    if y >= n {
        return None;
    }
    let q = y + 1 + digit_run_exec(v, y + 1);
    if q >= n || v[q] != '|' {
        return None;
    }
    Some(q)
}

fn first_d3_exec(v: &Vec<char>, a: usize, d1: usize) -> (r: Option<usize>)
    requires
        a + d1 <= v.len(),
    ensures
        match first_d3(v@, a as int, d1 as int, 0) {
            Some(q) => r == Some(q as usize),
            None => r is None,
        },
{
    let n = v.len();
    let x = a + d1;
    if x >= n {
        proof {
            assert forall|e: int| 0 <= e implies range_shape(v@, a as int, d1 as int, e) is None by {}
            lemma_first_d3_none(v@, a as int, d1 as int, 0);
        }
        return None;
    }
    let b = comma_of_exec(v, a, d1);
    if b >= n {
        proof {
            assert forall|e: int| 0 <= e implies range_shape(v@, a as int, d1 as int, e) is None by {}
            lemma_first_d3_none(v@, a as int, d1 as int, 0);
        }
        return None;
    }
    let bound = digit_run_exec(v, b + 1);
    let mut d3: usize = 0;
    loop
        invariant
            a + d1 <= n,
            n == v.len(),
            x == a + d1,
            x < n,
            bound == text::digit_run(v@, comma_of(v@, a as int, d1 as int) + 1),
            d3 <= bound,
            first_d3(v@, a as int, d1 as int, 0) == first_d3(v@, a as int, d1 as int, d3 as int),
        decreases bound - d3,
    {
        match range_shape_exec(v, a, d1, d3) {
            Some(q) => {
                return Some(q);
            },
            None => {},
        }
        if d3 >= bound {
            return None;
        }
        d3 = d3 + 1;
    }
}

fn comma_of_exec(v: &Vec<char>, a: usize, d1: usize) -> (r: usize)
    requires
        a + d1 < v.len(),
    ensures
        r == comma_of(v@, a as int, d1 as int),
        r <= v.len(),
{
    a + d1 + 1 + digit_run_exec(v, a + d1 + 1)
}

pub proof fn lemma_first_d3_none(s: Seq<char>, a: int, d1: int, d3: int)
    requires
        forall|e: int| 0 <= e ==> range_shape(s, a, d1, e) is None,
    ensures
        first_d3(s, a, d1, d3) is None,
    decreases text::digit_run(s, comma_of(s, a, d1) + 1) - d3,
{
    if 0 <= d3 < text::digit_run(s, comma_of(s, a, d1) + 1) {
        lemma_first_d3_none(s, a, d1, d3 + 1);
    }
}

fn first_d1_exec(v: &Vec<char>, a: usize) -> (r: Option<usize>)
    requires
        a <= v.len(),
    ensures
        match first_d1(v@, a as int, 0) {
            Some(q) => r == Some(q as usize),
            None => r is None,
        },
{
    let n = v.len();
    let bound = digit_run_exec(v, a);
    let mut d1: usize = 0;
    loop
        invariant
            a <= n,
            n == v.len(),
            a + bound <= n,
            bound == text::digit_run(v@, a as int),
            d1 <= bound,
            first_d1(v@, a as int, 0) == first_d1(v@, a as int, d1 as int),
        decreases bound - d1,
    {
        match first_d3_exec(v, a, d1) {
            Some(q) => {
                return Some(q);
            },
            None => {},
        }
        if d1 >= bound {
            return None;
        }
        d1 = d1 + 1;
    }
}

fn first_loc_bar_exec(v: &Vec<char>) -> (r: Option<(usize, usize)>)
    ensures
        match first_loc_bar(v@, 0) {
            Some((p, q)) => r == Some((p as usize, q as usize)),
            None => r is None,
        },
{
    let n = v.len();
    let mut p: usize = 0;
    while p < n
        invariant
            n == v.len(),
            p <= n,
            first_loc_bar(v@, 0) == first_loc_bar(v@, p as int),
        decreases n - p,
    {
        if v[p] == '|' {
            match first_d1_exec(v, p + 1) {
                Some(q) => {
                    return Some((p, q));
                },
                None => {},
            }
        }
        p = p + 1;
    }
    None
}


fn parse_usize_chars(v: &Vec<char>, lo: usize, hi: usize) -> (r: Option<usize>)
    requires
        lo <= hi <= v.len(),
    ensures
        r == parse_usize_spec(v@.subrange(lo as int, hi as int)),
{
    match parse_unsigned_chars(v, lo, hi, usize::MAX as u64) {
        Some(x) => Some(x as usize),
        None => None,
    }
}

fn parse_position_chars(v: &Vec<char>, lo: usize, hi: usize) -> (r: Option<KakounePosition>)
    requires
        lo <= hi <= v.len(),
    ensures
        r == parse_position(v@.subrange(lo as int, hi as int)),
{
    let ghost s = v@.subrange(lo as int, hi as int);
    let i = find_char(v, '.', lo, hi);
    proof {
        text::lemma_find_char_first(s, '.', 0, i - lo);
    }
    if i == hi {
        return None;
    }
    proof {
        assert(s.take(i - lo) =~= v@.subrange(lo as int, i as int));
        assert(s.skip(i - lo + 1) =~= v@.subrange(i + 1, hi as int));
    }
    let line = parse_usize_chars(v, lo, i);
    let column = parse_usize_chars(v, i + 1, hi);
    match (line, column) {
        (Some(line), Some(column)) => Some(KakounePosition { line, column }),
        _ => None,
    }
}

fn parse_range_chars(v: &Vec<char>, lo: usize, hi: usize) -> (r: Option<KakouneRange>)
    requires
        lo <= hi <= v.len(),
    ensures
        r == parse_range(v@.subrange(lo as int, hi as int)),
{
    let ghost s = v@.subrange(lo as int, hi as int);
    let i = find_char(v, ',', lo, hi);
    proof {
        text::lemma_find_char_first(s, ',', 0, i - lo);
    }
    if i == hi {
        return None;
    }
    proof {
        assert(s.take(i - lo) =~= v@.subrange(lo as int, i as int));
        assert(s.skip(i - lo + 1) =~= v@.subrange(i + 1, hi as int));
    }
    let start = parse_position_chars(v, lo, i);
    let end = parse_position_chars(v, i + 1, hi);
    match (start, end) {
        (Some(start), Some(end)) => Some(KakouneRange { start, end }),
        _ => None,
    }
}

impl KakounePosition {
    /// Reads `line.column`.
    pub fn from_str(s: &str) -> (r: Result<KakounePosition, LoliErr>)
        ensures
            match parse_position(s@) {
                Some(p) => r == Ok::<KakounePosition, LoliErr>(p),
                None => r == Err::<KakounePosition, LoliErr>(LoliErr::InvalidRange),
            },
    {
        let v = chars_of(s);
        assert(v@.subrange(0, v@.len() as int) =~= s@);
        match parse_position_chars(&v, 0, v.len()) {
            Some(p) => Ok(p),
            None => Err(LoliErr::InvalidRange),
        }
    }

    /// Writes `line.column` at the end of `s`.
    pub fn write_to(&self, s: &mut String)
        ensures
            final(s)@ == old(s)@ + position_text(*self),
    {
        push_decimal(s, self.line as u64);
        push_char(s, '.');
        push_decimal(s, self.column as u64);
        assert(final(s)@ =~= old(s)@ + position_text(*self));
    }

    /// The position written as `line.column`.
    pub fn to_string(&self) -> (r: String)
        ensures
            r@ == position_text(*self),
    {
        let mut r = String::new();
        self.write_to(&mut r);
        assert(r@ =~= position_text(*self));
        r
    }
}

impl KakouneRange {
    /// Reads `start,end`.
    pub fn from_str(s: &str) -> (r: Result<KakouneRange, LoliErr>)
        ensures
            match parse_range(s@) {
                Some(p) => r == Ok::<KakouneRange, LoliErr>(p),
                None => r == Err::<KakouneRange, LoliErr>(LoliErr::InvalidRange),
            },
    {
        let v = chars_of(s);
        assert(v@.subrange(0, v@.len() as int) =~= s@);
        match parse_range_chars(&v, 0, v.len()) {
            Some(p) => Ok(p),
            None => Err(LoliErr::InvalidRange),
        }
    }

    /// Writes `start,end` at the end of `s`.
    pub fn write_to(&self, s: &mut String)
        ensures
            final(s)@ == old(s)@ + range_text(*self),
    {
        self.start.write_to(s);
        push_char(s, ',');
        self.end.write_to(s);
        assert(final(s)@ =~= old(s)@ + range_text(*self));
    }

    /// The range written as `start,end`.
    pub fn to_string(&self) -> (r: String)
        ensures
            r@ == range_text(*self),
    {
        let mut r = String::new();
        self.write_to(&mut r);
        assert(r@ =~= range_text(*self));
        r
    }
}

fn contains_newline(v: &Vec<char>) -> (b: bool)
    ensures
        b == v@.contains('\n'),
{
    let mut i: usize = 0;
    while i < v.len()
        invariant
            i <= v.len(),
            forall|k: int| 0 <= k < i ==> v@[k] != '\n',
        decreases v.len() - i,
    {
        if v[i] == '\n' {
            return true;
        }
        i = i + 1;
    }
    false
}

impl Location {
    /// Reads one location of the editor's list; see `parse_location`.
    pub fn from_str(s: &str) -> (r: Result<Location, LoliErr>)
        ensures
            match parse_location(s@) {
                Ok(l) => r matches Ok(loc) && loc@ == l,
                Err(e) => r matches Err(f) && f == e,
            },
    {
        let v = chars_of(s);
        if contains_newline(&v) {
            return Err(LoliErr::InvalidLocation);
        }
        let (p, q) = match first_loc_bar_exec(&v) {
            Some(m) => m,
            None => {
                return Err(LoliErr::InvalidLocation);
            },
        };
        proof {
            lemma_first_loc_bar(v@, 0);
        }
        let range = match parse_range_chars(&v, p + 1, q) {
            Some(r) => r,
            None => {
                return Err(LoliErr::InvalidRange);
            },
        };
        let bufname = string_of(&v, 0, p);
        let preview = string_of(&v, q + 1, v.len());
        assert(bufname@ =~= v@.take(p as int));
        Ok(Location { bufname, range, preview })
    }

    /// The location written as `bufname|range|preview`.
    pub fn to_string(&self) -> (r: String)
        ensures
            r@ == location_text(self@),
    {
        let mut r = self.bufname.clone();
        push_char(&mut r, '|');
        self.range.write_to(&mut r);
        push_char(&mut r, '|');
        r.append(self.preview.as_str());
        assert(r@ =~= location_text(self@));
        r
    }
}

/// Reading a written position gives the position back.
pub proof fn lemma_position_round_trip(p: KakounePosition)
    ensures
        parse_position(position_text(p)) == Some(p),
{
    let l = text::decimal(p.line as nat);
    let c = text::decimal(p.column as nat);
    let s = position_text(p);
    text::lemma_decimal(p.line as nat);
    text::lemma_decimal(p.column as nat);
    text::lemma_parse_decimal(p.line as nat, usize::MAX as int);
    text::lemma_parse_decimal(p.column as nat, usize::MAX as int);
    assert forall|j: int| 0 <= j < l.len() implies s[j] != '.' by {
        assert(s[j] == l[j]);
        assert(text::is_digit(l[j]));
    }
    assert(s[l.len() as int] == '.');
    text::lemma_find_char_first(s, '.', 0, l.len() as int);
    assert(s.take(l.len() as int) =~= l);
    assert(s.skip(l.len() as int + 1) =~= c);
}

/// Reading a written range gives the range back.
pub proof fn lemma_range_round_trip(r: KakouneRange)
    ensures
        parse_range(range_text(r)) == Some(r),
{
    let a = position_text(r.start);
    let b = position_text(r.end);
    let s = range_text(r);
    let l = text::decimal(r.start.line as nat);
    text::lemma_decimal(r.start.line as nat);
    text::lemma_decimal(r.start.column as nat);
    lemma_position_round_trip(r.start);
    lemma_position_round_trip(r.end);
    assert forall|j: int| 0 <= j < a.len() implies s[j] != ',' by {
        assert(s[j] == a[j]);
        if j < l.len() {
            assert(a[j] == l[j]);
            assert(text::is_digit(l[j]));
        } else if j > l.len() {
            assert(a[j] == text::decimal(r.start.column as nat)[j - l.len() - 1]);
            assert(text::is_digit(text::decimal(r.start.column as nat)[j - l.len() - 1]));
        }
    }
    assert(s[a.len() as int] == ',');
    text::lemma_find_char_first(s, ',', 0, a.len() as int);
    assert(s.take(a.len() as int) =~= a);
    assert(s.skip(a.len() as int + 1) =~= b);
}


// ---------------------------------------------------------------------------
// update-list
// ---------------------------------------------------------------------------

/// Why `update-list` fails.
#[derive(Clone, Copy, Debug, PartialEq, Eq, Structural)]
pub enum UpdateError {
    /// Fewer tracked ranges than locations in the buffer.
    RangeAmountMismatch,
    /// A tracked range is not `range|...` with a readable range.
    InvalidRangeFormat,
}

impl UpdateError {
    /// The message of the error.
    pub fn message(&self) -> (r: &'static str)
        ensures
            r@ == match self {
                UpdateError::RangeAmountMismatch => "Range amount mismatch"@,
                UpdateError::InvalidRangeFormat => "Invalid range format"@,
            },
    {
        match self {
            UpdateError::RangeAmountMismatch => "Range amount mismatch",
            UpdateError::InvalidRangeFormat => "Invalid range format",
        }
    }
}

/// Each `@` doubled, as the editor's `%@...@` strings write it.
pub open spec fn escape_at(s: Seq<char>) -> Seq<char> {
    text::doubled(s, '@')
}

/// A location written as one of the editor's `%@...@` strings.
pub open spec fn quoted_location(l: LocModel) -> Seq<char> {
    "%@"@ + escape_at(location_text(l)) + "@"@
}

/// Whether the editor reads `q` as a `%@...@` string holding `t`: `q` is `%@`,
/// then a text in which every run of `@` has an even length (so no `@` inside
/// ends the string), then the closing `@`; and the text, each `@@` read as
/// `@`, is `t`.
pub open spec fn editor_string_reads(q: Seq<char>, t: Seq<char>) -> bool {
    let w = q.subrange(2, q.len() - 1);
    &&& q.len() >= 3
    &&& q[0] == '%'
    &&& q[1] == '@'
    &&& q[q.len() - 1] == '@'
    &&& text::runs_even(w, '@')
    &&& text::undoubled(w, '@') == t
}

/// Whether the editor reads `q` as the written text of some location.
pub open spec fn reads_as_location(q: Seq<char>) -> bool {
    exists|l: LocModel| editor_string_reads(q, #[trigger] location_text(l))
}

/// A quoted location is read by the editor as the whole written location:
/// buffer name, range and preview, every `@` in any of them included.
pub proof fn lemma_quoted_location_reads(l: LocModel)
    ensures
        editor_string_reads(quoted_location(l), location_text(l)),
{
    reveal_strlit("%@");
    reveal_strlit("@");
    let t = location_text(l);
    let d = escape_at(t);
    let q = quoted_location(l);
    assert(q == "%@"@ + d + "@"@);
    assert(q.subrange(2, q.len() - 1) =~= d);
    text::lemma_doubled_runs_even(t, '@');
    text::lemma_undoubled_doubled(t, '@');
}

/// Every item that `update_list` writes is one `%@...@` string that the
/// editor reads back as a whole written location.
pub proof fn lemma_update_items_read(
    bufname: Seq<char>,
    items: Seq<Seq<char>>,
    ranges: Seq<Seq<char>>,
    next: int,
)
    ensures
        update_items(bufname, items, ranges, next) matches Ok(parts) ==> forall|k: int|
            0 <= k < parts.len() ==> reads_as_location(#[trigger] parts[k]),
    decreases items.len(),
{
    if items.len() > 0 {
        match parse_location(items[0]) {
            Err(_) => {
                lemma_update_items_read(bufname, items.drop_first(), ranges, next);
            },
            Ok(loc) => {
                let x = if loc.0 == bufname {
                    match range_entry(ranges[next]) {
                        Some(r) => (loc.0, r, loc.2),
                        None => loc,
                    }
                } else {
                    loc
                };
                let n2 = if loc.0 == bufname {
                    next + 1
                } else {
                    next
                };
                lemma_update_items_read(bufname, items.drop_first(), ranges, n2);
                lemma_quoted_location_reads(x);
                match update_items(bufname, items, ranges, next) {
                    Ok(parts) => {
                        assert(parts[0] == quoted_location(x));
                        assert forall|k: int| 0 <= k < parts.len() implies reads_as_location(
                            #[trigger] parts[k],
                        ) by {
                            if k == 0 {
                                assert(editor_string_reads(parts[0], location_text(x)));
                            } else {
                                match update_items(bufname, items.drop_first(), ranges, n2) {
                                    Ok(rest) => {
                                        assert(parts[k] == rest[k - 1]);
                                    },
                                    Err(_) => {},
                                }
                            }
                        }
                    },
                    Err(_) => {},
                }
            },
        }
    }
}

pub open spec fn prepend_ok(x: Seq<char>, r: Result<Seq<Seq<char>>, UpdateError>) -> Result<
    Seq<Seq<char>>,
    UpdateError,
> {
    match r {
        Ok(rest) => Ok(seq![x] + rest),
        Err(e) => Err(e),
    }
}

/// The range of a tracked range entry `entry`: the part before its first `|`.
pub open spec fn range_entry(entry: Seq<char>) -> Option<KakouneRange> {
    match text::find_char_from(entry, '|', 0) {
        Some(i) => parse_range(entry.take(i)),
        None => None,
    }
}

/// The items of the new list: the locations that read (others are dropped),
/// those of buffer `bufname` taking, in order, the tracked ranges from index
/// `next` on.
pub open spec fn update_items(
    bufname: Seq<char>,
    items: Seq<Seq<char>>,
    ranges: Seq<Seq<char>>,
    next: int,
) -> Result<Seq<Seq<char>>, UpdateError>
    decreases items.len(),
{
    if items.len() == 0 {
        Ok(seq![])
    } else {
        match parse_location(items[0]) {
            Err(_) => update_items(bufname, items.drop_first(), ranges, next),
            Ok(loc) => if loc.0 == bufname {
                if next < 0 || next >= ranges.len() {
                    Err(UpdateError::RangeAmountMismatch)
                } else {
                    match range_entry(ranges[next]) {
                        None => Err(UpdateError::InvalidRangeFormat),
                        Some(r) => prepend_ok(
                            quoted_location((loc.0, r, loc.2)),
                            update_items(bufname, items.drop_first(), ranges, next + 1),
                        ),
                    }
                }
            } else {
                prepend_ok(
                    quoted_location(loc),
                    update_items(bufname, items.drop_first(), ranges, next),
                )
            },
        }
    }
}

/// The new value of the shared list: the items joined by spaces. The first
/// tracked range (the timestamp) is skipped.
pub open spec fn updated_list(bufname: Seq<char>, items: Seq<Seq<char>>, ranges: Seq<Seq<char>>) -> Result<
    Seq<char>,
    UpdateError,
> {
    match update_items(bufname, items, ranges, 1) {
        Ok(parts) => Ok(text::join(parts, " "@)),
        Err(e) => Err(e),
    }
}

fn push_escaped_at(r: &mut String, s: &String)
    ensures
        final(r)@ == old(r)@ + escape_at(s@),
{
    let v = chars_of(s.as_str());
    let mut i: usize = 0;
    while i < v.len()
        invariant
            v@ == s@,
            i <= v.len(),
            r@ == old(r)@ + escape_at(v@.subrange(0, i as int)),
        decreases v.len() - i,
    {
        proof {
            assert(v@.subrange(0, i + 1).drop_last() =~= v@.subrange(0, i as int));
        }
        if v[i] == '@' {
            push_char(r, '@');
            push_char(r, '@');
        } else {
            push_char(r, v[i]);
        }
        assert(r@ =~= old(r)@ + escape_at(v@.subrange(0, i + 1)));
        i = i + 1;
    }
    assert(v@.subrange(0, v@.len() as int) =~= s@);
}

fn quote_location(l: &Location) -> (r: String)
    ensures
        r@ == quoted_location(l@),
{
    let text = l.to_string();
    let mut r = String::new();
    r.append("%@");
    push_escaped_at(&mut r, &text);
    r.append("@");
    r
}

fn range_entry_exec(entry: &String) -> (r: Option<KakouneRange>)
    ensures
        r == range_entry(entry@),
{
    let v = chars_of(entry.as_str());
    let i = find_char(&v, '|', 0, v.len());
    proof {
        text::lemma_find_char_first(v@, '|', 0, i as int);
    }
    if i == v.len() {
        return None;
    }
    proof {
        assert(v@.subrange(0, i as int) =~= v@.take(i as int));
    }
    parse_range_chars(&v, 0, i)
}

/// The new value of the shared list after the editor tracked the ranges of
/// the locations of buffer `bufname`: `list` holds the list's items, `ranges`
/// the tracked ranges (after a timestamp). Each item is written back as a
/// `%@...@` string.
#[verifier::spinoff_prover]
pub fn update_list(bufname: &str, list: &Vec<String>, ranges: &Vec<String>) -> (r: Result<
    String,
    UpdateError,
>)
    ensures
        match updated_list(bufname@, text::views(list@), text::views(ranges@)) {
            Ok(s) => r matches Ok(t) && t@ == s,
            Err(e) => r matches Err(f) && f == e,
        },
{
    let ghost items = text::views(list@);
    let ghost rs = text::views(ranges@);
    let name = String::from_str(bufname);
    let mut parts: Vec<String> = Vec::new();
    let mut next: usize = 1;
    let mut i: usize = 0;
    proof {
        assert(items.subrange(0, items.len() as int) =~= items);
        match update_items(bufname@, items, rs, 1) {
            Ok(rest) => {
                assert(text::views(parts@) + rest =~= rest);
            },
            Err(_) => {},
        }
    }
    while i < list.len()
        invariant
            items == text::views(list@),
            rs == text::views(ranges@),
            name@ == bufname@,
            i <= list.len(),
            1 <= next,
            update_items(bufname@, items, rs, 1) == match update_items(
                bufname@,
                items.subrange(i as int, items.len() as int),
                rs,
                next as int,
            ) {
                Ok(rest) => Ok(text::views(parts@) + rest),
                Err(e) => Err(e),
            },
        decreases list.len() - i,
    {
        let ghost tail = items.subrange(i as int, items.len() as int);
        let ghost tail1 = items.subrange(i + 1, items.len() as int);
        proof {
            assert(tail.drop_first() =~= tail1);
            assert(tail[0] == list@[i as int]@);
        }
        match Location::from_str(list[i].as_str()) {
            Err(_) => {},
            Ok(loc) => {
                let mut loc = loc;
                if loc.bufname == name {
                    if next >= ranges.len() {
                        return Err(UpdateError::RangeAmountMismatch);
                    }
                    let range = match range_entry_exec(&ranges[next]) {
                        Some(range) => range,
                        None => {
                            return Err(UpdateError::InvalidRangeFormat);
                        },
                    };
                    assert(rs[next as int] == ranges@[next as int]@);
                    loc.range = range;
                    next = next + 1;
                }
                let q = quote_location(&loc);
                let ghost prev = text::views(parts@);
                parts.push(q);
                proof {
                    assert(text::views(parts@) =~= prev.push(q@));
                    match update_items(bufname@, tail1, rs, next as int) {
                        Ok(rest) => {
                            assert(prev + (seq![q@] + rest) =~= prev.push(q@) + rest);
                        },
                        Err(_) => {},
                    }
                }
            },
        }
        i = i + 1;
    }
    proof {
        assert(items.subrange(i as int, items.len() as int) =~= Seq::<Seq<char>>::empty());
        assert(text::views(parts@) + Seq::<Seq<char>>::empty() =~= text::views(parts@));
    }
    let sep = " ";
    Ok(join_strings(&parts, sep))
}


// ---------------------------------------------------------------------------
// Reading back what is written
// ---------------------------------------------------------------------------

pub proof fn lemma_first_d3_at(s: Seq<char>, a: int, d1: int, d3: int, d: int)
    requires
        0 <= d3 <= d <= text::digit_run(s, comma_of(s, a, d1) + 1),
        forall|e: int| d3 <= e < d ==> (#[trigger] range_shape(s, a, d1, e)) is None,
        range_shape(s, a, d1, d) is Some,
    ensures
        first_d3(s, a, d1, d3) == range_shape(s, a, d1, d),
    decreases d - d3,
{
    if d3 < d {
        assert(range_shape(s, a, d1, d3) is None);
        lemma_first_d3_at(s, a, d1, d3 + 1, d);
    }
}

pub proof fn lemma_first_d1_at(s: Seq<char>, a: int, d1: int, d: int)
    requires
        0 <= d1 <= d <= text::digit_run(s, a),
        forall|e: int| d1 <= e < d ==> (#[trigger] first_d3(s, a, e, 0)) is None,
        first_d3(s, a, d, 0) is Some,
    ensures
        first_d1(s, a, d1) == first_d3(s, a, d, 0),
    decreases d - d1,
{
    if d1 < d {
        assert(first_d3(s, a, d1, 0) is None);
        lemma_first_d1_at(s, a, d1 + 1, d);
    }
}

pub proof fn lemma_first_loc_bar_at(s: Seq<char>, p0: int, p: int)
    requires
        0 <= p0 <= p < s.len(),
        forall|j: int| p0 <= j < p ==> s[j] != '|',
        s[p] == '|',
        first_d1(s, p + 1, 0) is Some,
    ensures
        first_loc_bar(s, p0) == Some((p, first_d1(s, p + 1, 0)->0)),
    decreases p - p0,
{
    if p0 < p {
        lemma_first_loc_bar_at(s, p0 + 1, p);
    }
}

/// Where a line has the shape `name|digits.digits,digits.digits|rest` with no
/// `|` in the name, the name ends at the first `|` and the range part at the
/// `|` after the last digits.
#[verifier::spinoff_prover]
pub proof fn lemma_location_shape(s: Seq<char>, p: int, dot1: int, comma: int, dot2: int, q: int)
    requires
        0 <= p,
        p + 1 < dot1,
        dot1 + 1 < comma,
        comma + 1 < dot2,
        dot2 + 1 < q < s.len(),
        forall|j: int| 0 <= j < p ==> s[j] != '|',
        s[p] == '|',
        s[dot1] == '.',
        s[comma] == ',',
        s[dot2] == '.',
        s[q] == '|',
        forall|j: int| p < j < dot1 ==> text::is_digit(#[trigger] s[j]),
        forall|j: int| dot1 < j < comma ==> text::is_digit(#[trigger] s[j]),
        forall|j: int| comma < j < dot2 ==> text::is_digit(#[trigger] s[j]),
        forall|j: int| dot2 < j < q ==> text::is_digit(#[trigger] s[j]),
    ensures
        first_loc_bar(s, 0) == Some((p, q)),
{
    let a = p + 1;
    assert forall|k: int| a <= k <= dot1 implies #[trigger] text::digit_run(s, k) == dot1 - k by {
        text::lemma_digit_run_exact(s, k, dot1 - k);
    }
    assert forall|k: int| dot1 + 1 <= k <= comma implies #[trigger] text::digit_run(s, k) == comma
        - k by {
        text::lemma_digit_run_exact(s, k, comma - k);
    }
    assert forall|k: int| comma + 1 <= k <= dot2 implies #[trigger] text::digit_run(s, k) == dot2
        - k by {
        text::lemma_digit_run_exact(s, k, dot2 - k);
    }
    assert forall|k: int| dot2 + 1 <= k <= q implies #[trigger] text::digit_run(s, k) == q - k by {
        text::lemma_digit_run_exact(s, k, q - k);
    }
    assert forall|e: int| 0 <= e < dot1 - a implies (#[trigger] first_d3(s, a, e, 0)) is None by {
        assert(text::digit_run(s, a + e + 1) == dot1 - (a + e + 1));
        assert forall|f: int| 0 <= f implies range_shape(s, a, e, f) is None by {}
        lemma_first_d3_none(s, a, e, 0);
    }
    let d1 = dot1 - a;
    assert(text::digit_run(s, dot1 + 1) == comma - (dot1 + 1));
    assert(comma_of(s, a, d1) == comma);
    assert forall|e: int| 0 <= e < dot2 - comma - 1 implies (#[trigger] range_shape(s, a, d1, e))
        is None by {
        assert(text::digit_run(s, comma + 1 + e + 1) == dot2 - (comma + 1 + e + 1));
    }
    assert(text::digit_run(s, dot2 + 1) == q - (dot2 + 1));
    assert(range_shape(s, a, d1, dot2 - comma - 1) == Some(q));
    lemma_first_d3_at(s, a, d1, 0, dot2 - comma - 1);
    lemma_first_d1_at(s, a, 0, d1);
    lemma_first_loc_bar_at(s, 0, p);
}

/// Reading a location that `Location::to_string` wrote gives it back, where
/// its buffer name holds no `|` and neither name nor preview a line end.
#[verifier::spinoff_prover]
pub proof fn lemma_location_round_trip(l: LocModel)
    requires
        !l.0.contains('|'),
        !l.0.contains('\n'),
        !l.2.contains('\n'),
    ensures
        parse_location(location_text(l)) == Ok::<LocModel, LoliErr>(l),
{
    let s = location_text(l);
    let r = l.1;
    let l1 = text::decimal(r.start.line as nat);
    let c1 = text::decimal(r.start.column as nat);
    let l2 = text::decimal(r.end.line as nat);
    let c2 = text::decimal(r.end.column as nat);
    text::lemma_decimal(r.start.line as nat);
    text::lemma_decimal(r.start.column as nat);
    text::lemma_decimal(r.end.line as nat);
    text::lemma_decimal(r.end.column as nat);
    let rt = range_text(r);
    let p = l.0.len() as int;
    let dot1 = p + 1 + l1.len();
    let comma = dot1 + 1 + c1.len();
    let dot2 = comma + 1 + l2.len();
    let q = dot2 + 1 + c2.len();
    assert(rt =~= l1 + seq!['.'] + c1 + seq![','] + l2 + seq!['.'] + c2);
    assert(s.len() == q + 1 + l.2.len());
    assert forall|j: int| 0 <= j < p implies s[j] == l.0[j] by {}
    assert forall|j: int| 0 <= j < rt.len() implies s[p + 1 + j] == rt[j] by {}
    assert forall|j: int| 0 <= j < l.2.len() implies s[q + 1 + j] == l.2[j] by {}
    assert(s[p] == '|' && s[q] == '|');
    assert forall|j: int| 0 <= j < l1.len() implies rt[j] == l1[j] by {}
    assert forall|j: int| 0 <= j < c1.len() implies rt[l1.len() + 1 + j] == c1[j] by {}
    assert forall|j: int| 0 <= j < l2.len() implies rt[comma - p + j] == l2[j] by {}
    assert forall|j: int| 0 <= j < c2.len() implies rt[dot2 - p + j] == c2[j] by {}
    assert(rt[l1.len() as int] == '.' && rt[comma - p - 1] == ',' && rt[dot2 - p - 1] == '.');
    assert forall|j: int| 0 <= j < rt.len() implies rt[j] != '\n' && rt[j] != '|' by {
        if j < l1.len() {
            assert(text::is_digit(l1[j]));
        } else if l1.len() < j < comma - p - 1 {
            assert(text::is_digit(c1[j - l1.len() - 1]));
        } else if comma - p - 1 < j < dot2 - p - 1 {
            assert(text::is_digit(l2[j - (comma - p)]));
        } else if dot2 - p - 1 < j {
            assert(text::is_digit(c2[j - (dot2 - p)]));
        }
    }
    assert(!s.contains('\n')) by {
        if s.contains('\n') {
            let k = choose|k: int| 0 <= k < s.len() && s[k] == '\n';
            if k < p {
                assert(l.0[k] == '\n');
            } else if p < k < q {
                assert(rt[k - p - 1] == '\n');
            } else if k > q {
                assert(l.2[k - q - 1] == '\n');
            }
        }
    }
    assert forall|j: int| 0 <= j < p implies s[j] != '|' by {
        assert(s[j] == l.0[j]);
    }
    assert forall|j: int| p < j < dot1 implies text::is_digit(#[trigger] s[j]) by {
        assert(s[j] == rt[j - p - 1]);
        assert(rt[j - p - 1] == l1[j - p - 1]);
    }
    assert forall|j: int| dot1 < j < comma implies text::is_digit(#[trigger] s[j]) by {
        assert(s[j] == rt[j - p - 1]);
        assert(rt[j - p - 1] == c1[j - dot1 - 1]);
    }
    assert forall|j: int| comma < j < dot2 implies text::is_digit(#[trigger] s[j]) by {
        assert(s[j] == rt[j - p - 1]);
        assert(rt[j - p - 1] == l2[j - comma - 1]);
    }
    assert forall|j: int| dot2 < j < q implies text::is_digit(#[trigger] s[j]) by {
        assert(s[j] == rt[j - p - 1]);
        assert(rt[j - p - 1] == c2[j - dot2 - 1]);
    }
    assert(s[dot1] == rt[l1.len() as int]);
    assert(s[comma] == rt[comma - p - 1]);
    assert(s[dot2] == rt[dot2 - p - 1]);
    lemma_location_shape(s, p, dot1, comma, dot2, q);
    assert(s.subrange(p + 1, q) =~= rt);
    lemma_range_round_trip(r);
    assert(s.take(p) =~= l.0);
    assert(s.subrange(q + 1, s.len() as int) =~= l.2);
}

} // verus!
