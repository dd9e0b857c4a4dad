use vstd::prelude::*;
use crate::text;
use crate::text::{chars_of, is_alphanumeric, push_char};

verus! {

/// The name of the list that is shared by every client.
pub const DEFAULT_NAME: &'static str = "global";

/// Escapes a string for the inside of one of the editor's single-quoted
/// strings: each `'` becomes `''`.
pub fn editor_escape(s: &str) -> (r: String)
    ensures
        r@ == text::escape_quotes(s@),
{
    let v = chars_of(s);
    let mut r = String::new();
    let mut i: usize = 0;
    while i < v.len()
        invariant
            v@ == s@,
            i <= v.len(),
            r@ == text::escape_quotes(v@.subrange(0, i as int)),
        decreases v.len() - i,
    {
        proof {
            assert(v@.subrange(0, i + 1).drop_last() =~= v@.subrange(0, i as int));
        }
        if v[i] == '\'' {
            push_char(&mut r, '\'');
            push_char(&mut r, '\'');
            assert(r@ =~= text::escape_quotes(v@.subrange(0, i + 1)));
        } else {
            push_char(&mut r, v[i]);
            assert(r@ =~= text::escape_quotes(v@.subrange(0, i + 1)));
        }
        i = i + 1;
    }
    assert(v@.subrange(0, v@.len() as int) =~= s@);
    r
}

/// Strips a string of all non-alphanumeric characters.
pub fn strip_an(s: &str) -> (r: String)
    ensures
        r@ == text::keep_alphanumeric(s@),
{
    let v = chars_of(s);
    let mut r = String::new();
    let mut i: usize = 0;
    while i < v.len()
        invariant
            v@ == s@,
            i <= v.len(),
            r@ == text::keep_alphanumeric(v@.subrange(0, i as int)),
        decreases v.len() - i,
    {
        proof {
            assert(v@.subrange(0, i + 1).drop_last() =~= v@.subrange(0, i as int));
        }
        if is_alphanumeric(v[i]) {
            push_char(&mut r, v[i]);
        }
        assert(r@ =~= text::keep_alphanumeric(v@.subrange(0, i + 1)));
        i = i + 1;
    }
    assert(v@.subrange(0, v@.len() as int) =~= s@);
    r
}

/// `editor_escape` adds one character for each `'` of its input, and every
/// run of `'` in what it writes has an even length, so that the editor reads
/// each pair as one `'`.
pub proof fn lemma_editor_escape_shape(s: Seq<char>)
    ensures
        text::escape_quotes(s).len() == s.len() + text::count_char(s, '\''),
        text::runs_even(text::escape_quotes(s), '\''),
{
    text::lemma_doubled_len(s, '\'');
    text::lemma_doubled_runs_even(s, '\'');
}

/// Stripping twice is stripping once: `strip_an` keeps only alphanumeric
/// characters, and those it keeps all.
pub proof fn lemma_strip_an_idempotent(s: Seq<char>)
    ensures
        text::keep_alphanumeric(text::keep_alphanumeric(s)) == text::keep_alphanumeric(s),
{
    text::lemma_keep_alphanumeric_all(s);
    text::lemma_keep_alphanumeric_id(text::keep_alphanumeric(s));
}

} // verus!
