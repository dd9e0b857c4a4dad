use vstd::prelude::*;

use crate::text;
use crate::text::split_str;
use crate::util::{strip_an, DEFAULT_NAME};

verus! {

/// The characters of an optional string.
pub open spec fn opt_view(o: Option<String>) -> Option<Seq<char>> {
    match o {
        Some(s) => Some(s@),
        None => None,
    }
}

pub fn clone_opt_string(o: &Option<String>) -> (r: Option<String>)
    ensures
        opt_view(r) == opt_view(*o),
{
    match o {
        Some(s) => Some(s.clone()),
        None => None,
    }
}

/// What the program was started with.
#[derive(Debug)]
pub struct App {
    pub session: String,
    pub client: Option<String>,
    pub input_fifo: Option<String>,
    pub output_fifo: Option<String>,
    pub timestamp: Option<usize>,
}

/// Why a context could not be made.
#[derive(Clone, Copy, Debug, PartialEq, Eq, Structural)]
pub enum ContextError {
    InvalidOutputFifo,
    MissingFifos,
}

impl ContextError {
    /// The message of the error.
    pub fn message(&self) -> (r: &'static str)
        ensures
            r@ == match self {
                ContextError::InvalidOutputFifo => "Invalid output FIFO path"@,
                ContextError::MissingFifos => "Missing one or both FIFOs"@,
            },
    {
        match self {
            ContextError::InvalidOutputFifo => "Invalid output FIFO path",
            ContextError::MissingFifos => "Missing one or both FIFOs",
        }
    }
}

/// How to talk to the editor session: its FIFOs, the client (if any), the
/// store file, and the key of the client's list.
#[derive(Debug)]
pub struct Context {
    pub client: Option<String>,
    pub input_fifo: String,
    pub output_fifo: String,
    pub output_fifo_str: String,
    pub store: String,
    pub list_key: String,
    pub timestamp: Option<usize>,
}

/// The key of the list of a client: the client's name, or the shared list's.
pub open spec fn list_key_of(client: Option<Seq<char>>) -> Seq<char> {
    match client {
        Some(c) => c,
        None => DEFAULT_NAME@,
    }
}

/// `add-highlighter` for the list `key` on `buffer`, at buffer or window level.
pub open spec fn add_highlighters_command(key: Seq<char>, buffer: Seq<char>, is_global: bool) -> Seq<
    char,
> {
    "add-highlighter -override "@ + (if is_global {
        "buffer"@
    } else {
        "window"@
    }) + "/ ranges loli_"@ + key + "_"@ + text::keep_alphanumeric(buffer)
}

/// The script that writes the value `$kak_quoted_<prefix><name>` to the output FIFO.
pub open spec fn echo_command(fifo: Seq<char>, prefix: Seq<char>, name: Seq<char>) -> Seq<char> {
    "echo -to-file "@ + fifo + " %sh{\n                    echo $kak_quoted_"@ + prefix + name
        + "\n                }"@
}

/// A quoted list as the editor writes it, `'a' 'b' 'c'`, read back: the first
/// and last characters dropped, the rest split at each `' '`. No response
/// reads as the empty string.
pub open spec fn quoted_list(response: Option<Seq<char>>) -> Seq<Seq<char>> {
    let s = match response {
        Some(s) => s,
        None => Seq::empty(),
    };
    let inner = if s.len() <= 1 {
        Seq::<char>::empty()
    } else {
        s.subrange(1, s.len() - 1)
    };
    text::split(inner, "' '"@)
}

fn read_quoted_list(response: &Option<String>) -> (r: Vec<String>)
    ensures
        text::views(r@) == quoted_list(opt_view(*response)),
{
    let s = match response {
        Some(s) => s.clone(),
        None => String::new(),
    };
    let v = text::chars_of(s.as_str());
    let inner = if v.len() <= 1 {
        String::new()
    } else {
        text::string_of(&v, 1, v.len() - 1)
    };
    let sep = "' '";
    proof {
        reveal_strlit("' '");
    }
    split_str(inner.as_str(), sep)
}

impl Context {
    /// Makes the context of a run: both FIFOs are needed.
    pub fn new(app: &App, store: &str) -> (r: Result<Context, ContextError>)
        ensures
            match (opt_view(app.input_fifo), opt_view(app.output_fifo)) {
                (Some(input), Some(output)) => r matches Ok(ctx) && ctx.input_fifo@ == input
                    && ctx.output_fifo@ == output && ctx.output_fifo_str@ == output
                    && ctx.store@ == store@ && opt_view(ctx.client) == opt_view(app.client)
                    && ctx.list_key@ == list_key_of(opt_view(app.client)) && ctx.timestamp
                    == app.timestamp,
                _ => r matches Err(e) && e == ContextError::MissingFifos,
            },
    {
        match (&app.input_fifo, &app.output_fifo) {
            (Some(input_fifo), Some(output_fifo)) => {
                let list_key = match &app.client {
                    Some(client) => client.clone(),
                    None => String::from_str(DEFAULT_NAME),
                };
                Ok(
                    Context {
                        client: clone_opt_string(&app.client),
                        input_fifo: input_fifo.clone(),
                        output_fifo: output_fifo.clone(),
                        output_fifo_str: output_fifo.clone(),
                        store: String::from_str(store),
                        list_key,
                        timestamp: app.timestamp,
                    },
                )
            },
            _ => Err(ContextError::MissingFifos),
        }
    }

    /// The command that shows the ranges of list `key` on `buffer`, at buffer
    /// level when `is_global`, else at window level.
    pub fn add_highlighters(&self, key: &str, buffer: &str, is_global: bool) -> (r: String)
        ensures
            r@ == add_highlighters_command(key@, buffer@, is_global),
    {
        let mut r = String::new();
        r.append("add-highlighter -override ");
        if is_global {
            r.append("buffer");
        } else {
            r.append("window");
        }
        r.append("/ ranges loli_");
        r.append(key);
        r.append("_");
        let stripped = strip_an(buffer);
        r.append(stripped.as_str());
        r
    }

    /// The script that makes the editor write the value `name` to the output FIFO.
    pub fn get_value(&self, name: &str) -> (r: String)
        ensures
            r@ == echo_command(self.output_fifo_str@, Seq::empty(), name@),
    {
        let mut r = String::new();
        r.append("echo -to-file ");
        r.append(self.output_fifo_str.as_str());
        r.append(" %sh{\n                    echo $kak_quoted_");
        r.append(name);
        r.append("\n                }");
        assert(r@ =~= echo_command(self.output_fifo_str@, Seq::empty(), name@));
        r
    }

    /// The script that makes the editor write the option `name` to the output FIFO.
    pub fn get_option(&self, name: &str) -> (r: String)
        ensures
            r@ == echo_command(self.output_fifo_str@, "opt_"@, name@),
    {
        let mut r = String::new();
        r.append("echo -to-file ");
        r.append(self.output_fifo_str.as_str());
        r.append(" %sh{\n                    echo $kak_quoted_");
        r.append("opt_");
        r.append(name);
        r.append("\n                }");
        r
    }

    /// Reads the editor's answer to `get_value` as a list of strings.
    pub fn get_str_list(&self, response: &Option<String>) -> (r: Vec<String>)
        ensures
            text::views(r@) == quoted_list(opt_view(*response)),
    {
        read_quoted_list(response)
    }

    /// Reads the editor's answer to `get_option` as a list of strings.
    pub fn get_str_list_option(&self, response: &Option<String>) -> (r: Vec<String>)
        ensures
            text::views(r@) == quoted_list(opt_view(*response)),
    {
        read_quoted_list(response)
    }
}


/// Reading back a list that the editor quoted, `'a' 'b' 'c'`, gives its
/// items, where no item holds a `'`.
pub proof fn lemma_quoted_list_round_trip(items: Seq<Seq<char>>)
    requires
        items.len() >= 1,
        forall|i: int| 0 <= i < items.len() ==> !(#[trigger] items[i]).contains('\''),
    ensures
        quoted_list(Some(seq!['\''] + text::join(items, "' '"@) + seq!['\''])) == items,
{
    let j = text::join(items, "' '"@);
    let s = seq!['\''] + j + seq!['\''];
    assert(s.subrange(1, s.len() - 1) =~= j);
    reveal_strlit("' '");
    text::lemma_split_join(items, "' '"@, '\'');
}
} // verus!
