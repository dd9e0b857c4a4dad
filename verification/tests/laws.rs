//! The library's laws, each on concrete values.

use loli::cli;
use loli::context::Context;
use loli::location_list::{LocationList, Lists};
use loli::text::{parse_u32, push_decimal};
use loli::types::{HighlighterScope, KakounePosition, KakouneRange};
use loli::util::{editor_escape, strip_an};

fn range(sl: u32, sc: u32, el: u32, ec: u32) -> KakouneRange {
    KakouneRange {
        start: KakounePosition { line: sl, column: sc },
        end: KakounePosition { line: el, column: ec },
    }
}

#[test]
fn law_decimal_reads_back() {
    for n in [0u32, 7, 10, 65535, u32::MAX] {
        let mut s = String::new();
        push_decimal(&mut s, n as u64);
        assert_eq!(parse_u32(&s), Some(n));
    }
}

#[test]
fn law_range_reads_back() {
    for r in [range(1, 2, 3, 4), range(0, 0, 0, 0), range(u32::MAX, 10, 99, u32::MAX)] {
        assert_eq!(KakouneRange::from_str(&r.to_string()).unwrap(), r);
        assert_eq!(KakounePosition::from_str(&r.end.to_string()).unwrap(), r.end);
    }
}

#[test]
fn law_location_reads_back() {
    let l = cli::Location {
        bufname: "src/a b.rs".to_string(),
        range: cli::KakouneRange {
            start: cli::KakounePosition { line: 10, column: 2 },
            end: cli::KakounePosition { line: usize::MAX, column: 0 },
        },
        preview: "x | y @ 'z'".to_string(),
    };
    let back = cli::Location::from_str(&l.to_string()).unwrap();
    assert_eq!(back.bufname, l.bufname);
    assert_eq!(back.range, l.range);
    assert_eq!(back.preview, l.preview);
}

#[test]
fn law_quoted_list_reads_back() {
    let locations = [
        ("src/main.rs", range(1, 5, 1, 7), "fn main() { x | y }"),
        ("colors/one-darker.kak", range(11, 1, 11, 4), "decl -hidden str fg \"abb2bf\""),
        ("empty", range(0, 0, 0, 0), ""),
    ];
    let text = locations
        .iter()
        .map(|(f, r, p)| format!("'{}|{}|{}'", f, r.to_string(), p))
        .collect::<Vec<_>>()
        .join(" ");
    let list = LocationList::from_str_list("l", &text).unwrap();
    assert_eq!(list.locations.len(), locations.len());
    for (l, (f, r, p)) in list.locations.iter().zip(locations.iter()) {
        assert_eq!(&l.filename, f);
        assert_eq!(&l.range, r);
        assert_eq!(&l.preview, p);
    }
}

#[test]
fn law_escape_reads_back() {
    for s in ["it's", "''", "", "no quote", "'a'b'"] {
        let escaped = editor_escape(s);
        assert_eq!(escaped.replace("''", "'"), s);
    }
}

#[test]
fn law_escape_doubles_each_quote() {
    for s in ["it's", "''", "", "no quote", "'a'b'", "'''x"] {
        let escaped = editor_escape(s);
        assert_eq!(escaped.chars().count(), s.chars().count() + s.matches('\'').count());
        for run in escaped.split(|c| c != '\'') {
            assert_eq!(run.len() % 2, 0, "{:?}", escaped);
        }
        assert_eq!(escaped.chars().filter(|c| *c != '\'').collect::<String>(), s.replace('\'', ""));
    }
}

#[test]
fn law_strip_twice_is_strip_once() {
    for s in ["src/main.rs", "", "a_b-c", "\u{e9}t\u{e9} 2", "!!!", "x\u{663}y"] {
        let once = strip_an(s);
        assert_eq!(strip_an(&once), once);
        assert_eq!(once, s.chars().filter(|c| c.is_alphanumeric()).collect::<String>());
    }
}

#[test]
fn law_highlight_twice_is_highlight_once() {
    let mut lists = Lists::new("p");
    let ctx = context(Some("c"));
    lists.insert(named("global", &["f", "g"]), &context(None), &vec![]);
    lists.insert(named("c", &["f"]), &ctx, &vec![]);
    let first = lists.highlight(&ctx, "f");
    let after: Vec<(String, usize)> =
        lists.lists.iter().map(|l| (l.name.clone(), l.highlighters.len())).collect();
    let second = lists.highlight(&ctx, "f");
    let again: Vec<(String, usize)> =
        lists.lists.iter().map(|l| (l.name.clone(), l.highlighters.len())).collect();
    assert_eq!(first, second);
    assert_eq!(first.len(), 2);
    assert_eq!(after, again);
    assert_eq!(lists.get(&context(None)).unwrap().highlighters[0].scope, HighlighterScope::Buffer);
    assert_eq!(lists.get(&ctx).unwrap().highlighters[0].scope, HighlighterScope::Window);
}

fn context(client: Option<&str>) -> Context {
    Context {
        client: client.map(|c| c.to_string()),
        input_fifo: "i".to_string(),
        output_fifo: "o".to_string(),
        output_fifo_str: "o".to_string(),
        store: "s".to_string(),
        list_key: client.unwrap_or("global").to_string(),
        timestamp: Some(1),
    }
}

fn named(name: &str, files: &[&str]) -> LocationList {
    let text = files
        .iter()
        .map(|f| format!("'{}|1.1,1.2|p'", f))
        .collect::<Vec<_>>()
        .join(" ");
    LocationList::from_str_list(name, &text).unwrap()
}

#[test]
fn law_lists_read_what_was_stored() {
    let mut lists = Lists::new("p");
    let ctx_a = context(Some("a"));
    let ctx_b = context(Some("b"));
    lists.insert(named("a", &["x"]), &ctx_a, &vec![]);
    lists.insert(named("b", &["y", "z"]), &ctx_b, &vec![]);
    // Storing under one name leaves the other names as they were.
    assert_eq!(lists.get(&ctx_a).unwrap().locations[0].filename, "x");
    assert_eq!(lists.get(&ctx_b).unwrap().locations.len(), 2);
    lists.insert(named("a", &["w", "v", "u"]), &ctx_a, &vec![]);
    assert_eq!(lists.get(&ctx_a).unwrap().locations.len(), 3);
    assert_eq!(lists.get(&ctx_b).unwrap().locations.len(), 2);
    assert_eq!(lists.lists.len(), 2);
    // Clearing a name finds it no more and leaves the others.
    lists.clear(&ctx_a);
    assert!(lists.get(&ctx_a).is_none());
    assert_eq!(lists.get(&ctx_b).unwrap().locations.len(), 2);
}

#[test]
fn law_highlighters_form_a_set() {
    let mut lists = Lists::new("p");
    let ctx = context(Some("c"));
    lists.insert(named("c", &["f"]), &ctx, &vec![]);
    for _ in 0..3 {
        lists.highlight(&ctx, "f");
    }
    let list = lists.get(&ctx).unwrap();
    assert_eq!(list.highlighters.len(), 1);
    assert_eq!(list.highlighters[0].scope, HighlighterScope::Window);
}

#[test]
fn law_navigate_stays_in_the_list() {
    let mut list = named("n", &["a", "b", "c"]);
    for i in [0usize, 1, 2, 3, 100, usize::MAX] {
        list.navigate(i);
        assert_eq!(list.index, i.min(2));
    }
}

#[test]
fn law_quoted_editor_list_reads_back() {
    let ctx = context(None);
    let items = ["a b", "", "src/main.rs", "x|y"];
    let quoted = format!("'{}'", items.join("' '"));
    assert_eq!(ctx.get_str_list(&Some(quoted)), items.to_vec());
}
