use itertools::Itertools;
use loli::context::Context;
use loli::location_list::{LocationList, LocationListErr, Lists};
use loli::types::{Highlighter, HighlighterScope, KakounePosition, KakouneRange, Location};

#[test]
fn test_range() {
    assert!(LocationList::from_str_list(
        "foo",
        "'src/main.rs|1.5,1.7|lorem ipsum dolor sit amet' 'src/foo|rs|1.5,1.7|LOREM IPSUM DOLOR SIT AMET'"
    )
    .is_ok());

    let mut list = Vec::new();
    for _ in 1..1000 {
        list.push("'colors/one-darker.kak|11.1,11.4|decl -hidden str fg \"abb2bf\"'")
    }
    let list_str = list.iter().join(" ");

    let list = LocationList::from_str_list("foo", &list_str).unwrap();
}

fn range(sl: u32, sc: u32, el: u32, ec: u32) -> KakouneRange {
    KakouneRange {
        start: KakounePosition { line: sl, column: sc },
        end: KakounePosition { line: el, column: ec },
    }
}

fn location(filename: &str, r: KakouneRange, preview: &str) -> Location {
    Location { filename: filename.to_string(), range: r, preview: preview.to_string() }
}

fn list_of(name: &str, locations: Vec<Location>) -> LocationList {
    LocationList { highlighters: Vec::new(), index: 0, locations, name: name.to_string() }
}

fn context(client: Option<&str>, timestamp: Option<usize>) -> Context {
    Context {
        client: client.map(|c| c.to_string()),
        input_fifo: "/tmp/in".to_string(),
        output_fifo: "/tmp/out".to_string(),
        output_fifo_str: "/tmp/out".to_string(),
        store: "/tmp/store".to_string(),
        list_key: client.unwrap_or("global").to_string(),
        timestamp,
    }
}

#[test]
fn str_list_reads_every_entry() {
    let list = LocationList::from_str_list(
        "foo",
        "'src/main.rs|1.5,1.7|lorem ipsum' 'src/foo|rs|2.3,4.15|LOREM'",
    )
    .unwrap();
    assert_eq!(list.name, "foo");
    assert_eq!(list.index, 0);
    assert!(list.highlighters.is_empty());
    assert_eq!(list.locations.len(), 2);
    assert_eq!(list.locations[0].filename, "src/main.rs");
    assert_eq!(list.locations[0].range, range(1, 5, 1, 7));
    assert_eq!(list.locations[0].preview, "lorem ipsum");
    assert_eq!(list.locations[1].filename, "src/foo|rs");
    assert_eq!(list.locations[1].range, range(2, 3, 4, 15));
    assert_eq!(list.locations[1].preview, "LOREM");
}

#[test]
fn str_list_of_many_entries() {
    let entry = "'colors/one-darker.kak|11.1,11.4|decl -hidden str fg \"abb2bf\"'";
    let input = vec![entry; 999].join(" ");
    let list = LocationList::from_str_list("foo", &input).unwrap();
    assert_eq!(list.locations.len(), 999);
    assert_eq!(list.locations[998].filename, "colors/one-darker.kak");
    assert_eq!(list.locations[998].range, range(11, 1, 11, 4));
    assert_eq!(list.locations[998].preview, "decl -hidden str fg \"abb2bf\"");
}

#[test]
fn str_list_skips_what_is_no_entry() {
    let list = LocationList::from_str_list("l", "junk 'a.rs|x.1,2.3|no' 'b.rs|1.2,3.4|yes'").unwrap();
    // The first quote starts an entry whose file name runs up to the `|` that
    // the range follows.
    assert_eq!(list.locations.len(), 1);
    assert_eq!(list.locations[0].filename, "a.rs|x.1,2.3|no' 'b.rs");
    assert_eq!(list.locations[0].range, range(1, 2, 3, 4));
    assert_eq!(list.locations[0].preview, "yes");

    let empty = LocationList::from_str_list("l", "").unwrap();
    assert!(empty.locations.is_empty());
    let none = LocationList::from_str_list("l", "'a|1.2,3.4|no end").unwrap();
    assert!(none.locations.is_empty());
    let broken_line = LocationList::from_str_list("l", "'a\nb|1.2,3.4|x'").unwrap();
    assert!(broken_line.locations.is_empty());
}

#[test]
fn str_list_rejects_too_large_numbers() {
    let r = LocationList::from_str_list("l", "'a|4294967296.1,1.1|x'");
    assert_eq!(r.unwrap_err(), LocationListErr::InvalidRange);
    let ok = LocationList::from_str_list("l", "'a|4294967295.1,1.1|x'").unwrap();
    assert_eq!(ok.locations[0].range, range(4294967295, 1, 1, 1));
}

#[test]
fn str_list_rejects_digits_other_than_ascii() {
    let r = LocationList::from_str_list("n", "'|\u{663}.1,1.1|'");
    assert_eq!(r.unwrap_err(), LocationListErr::InvalidRange);
    let r = LocationList::from_str_list("n", "'a|1.1,1.1|x' 'b|2.\u{ff12},1.1|y'");
    assert_eq!(r.unwrap_err(), LocationListErr::InvalidRange);
}

#[test]
fn grep_rejects_digits_other_than_ascii() {
    assert_eq!(
        LocationList::from_grep("n", "a:1:\u{663}".to_string()).unwrap_err(),
        LocationListErr::InvalidGrepFmt
    );
    assert_eq!(
        LocationList::from_grep("n", "a:\u{966}:x".to_string()).unwrap_err(),
        LocationListErr::InvalidGrepFmt
    );
    let list = LocationList::from_grep("n", "a:1:b\u{663}".to_string()).unwrap();
    assert_eq!(list.locations[0].range, range(1, 1, 1, 1));
    assert_eq!(list.locations[0].preview, "b\u{663}");
}

#[test]
fn grep_reads_lines_with_and_without_columns() {
    let input = "src/a.rs:12:5:fn main() {\nsrc/b.rs:3:  let x = 1;  \r\nfile:with:colon:7:x\n".to_string();
    let list = LocationList::from_grep("grep", input).unwrap();
    assert_eq!(list.name, "grep");
    assert_eq!(list.locations.len(), 3);
    assert_eq!(list.locations[0].filename, "src/a.rs");
    assert_eq!(list.locations[0].range, range(12, 5, 12, 5));
    assert_eq!(list.locations[0].preview, "fn main() {");
    assert_eq!(list.locations[1].filename, "src/b.rs");
    assert_eq!(list.locations[1].range, range(3, 1, 3, 1));
    assert_eq!(list.locations[1].preview, "let x = 1;");
    assert_eq!(list.locations[2].filename, "file:with:colon");
    assert_eq!(list.locations[2].range, range(7, 1, 7, 1));
    assert_eq!(list.locations[2].preview, "x");
}

#[test]
fn grep_column_then_colon_is_optional() {
    let list = LocationList::from_grep("g", "a:1:22text".to_string()).unwrap();
    assert_eq!(list.locations[0].range, range(1, 22, 1, 22));
    assert_eq!(list.locations[0].preview, "text");
    let list = LocationList::from_grep("g", "a:1::\t text\u{3000}".to_string()).unwrap();
    assert_eq!(list.locations[0].range, range(1, 1, 1, 1));
    assert_eq!(list.locations[0].preview, "text");
}

#[test]
fn grep_of_nothing_is_an_empty_list() {
    let list = LocationList::from_grep("g", String::new()).unwrap();
    assert!(list.locations.is_empty());
}

#[test]
fn grep_rejects_bad_lines() {
    assert_eq!(
        LocationList::from_grep("g", "a:1:x\nno line number\n".to_string()).unwrap_err(),
        LocationListErr::InvalidGrepFmt
    );
    assert_eq!(
        LocationList::from_grep("g", "a:99999999999:x".to_string()).unwrap_err(),
        LocationListErr::InvalidGrepFmt
    );
    assert_eq!(
        LocationList::from_grep("g", "a:1:99999999999:x".to_string()).unwrap_err(),
        LocationListErr::InvalidGrepFmt
    );
    assert_eq!(
        LocationList::from_grep("g", "a:1:x\n\nb:2:y".to_string()).unwrap_err(),
        LocationListErr::InvalidGrepFmt
    );
}

#[test]
fn gen_ranges_groups_by_file() {
    let list = list_of(
        "global",
        vec![
            location("src/a.rs", range(1, 2, 1, 5), "one"),
            location("src/b.rs", range(3, 1, 3, 4), "two"),
            location("src/a.rs", range(7, 1, 7, 9), "three"),
        ],
    );
    let script = list.gen_ranges(&context(None, Some(42)));
    let pad = "\n                        ";
    let expected = [
        format!(
            "decl range-specs loli_global_srcars_highlight{pad}set global loli_global_srcars_highlight 42 '1.2,1.5|loli_highlight' '7.1,7.9|loli_highlight'"
        ),
        format!(
            "decl range-specs loli_global_srcars_indices{pad}set global loli_global_srcars_indices 42 '1.2,1.5|0' '7.1,7.9|2'"
        ),
        format!(
            "decl range-specs loli_global_srcbrs_highlight{pad}set global loli_global_srcbrs_highlight 42 '3.1,3.4|loli_highlight'"
        ),
        format!(
            "decl range-specs loli_global_srcbrs_indices{pad}set global loli_global_srcbrs_indices 42 '3.1,3.4|1'"
        ),
    ]
    .join("\n");
    assert_eq!(script, expected);
    assert_eq!(list_of("x", vec![]).gen_ranges(&context(None, Some(1))), "");
    assert_eq!(list_of("x", vec![]).gen_ranges(&context(None, None)), "");
}

#[test]
fn file_names_drop_repeats_in_a_row() {
    let list = list_of(
        "global",
        vec![
            location("a.rs", range(1, 1, 1, 1), ""),
            location("a.rs", range(2, 1, 2, 1), ""),
            location("b.rs", range(1, 1, 1, 1), ""),
            location("a.rs", range(3, 1, 3, 1), ""),
        ],
    );
    assert_eq!(list.file_names(), vec!["ars", "brs", "ars"]);
}

#[test]
fn highlight_all_shows_the_shared_list() {
    let mut list = list_of(
        "global",
        vec![location("src/a.rs", range(1, 1, 1, 1), ""), location("src/a.rs", range(2, 1, 2, 1), "")],
    );
    let buffers = vec!["src/a.rs".to_string(), "other".to_string(), "src/a.rs".to_string()];
    let commands = list.highlight_all(&buffers);
    let command = "eval -save-regs a -draft %{\n                    exec '\"aZ'\n                    edit src/a.rs\n                    add-highlighter -override buffer/ ranges loli_global_srcars_highlight\n                    add-highlighter -override buffer/ ranges loli_global_srcars_indices\n                    exec '\"az'\n                }";
    assert_eq!(commands, vec![command.to_string(), command.to_string()]);
    assert_eq!(list.highlighters.len(), 1);
    assert_eq!(list.highlighters[0].filename, "src/a.rs");
    assert_eq!(list.highlighters[0].scope, HighlighterScope::Buffer);

    let mut other = list_of("client0", vec![location("src/a.rs", range(1, 1, 1, 1), "")]);
    assert!(other.highlight_all(&buffers).is_empty());
    assert!(other.highlighters.is_empty());
}

#[test]
fn purge_removes_each_highlighter() {
    let mut list = list_of("global", vec![]);
    list.highlighters.push(Highlighter::new("src/a.rs", HighlighterScope::Buffer));
    list.highlighters.push(Highlighter::new("b", HighlighterScope::Window));
    let expected = "evaluate-commands -save-regs a -draft %{\n                edit src/a.rs\n            remove-highlighter buffer/ranges_loli_global_srcars\nedit b\n            remove-highlighter window/ranges_loli_global_b\n            }";
    assert_eq!(list.purge_highlighters(), expected);
}

#[test]
fn navigate_stops_at_the_last_location() {
    let mut list = list_of(
        "l",
        vec![location("a.rs", range(3, 4, 3, 4), ""), location("b.rs", range(5, 6, 5, 9), "")],
    );
    assert_eq!(list.navigate(0), "edit a.rs 3 4");
    assert_eq!(list.index, 0);
    assert_eq!(list.navigate(7), "edit b.rs 5 6");
    assert_eq!(list.index, 1);
}

#[test]
fn lists_insert_get_and_clear() {
    let ctx = context(None, Some(9));
    let mut lists = Lists::new("/tmp/store");
    assert_eq!(lists.path, "/tmp/store");
    assert!(lists.get(&ctx).is_none());

    let first = list_of("global", vec![location("a.rs", range(1, 1, 1, 2), "x")]);
    let buffers = vec!["a.rs".to_string()];
    let insertion = lists.insert(first, &ctx, &buffers);
    assert!(insertion.purge.is_none());
    assert_eq!(
        insertion.ranges,
        "decl range-specs loli_global_ars_highlight\n                        set global loli_global_ars_highlight 9 '1.1,1.2|loli_highlight'\ndecl range-specs loli_global_ars_indices\n                        set global loli_global_ars_indices 9 '1.1,1.2|0'"
    );
    assert_eq!(insertion.highlights.len(), 1);
    let got = lists.get(&ctx).unwrap();
    assert_eq!(got.locations.len(), 1);
    assert_eq!(got.highlighters.len(), 1);

    let second = list_of("global", vec![]);
    let insertion = lists.insert(second, &ctx, &buffers);
    assert_eq!(
        insertion.purge.unwrap(),
        "evaluate-commands -save-regs a -draft %{\n                edit a.rs\n            remove-highlighter buffer/ranges_loli_global_ars\n            }"
    );
    assert_eq!(lists.lists.len(), 1);
    assert!(lists.get(&ctx).unwrap().locations.is_empty());

    let other = list_of("client0", vec![]);
    lists.insert(other, &ctx, &buffers);
    assert_eq!(lists.lists.len(), 1);
    assert_eq!(lists.lists[0].name, "client0");

    let client_ctx = context(Some("client0"), Some(1));
    assert!(lists.get(&client_ctx).is_some());
    assert!(lists.clear(&client_ctx).is_some());
    assert!(lists.lists.is_empty());
    assert!(lists.clear(&client_ctx).is_none());
}

#[test]
fn lists_get_mut_changes_the_list() {
    let ctx = context(Some("c"), Some(1));
    let mut lists = Lists::new("p");
    lists.insert(list_of("c", vec![location("a", range(1, 1, 1, 1), "")]), &ctx, &vec![]);
    lists.get_mut(&ctx).unwrap().index = 0;
    lists.get_mut(&ctx).unwrap().navigate(3);
    assert_eq!(lists.get(&ctx).unwrap().index, 0);
    assert!(lists.get_mut(&context(Some("d"), Some(1))).is_none());
}

#[test]
fn lists_highlight_buffer_and_window() {
    let ctx = context(Some("client0"), Some(1));
    let mut lists = Lists::new("p");
    lists.lists.push(list_of("global", vec![location("src/a.rs", range(1, 1, 1, 1), "")]));
    lists.lists.push(list_of("client0", vec![location("src/a.rs", range(2, 1, 2, 1), "")]));
    let commands = lists.highlight(&ctx, "src/a.rs");
    assert_eq!(
        commands,
        vec![
            "add-highlighter -override buffer/ ranges loli_global_srcars".to_string(),
            "add-highlighter -override window/ ranges loli_client0_srcars".to_string(),
        ]
    );
    assert_eq!(lists.lists[0].highlighters[0].scope, HighlighterScope::Buffer);
    assert_eq!(lists.lists[1].highlighters[0].scope, HighlighterScope::Window);
    // A second time changes no set of highlighters.
    lists.highlight(&ctx, "src/a.rs");
    assert_eq!(lists.lists[0].highlighters.len(), 1);
    assert_eq!(lists.lists[1].highlighters.len(), 1);
    assert!(lists.highlight(&ctx, "src/b.rs").is_empty());
}

#[test]
fn error_messages() {
    assert_eq!(LocationListErr::InvalidStrList.message(), "Invalid source list");
    assert_eq!(LocationListErr::InvalidRange.message(), "Invalid range in source list");
    assert_eq!(LocationListErr::InvalidGrepFmt.message(), "Invalid grep format");
}
