use loli::location_list::LocationListErr;
use loli::types::{Highlighter, HighlighterScope, KakounePosition, KakouneRange};
use loli::util::{editor_escape, strip_an, DEFAULT_NAME};

#[test]
fn position_reads_and_writes() {
    let p = KakounePosition::from_str("12.34").unwrap();
    assert_eq!(p, KakounePosition { line: 12, column: 34 });
    assert_eq!(p.to_string(), "12.34");
    assert_eq!(KakounePosition::from_str(&p.to_string()).unwrap(), p);
    assert_eq!(KakounePosition::from_str("+1.+2").unwrap(), KakounePosition { line: 1, column: 2 });
    assert_eq!(KakounePosition::from_str("12").unwrap_err(), LocationListErr::InvalidRange);
    assert_eq!(KakounePosition::from_str(".3").unwrap_err(), LocationListErr::InvalidRange);
    assert_eq!(KakounePosition::from_str("1.2.3").unwrap_err(), LocationListErr::InvalidRange);
    assert_eq!(KakounePosition::from_str("-1.2").unwrap_err(), LocationListErr::InvalidRange);
    assert_eq!(
        KakounePosition::from_str("4294967296.1").unwrap_err(),
        LocationListErr::InvalidRange
    );
}

#[test]
fn range_reads_and_writes() {
    let r = KakouneRange::from_str("1.2,3.4").unwrap();
    assert_eq!(r.start, KakounePosition { line: 1, column: 2 });
    assert_eq!(r.end, KakounePosition { line: 3, column: 4 });
    assert_eq!(r.to_string(), "1.2,3.4");
    let big = KakouneRange {
        start: KakounePosition { line: 4294967295, column: 0 },
        end: KakounePosition { line: 10, column: 100 },
    };
    assert_eq!(KakouneRange::from_str(&big.to_string()).unwrap(), big);
    assert_eq!(KakouneRange::from_str("1.2").unwrap_err(), LocationListErr::InvalidRange);
    assert_eq!(KakouneRange::from_str("1.2,3").unwrap_err(), LocationListErr::InvalidRange);
}

#[test]
fn range_from_parts() {
    let r = KakouneRange::from_parts("1", "2", "3", "4").unwrap();
    assert_eq!(r.to_string(), "1.2,3.4");
    assert_eq!(KakouneRange::from_parts("1", "", "3", "4").unwrap_err(), LocationListErr::InvalidRange);
    assert_eq!(KakouneRange::from_parts("1", "2", "x", "4").unwrap_err(), LocationListErr::InvalidRange);
    assert_eq!(
        KakouneRange::from_parts("1", "2", "3", "4294967296").unwrap_err(),
        LocationListErr::InvalidRange
    );
}

#[test]
fn highlighter_removal_command() {
    let h = Highlighter::new("src/main.rs", HighlighterScope::Window);
    assert_eq!(h.filename, "src/main.rs");
    assert_eq!(
        h.gen_removal("global"),
        "edit src/main.rs\n            remove-highlighter window/ranges_loli_global_srcmainrs"
    );
    assert_eq!(HighlighterScope::Buffer.as_str(), "buffer");
    assert_eq!(HighlighterScope::Window.as_str(), "window");
    assert!(h.same(&Highlighter::new("src/main.rs", HighlighterScope::Window)));
    assert!(!h.same(&Highlighter::new("src/main.rs", HighlighterScope::Buffer)));
}

#[test]
fn escape_doubles_quotes() {
    assert_eq!(editor_escape("it's 'quoted'"), "it''s ''quoted''");
    assert_eq!(editor_escape(""), "");
}

#[test]
fn strip_keeps_alphanumerics() {
    assert_eq!(strip_an("src/main.rs"), "srcmainrs");
    assert_eq!(strip_an("é_1-Ⅻ x"), "é1Ⅻx");
    assert_eq!(strip_an("--"), "");
    assert_eq!(DEFAULT_NAME, "global");
}
