use loli::cli::{
    parse_args, parse_list, update_list, ArgsError, Command, KakounePosition, KakouneRange,
    Location, LoliErr, UpdateError,
};

fn strings(v: &[&str]) -> Vec<String> {
    v.iter().map(|s| s.to_string()).collect()
}

#[test]
fn args_init_and_update_list() {
    assert!(matches!(parse_args(&strings(&["init"])), Ok(Command::Init)));
    let args = strings(&[
        "update-list", "--bufname", "src/a.rs", "--ranges", "1", "1.1,1.2|0", "--list", "a|1.1,1.1|x", "b",
    ]);
    match parse_args(&args) {
        Ok(Command::UpdateList { bufname, list, ranges }) => {
            assert_eq!(bufname, "src/a.rs");
            assert_eq!(ranges, strings(&["1", "1.1,1.2|0"]));
            assert_eq!(list, strings(&["a|1.1,1.1|x", "b"]));
        }
        other => panic!("{:?}", other),
    }
}

#[test]
fn args_errors() {
    assert!(matches!(parse_args(&vec![]), Err(ArgsError::MissingSubcommand)));
    assert!(matches!(parse_args(&strings(&["update-list", "--bufname"])), Err(ArgsError::MissingBufname)));
    match parse_args(&strings(&["frobnicate"])) {
        Err(e @ ArgsError::UnrecognizedSubcommand(_)) => {
            assert_eq!(e.message(), "Unrecognized subcommand: frobnicate")
        }
        other => panic!("{:?}", other),
    }
    assert_eq!(ArgsError::MissingSubcommand.message(), "Must pass a subcommand.");
    assert_eq!(ArgsError::MissingBufname.message(), "A bufname is required");
}

#[test]
fn list_runs_to_the_next_key() {
    let args = strings(&["--a", "x", "y", "--b", "z"]);
    assert_eq!(parse_list(&args, 0), (strings(&["x", "y"]), 3));
    assert_eq!(parse_list(&args, 3), (strings(&["z"]), 5));
    assert_eq!(parse_list(&args, 5), (strings(&[]), 5));
}

#[test]
fn location_reads_and_writes() {
    let l = Location::from_str("src/a.rs|12.3,12.9|let x|y = 1;").unwrap();
    assert_eq!(l.bufname, "src/a.rs");
    assert_eq!(
        l.range,
        KakouneRange {
            start: KakounePosition { line: 12, column: 3 },
            end: KakounePosition { line: 12, column: 9 }
        }
    );
    assert_eq!(l.preview, "let x|y = 1;");
    assert_eq!(l.to_string(), "src/a.rs|12.3,12.9|let x|y = 1;");
    let l = Location::from_str("a|b|1.2,3.4|").unwrap();
    assert_eq!(l.bufname, "a|b");
    assert_eq!(l.preview, "");
}

#[test]
fn location_errors() {
    assert_eq!(Location::from_str("no bars").unwrap_err(), LoliErr::InvalidLocation);
    assert_eq!(Location::from_str("a|1.2,3.4|x\ny").unwrap_err(), LoliErr::InvalidLocation);
    assert_eq!(Location::from_str("a|1x2,3.4|x").unwrap_err(), LoliErr::InvalidRange);
    assert_eq!(Location::from_str("a|.,.|x").unwrap_err(), LoliErr::InvalidRange);
    assert_eq!(LoliErr::InvalidLocation.message(), "Invalid location in list.");
    assert_eq!(LoliErr::InvalidRange.message(), "Invalid range.");
    assert_eq!(LoliErr::InvalidPosition.message(), "Invalid position.");
    assert_eq!(KakouneRange::from_str("1.2").unwrap_err(), LoliErr::InvalidRange);
    assert_eq!(KakounePosition::from_str("7.8").unwrap(), KakounePosition { line: 7, column: 8 });
}

#[test]
fn update_list_moves_the_tracked_ranges() {
    let list = strings(&["a.rs|1.1,1.2|x@y", "junk", "b.rs|3.1,3.2|z", "a.rs|5.1,5.2|w"]);
    let ranges = strings(&["123", "2.1,2.2|0", "6.1,6.2|2"]);
    assert_eq!(
        update_list("a.rs", &list, &ranges).unwrap(),
        "%@a.rs|2.1,2.2|x@@y@ %@b.rs|3.1,3.2|z@ %@a.rs|6.1,6.2|w@"
    );
    assert_eq!(update_list("c.rs", &list, &ranges).unwrap(), "%@a.rs|1.1,1.2|x@@y@ %@b.rs|3.1,3.2|z@ %@a.rs|5.1,5.2|w@");
    assert_eq!(update_list("a.rs", &vec![], &vec![]).unwrap(), "");
}

#[test]
fn locations_with_digits_other_than_ascii_are_dropped() {
    let bad = "f|\u{663}.1,1.1|g|1.1,1.1|p";
    assert_eq!(Location::from_str(bad).unwrap_err(), LoliErr::InvalidRange);
    let list = strings(&[bad, "f|1.1,1.1|q"]);
    let ranges = strings(&["123", "2.2,2.3|0"]);
    assert_eq!(update_list("f", &list, &ranges).unwrap(), "%@f|2.2,2.3|q@");
}

#[test]
fn update_list_errors() {
    let list = strings(&["a.rs|1.1,1.2|x", "a.rs|5.1,5.2|w"]);
    let e = update_list("a.rs", &list, &strings(&["123", "2.1,2.2|0"])).unwrap_err();
    assert_eq!(e, UpdateError::RangeAmountMismatch);
    assert_eq!(e.message(), "Range amount mismatch");
    let e = update_list("a.rs", &list, &strings(&["123", "2.1,2.2"])).unwrap_err();
    assert_eq!(e, UpdateError::InvalidRangeFormat);
    assert_eq!(e.message(), "Invalid range format");
    let e = update_list("a.rs", &list, &strings(&["123", "x|0", "1.1,1.1|1"])).unwrap_err();
    assert_eq!(e, UpdateError::InvalidRangeFormat);
}
