//! The parsers of the library against the patterns they implement, run by the
//! `regex` crate on many generated inputs.

use loli::cli::Location as CliLocation;
use loli::location_list::LocationList;
use regex::Regex;

struct Gen(u64);

impl Gen {
    fn next(&mut self) -> u64 {
        self.0 = self.0.wrapping_mul(6364136223846793005).wrapping_add(1442695040888963407);
        self.0 >> 33
    }

    fn text(&mut self, alphabet: &[&str], max_len: u64) -> String {
        let len = self.next() % (max_len + 1);
        (0..len).map(|_| alphabet[(self.next() % alphabet.len() as u64) as usize]).collect()
    }
}

type Entry = (String, [u32; 4], String);

fn pattern_str_list(regex: &Regex, input: &str) -> Result<Vec<Entry>, ()> {
    let mut out = Vec::new();
    for captures in regex.captures_iter(input) {
        let c: Vec<&str> = captures.iter().skip(1).map(|m| m.unwrap().as_str()).collect();
        let n = |s: &str| s.parse::<u32>().map_err(|_| ());
        out.push((c[0].to_string(), [n(c[1])?, n(c[2])?, n(c[3])?, n(c[4])?], c[5].to_string()));
    }
    Ok(out)
}

fn library_entries(list: &LocationList) -> Vec<Entry> {
    list.locations
        .iter()
        .map(|l| {
            (
                l.filename.clone(),
                [l.range.start.line, l.range.start.column, l.range.end.line, l.range.end.column],
                l.preview.clone(),
            )
        })
        .collect()
}

#[test]
fn str_list_follows_its_pattern() {
    let alphabet = ["'", "|", ".", ",", "1", "2", "0", "a", " ", "\n", "'x|1.2,3.4|p'", "99999999999", "\u{663}", "\u{966}"];
    let regex = Regex::new(r"'(.*?)\|(\d+)\.(\d+),(\d+)\.(\d+)\|(.*?)'").unwrap();
    let mut g = Gen(7);
    for _ in 0..5000 {
        let input = g.text(&alphabet, 24);
        let expected = pattern_str_list(&regex, &input);
        let got = LocationList::from_str_list("n", &input);
        match (expected, got) {
            (Ok(e), Ok(l)) => assert_eq!(e, library_entries(&l), "{:?}", input),
            (Err(()), Err(_)) => {}
            (e, l) => panic!("{:?}: {:?} {:?}", input, e, l.map(|l| library_entries(&l))),
        }
    }
}

fn pattern_grep(regex: &Regex, input: &str) -> Result<Vec<(String, u32, u32, String)>, ()> {
    let mut out = Vec::new();
    for line in input.lines() {
        let captures = regex.captures(line).ok_or(())?;
        let filename = captures.name("filename").unwrap().as_str();
        let line_number = captures.name("line").unwrap().as_str().parse::<u32>().map_err(|_| ())?;
        let column = match captures.name("column") {
            Some(c) => c.as_str().parse::<u32>().map_err(|_| ())?,
            None => 1,
        };
        let preview = captures.get(4).unwrap().as_str().trim();
        out.push((filename.to_string(), line_number, column, preview.to_string()));
    }
    Ok(out)
}

#[test]
fn grep_follows_its_pattern() {
    let alphabet = [":", "1", "2", "a", " ", "\n", "\r", "\t", "\u{a0}", "99999999999", "x:3:", "\u{663}", "\u{ff17}"];
    let regex =
        Regex::new(r"^(?P<filename>.*?):(?P<line>\d+):(?P<column>\d+)*:?(?P<preview>.*)$").unwrap();
    let mut g = Gen(11);
    for _ in 0..5000 {
        let input = g.text(&alphabet, 16);
        let expected = pattern_grep(&regex, &input);
        let got = LocationList::from_grep("n", input.clone());
        match (expected, got) {
            (Ok(e), Ok(l)) => {
                let lib: Vec<(String, u32, u32, String)> = l
                    .locations
                    .iter()
                    .map(|x| {
                        assert_eq!(x.range.start, x.range.end);
                        (x.filename.clone(), x.range.start.line, x.range.start.column, x.preview.clone())
                    })
                    .collect();
                assert_eq!(e, lib, "{:?}", input);
            }
            (Err(()), Err(_)) => {}
            (e, l) => panic!("{:?}: {:?} {:?}", input, e, l.is_ok()),
        }
    }
}

fn pattern_location(
    regex: &regex::bytes::Regex,
    s: &str,
) -> Result<(String, [usize; 4], String), &'static str> {
    let captures = regex.captures(s.as_bytes()).ok_or("location")?;
    let bufname = std::str::from_utf8(&captures[1]).map_err(|_| "range")?;
    let range = std::str::from_utf8(&captures[2]).map_err(|_| "range")?;
    let preview = std::str::from_utf8(&captures[3]).map_err(|_| "range")?;
    let (start, end) = range.split_once(',').ok_or("range")?;
    let position = |p: &str| -> Result<(usize, usize), &'static str> {
        let (l, c) = p.split_once('.').ok_or("range")?;
        Ok((l.parse::<usize>().map_err(|_| "range")?, c.parse::<usize>().map_err(|_| "range")?))
    };
    let (sl, sc) = position(start)?;
    let (el, ec) = position(end)?;
    Ok((bufname.to_string(), [sl, sc, el, ec], preview.to_string()))
}

#[test]
fn location_follows_its_pattern() {
    let alphabet = ["|", ".", ",", "1", "2", "3", "a", "\n", "é", "\u{663}", "\u{1d7ce}"];
    let regex = regex::bytes::Regex::new(r"^(.*?)\|(\d*?.\d*?,\d*?.\d*?)\|(.*)$").unwrap();
    let mut g = Gen(3);
    for _ in 0..10000 {
        let input = g.text(&alphabet, 14);
        let expected = pattern_location(&regex, &input);
        let got = CliLocation::from_str(&input);
        match (expected, got) {
            (Ok(e), Ok(l)) => {
                let r = l.range;
                assert_eq!(
                    e,
                    (l.bufname.clone(), [r.start.line, r.start.column, r.end.line, r.end.column], l.preview.clone()),
                    "{:?}",
                    input
                );
            }
            (Err("location"), Err(loli::cli::LoliErr::InvalidLocation)) => {}
            (Err("range"), Err(loli::cli::LoliErr::InvalidRange)) => {}
            (e, l) => panic!("{:?}: {:?} {:?}", input, e, l.map(|l| l.to_string())),
        }
    }
}
