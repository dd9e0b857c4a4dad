# loli

Location lists for the Kakoune editor, as a library whose behaviour is stated
in contracts and proved with Verus, and a small command around it.

- `src/` is the verified library:
  - `text.rs`: characters, the Unicode decimal digits that `\d` matches,
    decimal numbers (`str::parse` and `Display` for unsigned integers), white space and `str::trim`, `str::split`,
    `str::lines`, and joining and de-duplicating through itertools;
  - `util.rs`: the shared list's name, escaping for the editor's quotes,
    stripping names to their alphanumeric characters;
  - `types.rs`: positions, ranges, locations and highlighters;
  - `location_list.rs`: reading grep's output and the editor's quoted list,
    the range-specs and highlighting commands of a list, and the lists of a
    session by name;
  - `context.rs`: the context of a run and the scripts that query the editor;
  - `cli.rs`: the command line, and rewriting the shared list after the
    editor tracked its ranges.
- `app/` is the program: arguments, standard output, the FIFOs to the editor,
  and the JSON store of a session.
- `tests/` holds the tests, among them comparisons of the parsers with the
  patterns they implement, run by the `regex` crate.
