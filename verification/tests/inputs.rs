use metrics_exporter_csv::long2wide::inputs::{
    contains_glob, expand_input, resolve_inputs, scan_dir_for_csvs, sort_and_dedup_paths, DirArg,
    DirEntry, InputArg, InputPath, Listing, Lookup, PathKind,
};
use metrics_exporter_csv::path::{FilePath, PathStyle};

fn path(text: &str) -> InputPath {
    let file = FilePath { bytes: text.as_bytes().to_vec(), style: PathStyle::Unix };
    InputPath { text: text.to_string(), file }
}

fn texts(paths: &[InputPath]) -> Vec<&str> {
    paths.iter().map(|path| path.text.as_str()).collect()
}

fn of_kind(kind: PathKind) -> Lookup {
    Lookup { matches: None, kind }
}

fn matching(matches: Vec<Option<InputPath>>) -> Lookup {
    Lookup { matches: Some(matches), kind: PathKind::Missing }
}

fn entry(text: &str, is_file: bool) -> DirEntry {
    DirEntry { path: path(text), is_file }
}

#[test]
fn patterns_are_told_by_their_characters() {
    for input in ["*", "a*", "b?.csv", "[ab]", "metrics*.csv"] {
        assert!(contains_glob(input), "{input}");
    }
    for input in ["", "a.csv", "a]b", "a/b"] {
        assert!(!contains_glob(input), "{input}");
    }
}

#[test]
fn paths_are_sorted_and_listed_once() {
    let mut paths = vec![path("b"), path("a"), path("b"), path("B"), path("a")];
    paths[0].file.bytes = vec![0xff];
    sort_and_dedup_paths(&mut paths);
    assert_eq!(texts(&paths), vec!["B", "a", "b"]);
    assert_eq!(paths[2].file.bytes, vec![0xff]);
    sort_and_dedup_paths(&mut paths);
    assert_eq!(texts(&paths), vec!["B", "a", "b"]);
}

#[test]
fn a_file_stands_for_itself() {
    let found = expand_input("a.csv", of_kind(PathKind::File(path("a.csv")))).ok().expect("found");
    assert_eq!(texts(&found), vec!["a.csv"]);
}

#[test]
fn a_pattern_stands_for_its_readable_matches() {
    let lookup = matching(vec![Some(path("b.csv")), None, Some(path("a.csv")), Some(path("b.csv"))]);
    let found = expand_input("*.csv", lookup).ok().expect("found");
    assert_eq!(texts(&found), vec!["a.csv", "b.csv"]);
}

#[test]
fn inputs_without_files_are_refused() {
    let message = |input: &str, lookup: Lookup| {
        expand_input(input, lookup).err().expect("refused").message()
    };
    assert_eq!(message("[", of_kind(PathKind::Missing)), "invalid glob pattern: [");
    assert_eq!(message("*.csv", matching(vec![])), "glob pattern matched no files: *.csv");
    assert_eq!(message("*.csv", matching(vec![None])), "glob pattern matched no files: *.csv");
    assert_eq!(
        message("dir", of_kind(PathKind::Directory)),
        "input 'dir' is a directory; use --input-dir instead"
    );
    assert_eq!(message("a.csv", of_kind(PathKind::Missing)), "input file does not exist: a.csv");
}

#[test]
fn directories_stand_for_their_csv_files() {
    let listing = Listing::Entries(vec![
        entry("d/b.csv", true),
        entry("d/c.csv", false),
        entry("d/a.csv", true),
        entry("d/a.txt", true),
        entry("d/.csv", true),
        entry("d/b.csv.1", true),
    ]);
    let found = scan_dir_for_csvs("d", listing).ok().expect("found");
    assert_eq!(texts(&found), vec!["d/a.csv", "d/b.csv"]);
}

#[test]
fn directories_without_files_are_refused() {
    let message =
        |listing: Listing| scan_dir_for_csvs("d", listing).err().expect("refused").message();
    assert_eq!(message(Listing::Unreadable), "read dir d");
    assert_eq!(message(Listing::Interrupted { cause: "torn".to_string() }), "torn");
    assert_eq!(
        message(Listing::Entries(vec![entry("d/a.txt", true)])),
        "no .csv files found in directory: d"
    );
}

#[test]
fn all_inputs_are_taken_together() {
    let args = || {
        vec![
            InputArg {
                input: "b.csv".to_string(),
                lookup: of_kind(PathKind::File(path("b.csv"))),
            },
            InputArg {
                input: "*.csv".to_string(),
                lookup: matching(vec![Some(path("b.csv")), Some(path("a.csv"))]),
            },
        ]
    };
    let dir = DirArg {
        dir: "d".to_string(),
        listing: Listing::Entries(vec![entry("a.csv", true), entry("0.csv", true)]),
    };
    let found = resolve_inputs(args(), Some(dir)).ok().expect("found");
    assert_eq!(texts(&found), vec!["0.csv", "a.csv", "b.csv"]);
    let found = resolve_inputs(args(), None).ok().expect("found");
    assert_eq!(texts(&found), vec!["a.csv", "b.csv"]);
}

#[test]
fn the_first_refusal_counts() {
    let error = resolve_inputs(vec![], None).err().expect("refused");
    assert_eq!(error.message(), "no input files provided (use --input or --input-dir)");
    let args = vec![
        InputArg { input: "a".to_string(), lookup: of_kind(PathKind::Missing) },
        InputArg { input: "b".to_string(), lookup: of_kind(PathKind::Directory) },
    ];
    let dir = DirArg { dir: "d".to_string(), listing: Listing::Unreadable };
    let error = resolve_inputs(args, Some(dir)).err().expect("refused");
    assert_eq!(error.message(), "input file does not exist: a");
    let dir = DirArg { dir: "d".to_string(), listing: Listing::Unreadable };
    let error = resolve_inputs(vec![], Some(dir)).err().expect("refused");
    assert_eq!(error.message(), "read dir d");
}
