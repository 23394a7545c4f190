use std::path::{Path, PathBuf};

use metrics_exporter_csv::path::{
    has_csv_extension, normalize_base_path, parent_directory, FilePath, PathStyle,
};

const PATHS: [&str; 46] = [
    "", ".", "..", "/", "//", "a", "a.b", "a.csv", "a.", ".a", ".a.b", "..a", "...", "a..", "a..b",
    "/a", "/a.csv", "/.", "/..", "a/b", "a/b.csv", "a/b/", "a/b//", "a/b.csv/", "a//b", "./a", "../a",
    "a/.", "a/..", "a/./b", "a/b/.", "./", "./.", "../", "../..", ".csv", "a/.csv", "a.CSV", "b.csv.1",
    "a b/c d.tsv", "././a", "//a", ".//a", "/./a", "a/./", "./a/./.b",
];

fn unix(path: &str) -> FilePath {
    FilePath { bytes: path.as_bytes().to_vec(), style: PathStyle::Unix }
}

fn windows(path: &str) -> FilePath {
    FilePath { bytes: path.as_bytes().to_vec(), style: PathStyle::Windows }
}

fn text(path: FilePath) -> String {
    String::from_utf8(path.bytes).expect("text")
}

fn parent(path: FilePath) -> Option<String> {
    parent_directory(&path).map(|parent| String::from_utf8(parent).expect("text"))
}

fn expected_base_path(path: &str) -> PathBuf {
    let path = PathBuf::from(path);
    let mut path = if path.extension().is_none() {
        path.with_extension("csv")
    } else {
        path
    };
    if path.parent().map(|parent| parent.as_os_str().is_empty()).unwrap_or(true) {
        path = Path::new(".").join(path);
    }
    path
}

#[test]
fn base_paths_get_an_extension_and_a_directory() {
    for path in PATHS {
        let out = text(normalize_base_path(unix(path)));
        assert_eq!(out, expected_base_path(path).to_str().expect("text"), "of {path:?}");
    }
    assert_eq!(normalize_base_path(unix("metrics")), unix("./metrics.csv"));
    assert_eq!(normalize_base_path(unix("logs/metrics.tsv")), unix("logs/metrics.tsv"));
    assert_eq!(normalize_base_path(unix(r"logs\metrics")), unix(r"./logs\metrics.csv"));
}

#[test]
fn base_paths_stay_as_they_are() {
    for path in PATHS {
        let once = normalize_base_path(unix(path));
        let twice = normalize_base_path(once.clone());
        let name = Path::new(path).file_name();
        if name.is_some() {
            assert_eq!(twice, once, "of {path:?}");
        }
    }
}

#[test]
fn parent_directories_are_those_to_create() {
    for path in PATHS {
        let expected = Path::new(path).parent().filter(|parent| !parent.as_os_str().is_empty());
        assert_eq!(parent(unix(path)).as_deref(), expected.map(|parent| parent.to_str().expect("text")), "of {path:?}");
    }
}

#[test]
fn csv_files_are_told_by_their_extension() {
    for path in PATHS {
        let expected = Path::new(path).extension().and_then(|extension| extension.to_str())
            == Some("csv");
        assert_eq!(has_csv_extension(&unix(path)), expected, "of {path:?}");
    }
}

/// A path, the file that is written for it, and the directory of that file.
const WINDOWS_PATHS: [(&str, &str, Option<&str>); 40] = [
    ("", r".\", None),
    (".", r".\.", None),
    ("..", r".\..", Some(".")),
    ("metrics", r".\metrics.csv", Some(".")),
    ("metrics.tsv", r".\metrics.tsv", Some(".")),
    (r"logs\metrics", r"logs\metrics.csv", Some("logs")),
    ("logs/metrics", "logs/metrics.csv", Some("logs")),
    (r"logs/run\metrics\.", r"logs/run\metrics.csv", Some("logs/run")),
    (r".\a", r".\a.csv", Some(".")),
    (r"a\.\\b/", r"a\.\\b.csv", Some("a")),
    (r"\", r"\", None),
    (r"\a", r"\a.csv", Some(r"\")),
    ("/a", "/a.csv", Some("/")),
    ("C:", "C:", None),
    ("C:.", "C:.", Some("C:")),
    ("C:metrics", "C:metrics.csv", Some("C:")),
    (r"C:.\metrics", r"C:.\metrics.csv", Some("C:.")),
    (r"C:\", r"C:\", None),
    (r"C:\metrics", r"C:\metrics.csv", Some(r"C:\")),
    (r"c:/logs\metrics.v1", r"c:/logs\metrics.v1", Some("c:/logs")),
    ("1:a", r".\1:a.csv", Some(".")),
    ("ab:c", r".\ab:c.csv", Some(".")),
    (r"\\server\share", r"\\server\share", None),
    (r"\\server\share\", r"\\server\share\", None),
    (r"\\server\share\a", r"\\server\share\a.csv", Some(r"\\server\share\")),
    (r"//server/share/a\b", r"//server/share/a\b.csv", Some("//server/share/a")),
    (r"\\server", r"\\server.csv", Some(r"\")),
    (r"\\server\", r"\\server.csv", Some(r"\")),
    (r"\\\share\a", r"\\\share\a.csv", Some(r"\\\share")),
    (r"\\.\COM1", r"\\.\COM1", None),
    (r"\\.\pipe\a", r"\\.\pipe\a.csv", Some(r"\\.\pipe\")),
    (r"\\?\C:", r"\\?\C:", None),
    (r"\\?\C:\a/b", r"\\?\C:\a/b.csv", Some(r"\\?\C:\")),
    (r"\\?\C:\a\.", r"\\?\C:\a\.", Some(r"\\?\C:\a")),
    (r"\\?\C:a\b", r"\\?\C:a\b.csv", Some(r"\\?\C:a\")),
    (r"\\?\name", r"\\?\name", None),
    (r"\\?\name\a", r"\\?\name\a.csv", Some(r"\\?\name\")),
    (r"\\?\UNC\server\share\a", r"\\?\UNC\server\share\a.csv", Some(r"\\?\UNC\server\share\")),
    (r"\\?\UNC\server\\a", r"\\?\UNC\server\\a.csv", Some(r"\\?\UNC\server\")),
    (r"//?/C:\a", r"//?/C:\a.csv", Some(r"//?/C:\")),
];

#[test]
fn windows_paths_have_prefixes_and_two_separators() {
    for (path, base, directory) in WINDOWS_PATHS {
        let out = normalize_base_path(windows(path));
        assert_eq!(out, windows(base), "of {path:?}");
        assert_eq!(parent(out).as_deref(), directory, "of {path:?}");
    }
}

#[test]
fn windows_base_paths_stay_as_they_are() {
    for (path, base, _) in WINDOWS_PATHS {
        if base.ends_with(".csv") {
            assert_eq!(normalize_base_path(windows(base)), windows(base), "of {path:?}");
        }
    }
}

#[test]
fn windows_csv_files_are_told_by_their_extension() {
    for path in ["a.csv", r"d\a.csv", r"C:a.csv", r"C:\d.x\a.b.csv\", r"\\server\share\a.csv"] {
        assert!(has_csv_extension(&windows(path)), "{path}");
    }
    for path in [r"d.csv\a", r"d\.csv", "C:.csv", r"\\server\share.csv", r"a.csv\..", "a.CSV"] {
        assert!(!has_csv_extension(&windows(path)), "{path}");
    }
    assert!(has_csv_extension(&unix(r"d\.csv")));
}
