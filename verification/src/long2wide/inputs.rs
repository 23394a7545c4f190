//! Which files are converted.
use vstd::prelude::*;

use crate::order::{text_lt, text_lt_total, text_lt_transitive};
use crate::path::{has_csv_extension, names_csv, FilePath, PathStyle};
use crate::sorted_map::{
    lists_keys, lists_values, same_increasing_texts, strictly_increasing,
    strictly_increasing_is_distinct, SortedMap,
};
use crate::text::concat3;

verus! {

/// The path of a file: its text, in which what is not Unicode is replaced, and the path itself.
pub struct InputPath {
    pub text: String,
    pub file: FilePath,
}

/// What an `InputPath` says.
pub struct NamedPath {
    pub text: Seq<char>,
    pub bytes: Seq<u8>,
    pub style: PathStyle,
}

impl View for InputPath {
    type V = NamedPath;

    open spec fn view(&self) -> NamedPath {
        NamedPath { text: self.text@, bytes: self.file.bytes@, style: self.file.style }
    }
}

/// What a list of paths says.
pub open spec fn path_views(paths: Seq<InputPath>) -> Seq<NamedPath> {
    paths.map_values(|path: InputPath| path@)
}

/// The texts of paths.
pub open spec fn path_texts(paths: Seq<NamedPath>) -> Seq<Seq<char>> {
    paths.map_values(|path: NamedPath| path.text)
}

/// Why no files to convert were found.
#[derive(Debug)]
pub enum InputError {
    InvalidPattern { input: String },
    NoMatch { input: String },
    IsDirectory { input: String },
    Missing { input: String },
    ReadDir { dir: String },
    DirEntry { cause: String },
    NoCsvFiles { dir: String },
    NoInputs,
}

/// What an `InputError` says.
pub enum Refusal {
    InvalidPattern { input: Seq<char> },
    NoMatch { input: Seq<char> },
    IsDirectory { input: Seq<char> },
    Missing { input: Seq<char> },
    ReadDir { dir: Seq<char> },
    DirEntry { cause: Seq<char> },
    NoCsvFiles { dir: Seq<char> },
    NoInputs,
}

impl View for InputError {
    type V = Refusal;

    open spec fn view(&self) -> Refusal {
        match self {
            InputError::InvalidPattern { input } => Refusal::InvalidPattern { input: input@ },
            InputError::NoMatch { input } => Refusal::NoMatch { input: input@ },
            InputError::IsDirectory { input } => Refusal::IsDirectory { input: input@ },
            InputError::Missing { input } => Refusal::Missing { input: input@ },
            InputError::ReadDir { dir } => Refusal::ReadDir { dir: dir@ },
            InputError::DirEntry { cause } => Refusal::DirEntry { cause: cause@ },
            InputError::NoCsvFiles { dir } => Refusal::NoCsvFiles { dir: dir@ },
            InputError::NoInputs => Refusal::NoInputs,
        }
    }
}

/// The message that tells a user of the refusal.
pub open spec fn refusal_text(refusal: Refusal) -> Seq<char> {
    match refusal {
        Refusal::InvalidPattern { input } => "invalid glob pattern: "@ + input,
        Refusal::NoMatch { input } => "glob pattern matched no files: "@ + input,
        Refusal::IsDirectory { input } => "input '"@ + input
            + "' is a directory; use --input-dir instead"@,
        Refusal::Missing { input } => "input file does not exist: "@ + input,
        Refusal::ReadDir { dir } => "read dir "@ + dir,
        Refusal::DirEntry { cause } => cause,
        Refusal::NoCsvFiles { dir } => "no .csv files found in directory: "@ + dir,
        Refusal::NoInputs => "no input files provided (use --input or --input-dir)"@,
    }
}

/// One text behind the other.
fn concat2(left: &str, right: &str) -> (text: String)
    ensures
        text@ == left@ + right@,
{
    let mut text = left.to_string();
    text.append(right);
    text
}

impl InputError {
    /// The message that tells a user of the error.
    pub fn message(&self) -> (text: String)
        ensures
            text@ == refusal_text(self@),
    {
        match self {
            InputError::InvalidPattern { input } => concat2(
                "invalid glob pattern: ",
                input.as_str(),
            ),
            InputError::NoMatch { input } => concat2(
                "glob pattern matched no files: ",
                input.as_str(),
            ),
            InputError::IsDirectory { input } => concat3(
                "input '",
                input.as_str(),
                "' is a directory; use --input-dir instead",
            ),
            InputError::Missing { input } => concat2("input file does not exist: ", input.as_str()),
            InputError::ReadDir { dir } => concat2("read dir ", dir.as_str()),
            InputError::DirEntry { cause } => cause.clone(),
            InputError::NoCsvFiles { dir } => concat2(
                "no .csv files found in directory: ",
                dir.as_str(),
            ),
            InputError::NoInputs => {
                "no input files provided (use --input or --input-dir)".to_string()
            },
        }
    }
}

/// Whether `input` is a pattern rather than the path of one file.
pub open spec fn is_pattern(input: Seq<char>) -> bool {
    input.contains('*') || input.contains('?') || input.contains('[')
}

/// Whether no path before path `k` has the same text.
pub open spec fn is_first(paths: Seq<NamedPath>, k: int) -> bool {
    &&& 0 <= k < paths.len()
    &&& forall|j: int| 0 <= j < k ==> (#[trigger] paths[j]).text != paths[k].text
}

/// Whether `path` is one of `paths`, and the first with its text.
pub open spec fn is_first_of(paths: Seq<NamedPath>, path: NamedPath) -> bool {
    exists|k: int| #[trigger] is_first(paths, k) && paths[k] == path
}

/// Whether `sorted` holds each text among `paths` once, in ascending order, each with the first
/// path that has it.
pub open spec fn is_sorted_distinct(paths: Seq<NamedPath>, sorted: Seq<NamedPath>) -> bool {
    &&& strictly_increasing(path_texts(sorted))
    &&& forall|k: int|
        0 <= k < paths.len() ==> path_texts(sorted).contains((#[trigger] paths[k]).text)
    &&& forall|i: int|
        0 <= i < sorted.len() ==> is_first_of(paths, #[trigger] sorted[i])
}

/// `paths` in ascending order of their texts, each text once.
pub open spec fn sorted_distinct(paths: Seq<NamedPath>) -> Seq<NamedPath> {
    choose|sorted: Seq<NamedPath>| is_sorted_distinct(paths, sorted)
}

/// Paths can be sorted so that each text is left once: that is what `sorted_distinct` does.
pub proof fn sorted_distinct_holds(paths: Seq<NamedPath>)
    ensures
        is_sorted_distinct(paths, sorted_distinct(paths)),
{
    let sorted = sort_distinct(paths);
    assert(is_sorted_distinct(paths, sorted));
}

/// Sorts paths one by one.
proof fn sort_distinct(paths: Seq<NamedPath>) -> (sorted: Seq<NamedPath>)
    ensures
        is_sorted_distinct(paths, sorted),
    decreases paths.len(),
{
    if paths.len() == 0 {
        Seq::empty()
    } else {
        let fewer = paths.drop_last();
        let last = paths.last();
        let before = sort_distinct(fewer);
        assert forall|path: NamedPath| #[trigger] is_first_of(fewer, path) implies is_first_of(
            paths,
            path,
        ) by {
            let k = choose|k: int| #[trigger] is_first(fewer, k) && fewer[k] == path;
            assert forall|j: int| 0 <= j < k implies (#[trigger] paths[j]).text != paths[k].text by {
                assert(fewer[j].text != fewer[k].text);
            }
            assert(is_first(paths, k) && paths[k] == path);
        }
        assert forall|k: int| 0 <= k < fewer.len() implies path_texts(before).contains(
            (#[trigger] paths[k]).text,
        ) by {
            assert(fewer[k] == paths[k]);
        }
        if path_texts(before).contains(last.text) {
            assert forall|i: int| 0 <= i < before.len() implies is_first_of(
                paths,
                #[trigger] before[i],
            ) by {
                assert(is_first_of(fewer, before[i]));
            }
            before
        } else {
            insert_path(paths, before)
        }
    }
}

/// Puts the last path in its place among those before it.
proof fn insert_path(paths: Seq<NamedPath>, before: Seq<NamedPath>) -> (sorted: Seq<NamedPath>)
    requires
        paths.len() > 0,
        strictly_increasing(path_texts(before)),
        forall|k: int|
            0 <= k < paths.len() - 1 ==> path_texts(before).contains((#[trigger] paths[k]).text),
        forall|i: int|
            0 <= i < before.len() ==> is_first_of(paths.drop_last(), #[trigger] before[i])
                && is_first_of(paths, before[i]),
        !path_texts(before).contains(paths.last().text),
    ensures
        is_sorted_distinct(paths, sorted),
{
    let last = paths.last();
    let texts = path_texts(before);
    let at = smaller_count(texts, last.text, texts.len() as int);
    smaller_texts_come_first(texts, last.text);
    let sorted = before.insert(at, last);
    let more = path_texts(sorted);
    assert(more =~= texts.insert(at, last.text));
    assert forall|i: int, j: int| 0 <= i < j < more.len() implies text_lt(
        #[trigger] more[i],
        #[trigger] more[j],
    ) by {
        if i == at {
            assert(text_lt(last.text, texts[j - 1]));
        } else if j == at {
            assert(text_lt(texts[i], last.text));
        } else {
            let p = if i < at { i } else { i - 1 };
            let q = if j < at { j } else { j - 1 };
            assert(text_lt(texts[p], texts[q]));
        }
    }
    assert forall|k: int| 0 <= k < paths.len() implies more.contains((#[trigger] paths[k]).text) by {
        if k < paths.len() - 1 {
            let i = choose|i: int| 0 <= i < texts.len() && texts[i] == paths[k].text;
            assert(more[if i < at { i } else { i + 1 }] == paths[k].text);
        } else {
            assert(more[at] == paths[k].text);
        }
    }
    let n = paths.len() - 1;
    assert forall|j: int| 0 <= j < n implies (#[trigger] paths[j]).text != paths[n].text by {
        assert(texts.contains(paths[j].text));
    }
    assert(is_first(paths, n) && paths[n] == last);
    assert forall|i: int| 0 <= i < sorted.len() implies is_first_of(paths, #[trigger] sorted[i]) by {
        if i < at {
            assert(sorted[i] == before[i]);
        } else if i > at {
            assert(sorted[i] == before[i - 1]);
        }
    }
    sorted
}

/// How many of the first `n` texts are smaller than `text`.
spec fn smaller_count(texts: Seq<Seq<char>>, text: Seq<char>, n: int) -> int
    decreases n,
{
    if n <= 0 {
        0
    } else if text_lt(texts[n - 1], text) {
        n
    } else {
        smaller_count(texts, text, n - 1)
    }
}

/// Among increasing texts, the smaller ones come first and the greater ones last.
proof fn smaller_texts_come_first(texts: Seq<Seq<char>>, text: Seq<char>)
    requires
        strictly_increasing(texts),
        !texts.contains(text),
    ensures
        ({
            let at = smaller_count(texts, text, texts.len() as int);
            &&& 0 <= at <= texts.len()
            &&& forall|i: int| 0 <= i < at ==> text_lt(#[trigger] texts[i], text)
            &&& forall|i: int| at <= i < texts.len() ==> text_lt(text, #[trigger] texts[i])
        }),
{
    let at = smaller_count(texts, text, texts.len() as int);
    smaller_count_ends(texts, text, texts.len() as int);
    assert forall|i: int| 0 <= i < at implies text_lt(#[trigger] texts[i], text) by {
        if i < at - 1 {
            assert(text_lt(texts[i], texts[at - 1]));
            text_lt_transitive(texts[i], texts[at - 1], text);
        }
    }
    assert forall|i: int| at <= i < texts.len() implies text_lt(text, #[trigger] texts[i]) by {
        assert(texts.contains(texts[i]));
        text_lt_total(texts[i], text);
    }
}

proof fn smaller_count_ends(texts: Seq<Seq<char>>, text: Seq<char>, n: int)
    requires
        0 <= n <= texts.len(),
    ensures
        0 <= smaller_count(texts, text, n) <= n,
        smaller_count(texts, text, n) > 0 ==> text_lt(
            texts[smaller_count(texts, text, n) - 1],
            text,
        ),
        forall|i: int|
            smaller_count(texts, text, n) <= i < n ==> !text_lt(#[trigger] texts[i], text),
    decreases n,
{
    if n > 0 && !text_lt(texts[n - 1], text) {
        smaller_count_ends(texts, text, n - 1);
    }
}

/// There is one way to sort paths and leave each text once.
pub proof fn sorted_distinct_is_unique(
    paths: Seq<NamedPath>,
    first: Seq<NamedPath>,
    second: Seq<NamedPath>,
)
    requires
        is_sorted_distinct(paths, first),
        is_sorted_distinct(paths, second),
    ensures
        first == second,
{
    let a = path_texts(first);
    let b = path_texts(second);
    assert forall|text: Seq<char>| #[trigger] a.contains(text) <==> b.contains(text) by {
        if a.contains(text) {
            let i = choose|i: int| 0 <= i < a.len() && a[i] == text;
            assert(is_first_of(paths, first[i]));
            let k = choose|k: int| #[trigger] is_first(paths, k) && paths[k] == first[i];
            assert(b.contains(paths[k].text));
        }
        if b.contains(text) {
            let i = choose|i: int| 0 <= i < b.len() && b[i] == text;
            assert(is_first_of(paths, second[i]));
            let k = choose|k: int| #[trigger] is_first(paths, k) && paths[k] == second[i];
            assert(a.contains(paths[k].text));
        }
    }
    same_increasing_texts(a, b, 0);
    assert(a.len() == b.len());
    assert forall|i: int| 0 <= i < first.len() implies first[i] == second[i] by {
        assert(is_first_of(paths, first[i]) && is_first_of(paths, second[i]));
        let j = choose|k: int| #[trigger] is_first(paths, k) && paths[k] == first[i];
        let k = choose|k: int| #[trigger] is_first(paths, k) && paths[k] == second[i];
        assert(a[i] == b[i]);
        if j < k {
            assert(paths[j].text != paths[k].text);
        } else if k < j {
            assert(paths[k].text != paths[j].text);
        }
    }
    assert(first =~= second);
}

/// Sorting paths that are sorted already, each text once, changes nothing.
pub proof fn sorted_distinct_is_idempotent(paths: Seq<NamedPath>, sorted: Seq<NamedPath>)
    requires
        is_sorted_distinct(paths, sorted),
    ensures
        is_sorted_distinct(sorted, sorted),
        sorted_distinct(sorted) == sorted,
{
    let texts = path_texts(sorted);
    strictly_increasing_is_distinct(texts);
    assert forall|i: int| 0 <= i < sorted.len() implies is_first_of(sorted, #[trigger] sorted[i]) by {
        assert forall|j: int| 0 <= j < i implies (#[trigger] sorted[j]).text != sorted[i].text by {
            assert(texts[j] != texts[i]);
        }
        assert(is_first(sorted, i));
    }
    assert forall|k: int| 0 <= k < sorted.len() implies texts.contains(
        (#[trigger] sorted[k]).text,
    ) by {
        assert(texts[k] == sorted[k].text);
    }
    sorted_distinct_is_unique(sorted, sorted, sorted_distinct(sorted));
}

/// Sorts paths by their texts and keeps the first of those that share one.
pub fn sort_and_dedup_paths(paths: &mut Vec<InputPath>)
    ensures
        is_sorted_distinct(path_views(old(paths)@), path_views(final(paths)@)),
        path_views(final(paths)@) == sorted_distinct(path_views(old(paths)@)),
{
    let ghost all = path_views(paths@);
    let mut unsorted: Vec<InputPath> = Vec::new();
    std::mem::swap(&mut unsorted, paths);
    let mut by_text: SortedMap<InputPath> = SortedMap::new();
    for path in it: unsorted
        invariant
            it.seq() == unsorted@,
            all == path_views(unsorted@),
            by_text.wf(),
            forall|k: int|
                0 <= k < it.index() ==> by_text@.contains_key((#[trigger] all[k]).text),
            forall|text: Seq<char>| #[trigger]
                by_text@.contains_key(text) ==> exists|k: int| #[trigger]
                    is_first(all, k) && k < it.index() && all[k].text == text && by_text@[text]@
                        == all[k],
    {
        let ghost n = it.index() as int;
        let ghost before = by_text@;
        assert(all[n] == path@);
        let inserted = by_text.insert_new(path.text.clone(), path);
        proof {
            if inserted {
                assert forall|j: int| 0 <= j < n implies (#[trigger] all[j]).text != all[n].text by {
                    assert(before.contains_key(all[j].text));
                }
                assert(is_first(all, n));
            }
            assert forall|text: Seq<char>| #[trigger] by_text@.contains_key(text) implies exists|
                k: int,
            | #[trigger]
                is_first(all, k) && k < n + 1 && all[k].text == text && by_text@[text]@ == all[k] by {
                if before.contains_key(text) {
                    let k = choose|k: int| #[trigger]
                        is_first(all, k) && k < n && all[k].text == text && before[text]@ == all[k];
                    assert(is_first(all, k) && k < n + 1);
                    assert(by_text@[text] == before[text]);
                }
            }
        }
    }
    let ghost map = by_text@;
    *paths = by_text.into_values();
    proof {
        let sorted = path_views(paths@);
        let keys = choose|keys: Seq<Seq<char>>| #[trigger]
            lists_keys(keys, map) && lists_values(keys, map, paths@);
        assert forall|i: int| 0 <= i < sorted.len() implies is_first_of(all, #[trigger] sorted[i])
            && sorted[i].text == keys[i] by {
            assert(keys.contains(keys[i]));
            assert(map.contains_key(keys[i]));
            assert(paths@[i] == map[keys[i]]);
        }
        assert(path_texts(sorted) =~= keys);
        assert forall|k: int| 0 <= k < all.len() implies path_texts(sorted).contains(
            (#[trigger] all[k]).text,
        ) by {
            assert(map.contains_key(all[k].text));
        }
        assert(is_sorted_distinct(all, sorted));
        sorted_distinct_is_unique(all, sorted, sorted_distinct(all));
    }
}

/// What the path of an input leads to.
pub enum PathKind {
    File(InputPath),
    Directory,
    Missing,
}

/// What the file system answers for one input.
pub struct Lookup {
    /// The paths that match the input as a pattern, if it is a valid one; `None` stands for one
    /// that could not be read.
    pub matches: Option<Vec<Option<InputPath>>>,
    /// What the input leads to as a path.
    pub kind: PathKind,
}

/// What was found, or why nothing was.
pub open spec fn found_view(found: Result<Vec<InputPath>, InputError>) -> Result<
    Seq<NamedPath>,
    Refusal,
> {
    match found {
        Ok(paths) => Ok(path_views(paths@)),
        Err(error) => Err(error@),
    }
}

/// The paths among the first `n` matches that could be read.
pub open spec fn readable_paths(matches: Seq<Option<InputPath>>, n: int) -> Seq<NamedPath>
    decreases n,
{
    if n <= 0 {
        Seq::empty()
    } else {
        match matches[n - 1] {
            Some(path) => readable_paths(matches, n - 1).push(path@),
            None => readable_paths(matches, n - 1),
        }
    }
}

/// The files that an input stands for.
pub open spec fn expansion(input: Seq<char>, lookup: Lookup) -> Result<Seq<NamedPath>, Refusal> {
    if is_pattern(input) {
        match lookup.matches {
            None => Err(Refusal::InvalidPattern { input }),
            Some(matches) => {
                let paths = readable_paths(matches@, matches@.len() as int);
                if paths.len() == 0 {
                    Err(Refusal::NoMatch { input })
                } else {
                    Ok(sorted_distinct(paths))
                }
            },
        }
    } else {
        match lookup.kind {
            PathKind::File(path) => Ok(seq![path@]),
            PathKind::Directory => Err(Refusal::IsDirectory { input }),
            PathKind::Missing => Err(Refusal::Missing { input }),
        }
    }
}

/// One entry of a directory.
pub struct DirEntry {
    pub path: InputPath,
    pub is_file: bool,
}

/// What the file system answers for a directory.
pub enum Listing {
    Entries(Vec<DirEntry>),
    /// The directory cannot be read.
    Unreadable,
    /// Reading the directory failed on one of its entries.
    Interrupted { cause: String },
}

/// The paths of the CSV files among the first `n` entries.
pub open spec fn csv_files(entries: Seq<DirEntry>, n: int) -> Seq<NamedPath>
    decreases n,
{
    if n <= 0 {
        Seq::empty()
    } else if names_csv(
        entries[n - 1].path.file.bytes@,
        entries[n - 1].path.file.style,
    ) && entries[n - 1].is_file {
        csv_files(entries, n - 1).push(entries[n - 1].path@)
    } else {
        csv_files(entries, n - 1)
    }
}

/// The files that a directory stands for.
pub open spec fn directory_files(dir: Seq<char>, listing: Listing) -> Result<
    Seq<NamedPath>,
    Refusal,
> {
    match listing {
        Listing::Unreadable => Err(Refusal::ReadDir { dir }),
        Listing::Interrupted { cause } => Err(Refusal::DirEntry { cause: cause@ }),
        Listing::Entries(entries) => {
            let paths = csv_files(entries@, entries@.len() as int);
            if paths.len() == 0 {
                Err(Refusal::NoCsvFiles { dir })
            } else {
                Ok(sorted_distinct(paths))
            }
        },
    }
}

/// An input with what the file system answers for it.
pub struct InputArg {
    pub input: String,
    pub lookup: Lookup,
}

/// A directory with what the file system answers for it.
pub struct DirArg {
    pub dir: String,
    pub listing: Listing,
}

/// The files that the first `n` inputs stand for, or why one of them, the first such, stands for
/// none.
pub open spec fn expansions(inputs: Seq<InputArg>, n: int) -> Result<Seq<NamedPath>, Refusal>
    decreases n,
{
    if n <= 0 {
        Ok(Seq::empty())
    } else {
        match expansions(inputs, n - 1) {
            Err(refusal) => Err(refusal),
            Ok(before) => match expansion(inputs[n - 1].input@, inputs[n - 1].lookup) {
                Err(refusal) => Err(refusal),
                Ok(paths) => Ok(before + paths),
            },
        }
    }
}

/// The files that all inputs and the directory stand for, before they are sorted.
pub open spec fn all_files(inputs: Seq<InputArg>, input_dir: Option<DirArg>) -> Result<
    Seq<NamedPath>,
    Refusal,
> {
    match expansions(inputs, inputs.len() as int) {
        Err(refusal) => Err(refusal),
        Ok(paths) => match input_dir {
            None => Ok(paths),
            Some(arg) => match directory_files(arg.dir@, arg.listing) {
                Err(refusal) => Err(refusal),
                Ok(more) => Ok(paths + more),
            },
        },
    }
}

/// The files to convert: those of all inputs and of the directory, each once, in ascending order.
pub open spec fn resolution(inputs: Seq<InputArg>, input_dir: Option<DirArg>) -> Result<
    Seq<NamedPath>,
    Refusal,
> {
    match all_files(inputs, input_dir) {
        Err(refusal) => Err(refusal),
        Ok(paths) => if paths.len() == 0 {
            Err(Refusal::NoInputs)
        } else {
            Ok(sorted_distinct(paths))
        },
    }
}

/// Whether `input` is a pattern rather than the path of one file.
pub fn contains_glob(input: &str) -> (yes: bool)
    ensures
        yes == is_pattern(input@),
{
    let ghost text = input@;
    for c in it: input.chars()
        invariant
            it.seq() == text,
            text == input@,
            !is_pattern(text.take(it.index() as int)),
    {
        let ghost n = it.index() as int;
        assert(text[n] == c);
        if c == '*' || c == '?' || c == '[' {
            assert(text.contains(c));
            return true;
        }
        proof {
            let more = text.take(n + 1);
            assert(more =~= text.take(n).push(c));
            assert forall|k: char| #[trigger] more.contains(k) implies text.take(n).contains(k)
                || k == c by {
                let i = choose|i: int| 0 <= i < more.len() && more[i] == k;
                if i < n {
                    assert(text.take(n)[i] == k);
                }
            }
        }
    }
    assert(text.take(text.len() as int) =~= text);
    false
}

/// Lists the files that an input stands for.
pub fn expand_input(input: &str, lookup: Lookup) -> (found: Result<Vec<InputPath>, InputError>)
    ensures
        found_view(found) == expansion(input@, lookup),
{
    if contains_glob(input) {
        let matches = match lookup.matches {
            None => {
                return Err(InputError::InvalidPattern { input: input.to_string() });
            },
            Some(matches) => matches,
        };
        let ghost all = matches@;
        let mut paths: Vec<InputPath> = Vec::new();
        assert(path_views(paths@) =~= readable_paths(all, 0));
        for entry in it: matches
            invariant
                it.seq() == all,
                path_views(paths@) == readable_paths(all, it.index() as int),
        {
            let ghost before = paths@;
            if let Some(path) = entry {
                paths.push(path);
                assert(path_views(paths@) =~= path_views(before).push(path@));
            }
        }
        if paths.len() == 0 {
            return Err(InputError::NoMatch { input: input.to_string() });
        }
        sort_and_dedup_paths(&mut paths);
        Ok(paths)
    } else {
        match lookup.kind {
            PathKind::File(path) => {
                let mut paths: Vec<InputPath> = Vec::new();
                paths.push(path);
                assert(path_views(paths@) =~= seq![path@]);
                Ok(paths)
            },
            PathKind::Directory => Err(InputError::IsDirectory { input: input.to_string() }),
            PathKind::Missing => Err(InputError::Missing { input: input.to_string() }),
        }
    }
}

/// Lists the CSV files of a directory.
pub fn scan_dir_for_csvs(dir: &str, listing: Listing) -> (found: Result<
    Vec<InputPath>,
    InputError,
>)
    ensures
        found_view(found) == directory_files(dir@, listing),
{
    let entries = match listing {
        Listing::Unreadable => {
            return Err(InputError::ReadDir { dir: dir.to_string() });
        },
        Listing::Interrupted { cause } => {
            return Err(InputError::DirEntry { cause });
        },
        Listing::Entries(entries) => entries,
    };
    let ghost all = entries@;
    let mut paths: Vec<InputPath> = Vec::new();
    assert(path_views(paths@) =~= csv_files(all, 0));
    for entry in it: entries
        invariant
            it.seq() == all,
            path_views(paths@) == csv_files(all, it.index() as int),
    {
        let ghost before = paths@;
        if has_csv_extension(&entry.path.file) && entry.is_file {
            paths.push(entry.path);
            assert(path_views(paths@) =~= path_views(before).push(entry.path@));
        }
    }
    if paths.len() == 0 {
        return Err(InputError::NoCsvFiles { dir: dir.to_string() });
    }
    sort_and_dedup_paths(&mut paths);
    Ok(paths)
}

/// Once an input is refused, later ones change nothing.
proof fn expansions_stop_at_refusal(inputs: Seq<InputArg>, n: int, m: int)
    requires
        0 <= n <= m,
        expansions(inputs, n) is Err,
    ensures
        expansions(inputs, m) == expansions(inputs, n),
    decreases m,
{
    if n < m {
        expansions_stop_at_refusal(inputs, n, m - 1);
    }
}

/// Lists the files to convert.
pub fn resolve_inputs(inputs: Vec<InputArg>, input_dir: Option<DirArg>) -> (found: Result<
    Vec<InputPath>,
    InputError,
>)
    ensures
        found_view(found) == resolution(inputs@, input_dir),
        found matches Ok(paths) ==> paths@.len() > 0 && strictly_increasing(
            path_texts(path_views(paths@)),
        ),
{
    let ghost all = inputs@;
    let mut paths: Vec<InputPath> = Vec::new();
    assert(path_views(paths@) =~= Seq::<NamedPath>::empty());
    for arg in it: inputs
        invariant
            it.seq() == all,
            all == inputs@,
            expansions(all, it.index() as int) == Ok::<Seq<NamedPath>, Refusal>(
                path_views(paths@),
            ),
    {
        let ghost n = it.index() as int;
        let ghost before = paths@;
        assert(all[n] == arg);
        match expand_input(arg.input.as_str(), arg.lookup) {
            Ok(found) => {
                let mut found = found;
                let ghost added = found@;
                paths.append(&mut found);
                assert(path_views(paths@) =~= path_views(before) + path_views(added));
            },
            Err(error) => {
                proof {
                    assert(expansions(all, n + 1) == Err::<Seq<NamedPath>, Refusal>(error@));
                    expansions_stop_at_refusal(all, n + 1, all.len() as int);
                }
                return Err(error);
            },
        }
    }
    if let Some(arg) = input_dir {
        let ghost before = paths@;
        match scan_dir_for_csvs(arg.dir.as_str(), arg.listing) {
            Ok(found) => {
                let mut found = found;
                let ghost added = found@;
                paths.append(&mut found);
                assert(path_views(paths@) =~= path_views(before) + path_views(added));
            },
            Err(error) => {
                return Err(error);
            },
        }
    }
    if paths.len() == 0 {
        return Err(InputError::NoInputs);
    }
    let ghost unsorted = path_views(paths@);
    sort_and_dedup_paths(&mut paths);
    assert(path_texts(path_views(paths@)).contains(unsorted[0].text));
    Ok(paths)
}

} // verus!
