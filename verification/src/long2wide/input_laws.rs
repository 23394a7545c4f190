//! What holds of the files that are found.
use vstd::prelude::*;

use super::inputs::{
    csv_files, directory_files, expansion, expansions, is_first, is_first_of, is_pattern,
    is_sorted_distinct, path_texts, readable_paths, refusal_text, resolution, sorted_distinct,
    sorted_distinct_holds, sorted_distinct_is_idempotent, DirArg, DirEntry, InputArg, InputPath,
    Listing, NamedPath, PathKind, Refusal,
};
use crate::order::text_lt;
use crate::path::names_csv;

verus! {

/// Whether an input has a wildcard in it.
pub open spec fn has_wildcard(input: Seq<char>) -> bool {
    exists|i: int|
        0 <= i < input.len() && (#[trigger] input[i] == '*' || input[i] == '?' || input[i] == '[')
}

/// Whether one of the matches is this path.
pub open spec fn is_match(matches: Seq<Option<InputPath>>, path: NamedPath) -> bool {
    exists|i: int|
        0 <= i < matches.len() && #[trigger] matches[i] is Some && matches[i]->0@ == path
}

/// Whether an input stands for this path: a pattern for each path that matches it and can be read,
/// any other input for the file that it names.
pub open spec fn stands_for(arg: InputArg, path: NamedPath) -> bool {
    if has_wildcard(arg.input@) {
        arg.lookup.matches is Some && is_match(arg.lookup.matches->0@, path)
    } else {
        arg.lookup.kind is File && arg.lookup.kind->File_0@ == path
    }
}

/// Whether this is the path of a regular file of a directory with the extension `csv`.
pub open spec fn is_csv_entry(entries: Seq<DirEntry>, path: NamedPath) -> bool {
    exists|i: int|
        0 <= i < entries.len() && (#[trigger] entries[i]).is_file && names_csv(
            entries[i].path.file.bytes@,
            entries[i].path.file.style,
        ) && entries[i].path@ == path
}

/// Whether a directory that could be listed has this CSV file.
pub open spec fn has_csv_file(arg: DirArg, path: NamedPath) -> bool {
    arg.listing is Entries && is_csv_entry(arg.listing->Entries_0@, path)
}

/// Why an input stands for no file.
pub open spec fn input_refusal(arg: InputArg) -> Option<Refusal> {
    let input = arg.input@;
    if has_wildcard(input) {
        if arg.lookup.matches is None {
            Some(Refusal::InvalidPattern { input })
        } else if forall|path: NamedPath| !#[trigger] stands_for(arg, path) {
            Some(Refusal::NoMatch { input })
        } else {
            None
        }
    } else {
        match arg.lookup.kind {
            PathKind::File(_) => None,
            PathKind::Directory => Some(Refusal::IsDirectory { input }),
            PathKind::Missing => Some(Refusal::Missing { input }),
        }
    }
}

/// Why a directory gives no file.
pub open spec fn directory_refusal(arg: DirArg) -> Option<Refusal> {
    match arg.listing {
        Listing::Unreadable => Some(Refusal::ReadDir { dir: arg.dir@ }),
        Listing::Interrupted { cause } => Some(Refusal::DirEntry { cause: cause@ }),
        Listing::Entries(_) => if forall|path: NamedPath| !#[trigger] has_csv_file(arg, path) {
            Some(Refusal::NoCsvFiles { dir: arg.dir@ })
        } else {
            None
        },
    }
}

/// Whether an input or the directory gives this path.
pub open spec fn is_given(
    inputs: Seq<InputArg>,
    input_dir: Option<DirArg>,
    path: NamedPath,
) -> bool {
    ||| exists|i: int| 0 <= i < inputs.len() && stands_for(#[trigger] inputs[i], path)
    ||| input_dir is Some && has_csv_file(input_dir->0, path)
}

/// Whether all inputs up to the `n`th stand for files.
pub open spec fn are_accepted(inputs: Seq<InputArg>, n: int) -> bool {
    forall|i: int| 0 <= i < n ==> input_refusal(#[trigger] inputs[i]) is None
}

/// Whether a list of paths gives all that `given` asks for, by text, and nothing else.
spec fn gives(paths: Seq<NamedPath>, given: spec_fn(NamedPath) -> bool) -> bool {
    &&& forall|path: NamedPath| #[trigger] given(path) ==> path_texts(paths).contains(path.text)
    &&& forall|i: int| 0 <= i < paths.len() ==> given(#[trigger] paths[i])
}

proof fn patterns_have_wildcards(input: Seq<char>)
    ensures
        is_pattern(input) == has_wildcard(input),
{
    if has_wildcard(input) {
        let i = choose|i: int|
            0 <= i < input.len() && (#[trigger] input[i] == '*' || input[i] == '?' || input[i]
                == '[');
        assert(input.contains(input[i]));
    }
}

proof fn matches_are_readable(matches: Seq<Option<InputPath>>, n: int)
    requires
        0 <= n <= matches.len(),
    ensures
        gives(readable_paths(matches, n), |path: NamedPath| is_match(matches.take(n), path)),
        readable_paths(matches, n).len() == 0 <==> forall|path: NamedPath| !#[trigger] is_match(
            matches.take(n),
            path,
        ),
    decreases n,
{
    let paths = readable_paths(matches, n);
    let taken = matches.take(n);
    if n > 0 {
        matches_are_readable(matches, n - 1);
        let fewer = readable_paths(matches, n - 1);
        let before = matches.take(n - 1);
        let earlier = |path: NamedPath| is_match(before, path);
        let given = |path: NamedPath| is_match(taken, path);
        assert(gives(fewer, earlier));
        assert forall|path: NamedPath| #[trigger] is_match(before, path) implies is_match(
            taken,
            path,
        ) by {
            let i = choose|i: int|
                0 <= i < before.len() && #[trigger] before[i] is Some && before[i]->0@ == path;
            assert(taken[i] == before[i]);
        }
        assert forall|i: int| 0 <= i < paths.len() implies given(#[trigger] paths[i]) by {
            if i < fewer.len() {
                assert(earlier(fewer[i]));
            } else {
                assert(taken[n - 1] is Some && taken[n - 1]->0@ == paths[i]);
            }
        }
        assert forall|path: NamedPath| #[trigger] given(path) implies path_texts(paths).contains(
            path.text,
        ) by {
            let i = choose|i: int|
                0 <= i < taken.len() && #[trigger] taken[i] is Some && taken[i]->0@ == path;
            if i < n - 1 {
                assert(before[i] == taken[i]);
                assert(earlier(path));
                let k = choose|k: int|
                    0 <= k < path_texts(fewer).len() && path_texts(fewer)[k] == path.text;
                assert(path_texts(paths)[k] == path.text);
            } else {
                assert(path_texts(paths)[paths.len() - 1] == path.text);
            }
        }
        if paths.len() > 0 {
            assert(given(paths[0]));
        } else {
            assert forall|path: NamedPath| !#[trigger] is_match(taken, path) by {
                if is_match(taken, path) {
                    assert(given(path));
                }
            }
        }
    }
}

proof fn entries_are_scanned(entries: Seq<DirEntry>, n: int)
    requires
        0 <= n <= entries.len(),
    ensures
        gives(csv_files(entries, n), |path: NamedPath| is_csv_entry(entries.take(n), path)),
        csv_files(entries, n).len() == 0 <==> forall|path: NamedPath| !#[trigger] is_csv_entry(
            entries.take(n),
            path,
        ),
    decreases n,
{
    let paths = csv_files(entries, n);
    let taken = entries.take(n);
    if n > 0 {
        entries_are_scanned(entries, n - 1);
        let fewer = csv_files(entries, n - 1);
        let before = entries.take(n - 1);
        let earlier = |path: NamedPath| is_csv_entry(before, path);
        let given = |path: NamedPath| is_csv_entry(taken, path);
        assert(gives(fewer, earlier));
        assert forall|path: NamedPath| #[trigger] is_csv_entry(before, path) implies is_csv_entry(
            taken,
            path,
        ) by {
            let i = choose|i: int|
                0 <= i < before.len() && (#[trigger] before[i]).is_file && names_csv(
                    before[i].path.file.bytes@,
                    before[i].path.file.style,
                ) && before[i].path@ == path;
            assert(taken[i] == before[i]);
        }
        assert forall|i: int| 0 <= i < paths.len() implies given(#[trigger] paths[i]) by {
            if i < fewer.len() {
                assert(earlier(fewer[i]));
            } else {
                assert(taken[n - 1].is_file && taken[n - 1].path@ == paths[i]);
            }
        }
        assert forall|path: NamedPath| #[trigger] given(path) implies path_texts(paths).contains(
            path.text,
        ) by {
            let i = choose|i: int|
                0 <= i < taken.len() && (#[trigger] taken[i]).is_file && names_csv(
                    taken[i].path.file.bytes@,
                    taken[i].path.file.style,
                ) && taken[i].path@ == path;
            if i < n - 1 {
                assert(before[i] == taken[i]);
                assert(earlier(path));
                let k = choose|k: int|
                    0 <= k < path_texts(fewer).len() && path_texts(fewer)[k] == path.text;
                assert(path_texts(paths)[k] == path.text);
            } else {
                assert(path_texts(paths)[paths.len() - 1] == path.text);
            }
        }
        if paths.len() > 0 {
            assert(given(paths[0]));
        } else {
            assert forall|path: NamedPath| !#[trigger] is_csv_entry(taken, path) by {
                if is_csv_entry(taken, path) {
                    assert(given(path));
                }
            }
        }
    }
}

/// Sorting loses no text and adds no path.
proof fn sorting_gives_the_same(paths: Seq<NamedPath>, given: spec_fn(NamedPath) -> bool)
    requires
        gives(paths, given),
    ensures
        gives(sorted_distinct(paths), given),
        paths.len() > 0 ==> sorted_distinct(paths).len() > 0,
{
    let sorted = sorted_distinct(paths);
    sorted_distinct_holds(paths);
    assert forall|path: NamedPath| #[trigger] given(path) implies path_texts(sorted).contains(
        path.text,
    ) by {
        let k = choose|k: int|
            0 <= k < path_texts(paths).len() && path_texts(paths)[k] == path.text;
        assert(path_texts(sorted).contains(paths[k].text));
    }
    assert forall|i: int| 0 <= i < sorted.len() implies given(#[trigger] sorted[i]) by {
        assert(is_first_of(paths, sorted[i]));
        let k = choose|k: int| #[trigger] is_first(paths, k) && paths[k] == sorted[i];
        assert(given(paths[k]));
    }
    if paths.len() > 0 {
        assert(path_texts(sorted).contains(paths[0].text));
    }
}

proof fn input_gives_its_files(arg: InputArg)
    ensures
        match expansion(arg.input@, arg.lookup) {
            Err(refusal) => input_refusal(arg) == Some(refusal),
            Ok(paths) => input_refusal(arg) is None && paths.len() > 0 && gives(
                paths,
                |path: NamedPath| stands_for(arg, path),
            ),
        },
{
    let given = |path: NamedPath| stands_for(arg, path);
    patterns_have_wildcards(arg.input@);
    if has_wildcard(arg.input@) {
        if arg.lookup.matches is Some {
            let matches = arg.lookup.matches->0@;
            let n = matches.len() as int;
            matches_are_readable(matches, n);
            assert(matches.take(n) =~= matches);
            let paths = readable_paths(matches, n);
            let matched = |path: NamedPath| is_match(matches, path);
            assert(gives(paths, matched));
            assert forall|path: NamedPath| #[trigger] given(path) == matched(path) by {}
            assert(gives(paths, given)) by {
                assert forall|path: NamedPath| #[trigger] given(path) implies path_texts(
                    paths,
                ).contains(path.text) by {
                    assert(matched(path));
                }
                assert forall|i: int| 0 <= i < paths.len() implies given(#[trigger] paths[i]) by {
                    assert(matched(paths[i]));
                }
            }
            sorting_gives_the_same(paths, given);
            if paths.len() == 0 {
                assert forall|path: NamedPath| !#[trigger] stands_for(arg, path) by {
                    assert(!is_match(matches, path));
                }
            } else {
                assert(given(paths[0]));
                assert(stands_for(arg, paths[0]));
            }
        }
    } else if arg.lookup.kind is File {
        let paths = seq![arg.lookup.kind->File_0@];
        assert forall|path: NamedPath| #[trigger] given(path) implies path_texts(paths).contains(
            path.text,
        ) by {
            assert(path_texts(paths)[0] == path.text);
        }
    }
}

proof fn directory_gives_its_files(arg: DirArg)
    ensures
        match directory_files(arg.dir@, arg.listing) {
            Err(refusal) => directory_refusal(arg) == Some(refusal),
            Ok(paths) => directory_refusal(arg) is None && paths.len() > 0 && gives(
                paths,
                |path: NamedPath| has_csv_file(arg, path),
            ),
        },
{
    let given = |path: NamedPath| has_csv_file(arg, path);
    if arg.listing is Entries {
        let entries = arg.listing->Entries_0@;
        let n = entries.len() as int;
        entries_are_scanned(entries, n);
        assert(entries.take(n) =~= entries);
        let paths = csv_files(entries, n);
        let scanned = |path: NamedPath| is_csv_entry(entries, path);
        assert(gives(paths, scanned));
        assert(gives(paths, given)) by {
            assert forall|path: NamedPath| #[trigger] given(path) implies path_texts(
                paths,
            ).contains(path.text) by {
                assert(scanned(path));
            }
            assert forall|i: int| 0 <= i < paths.len() implies given(#[trigger] paths[i]) by {
                assert(scanned(paths[i]));
            }
        }
        sorting_gives_the_same(paths, given);
        if paths.len() == 0 {
            assert forall|path: NamedPath| !#[trigger] has_csv_file(arg, path) by {
                assert(!is_csv_entry(entries, path));
            }
        } else {
            assert(given(paths[0]));
            assert(has_csv_file(arg, paths[0]));
        }
    }
}

/// Whether one of the first `n` inputs stands for this path.
spec fn is_input(inputs: Seq<InputArg>, n: int, path: NamedPath) -> bool {
    exists|i: int| 0 <= i < n && stands_for(#[trigger] inputs[i], path)
}

proof fn inputs_give_their_files(inputs: Seq<InputArg>, n: int)
    requires
        0 <= n <= inputs.len(),
        are_accepted(inputs, n),
    ensures
        expansions(inputs, n) is Ok,
        gives(expansions(inputs, n)->Ok_0, |path: NamedPath| is_input(inputs, n, path)),
        n > 0 ==> expansions(inputs, n)->Ok_0.len() > 0,
    decreases n,
{
    if n > 0 {
        inputs_give_their_files(inputs, n - 1);
        let arg = inputs[n - 1];
        input_gives_its_files(arg);
        assert(input_refusal(inputs[n - 1]) is None);
        let before = expansions(inputs, n - 1)->Ok_0;
        let more = expansion(arg.input@, arg.lookup)->Ok_0;
        let earlier = |path: NamedPath| is_input(inputs, n - 1, path);
        let own = |path: NamedPath| stands_for(arg, path);
        let given = |path: NamedPath| is_input(inputs, n, path);
        assert(gives(before, earlier) && gives(more, own));
        joined_lists_give_both(before, earlier, more, own);
        assert forall|path: NamedPath| #[trigger] given(path) implies path_texts(
            before + more,
        ).contains(path.text) by {
            let i = choose|i: int| 0 <= i < n && stands_for(#[trigger] inputs[i], path);
            if i < n - 1 {
                assert(stands_for(inputs[i], path));
                assert(earlier(path));
            } else {
                assert(own(path));
            }
        }
        assert forall|i: int| 0 <= i < (before + more).len() implies given(
            #[trigger] (before + more)[i],
        ) by {
            let path = (before + more)[i];
            if earlier(path) {
                let k = choose|k: int| 0 <= k < n - 1 && stands_for(#[trigger] inputs[k], path);
                assert(stands_for(inputs[k], path));
            } else {
                assert(own(path));
                assert(stands_for(inputs[n - 1], path));
            }
        }
    }
}

proof fn joined_lists_give_both(
    first: Seq<NamedPath>,
    of_first: spec_fn(NamedPath) -> bool,
    second: Seq<NamedPath>,
    of_second: spec_fn(NamedPath) -> bool,
)
    requires
        gives(first, of_first),
        gives(second, of_second),
    ensures
        forall|path: NamedPath| #[trigger]
            of_first(path) ==> path_texts(first + second).contains(path.text),
        forall|path: NamedPath| #[trigger]
            of_second(path) ==> path_texts(first + second).contains(path.text),
        forall|i: int|
            0 <= i < (first + second).len() ==> of_first(#[trigger] (first + second)[i])
                || of_second((first + second)[i]),
{
    let both = first + second;
    assert forall|path: NamedPath| #[trigger] of_first(path) implies path_texts(both).contains(
        path.text,
    ) by {
        let k = choose|k: int|
            0 <= k < path_texts(first).len() && path_texts(first)[k] == path.text;
        assert(path_texts(both)[k] == path.text);
    }
    assert forall|path: NamedPath| #[trigger] of_second(path) implies path_texts(both).contains(
        path.text,
    ) by {
        let k = choose|k: int|
            0 <= k < path_texts(second).len() && path_texts(second)[k] == path.text;
        assert(path_texts(both)[first.len() + k] == path.text);
    }
    assert forall|i: int| 0 <= i < both.len() implies of_first(#[trigger] both[i]) || of_second(
        both[i],
    ) by {
        if i < first.len() {
            assert(of_first(first[i]));
        } else {
            assert(of_second(second[i - first.len()]));
        }
    }
}

proof fn refused_input_ends_the_search(inputs: Seq<InputArg>, k: int, n: int)
    requires
        0 <= k < n <= inputs.len(),
        are_accepted(inputs, k),
        input_refusal(inputs[k]) is Some,
    ensures
        expansions(inputs, n) == Err::<Seq<NamedPath>, Refusal>(input_refusal(inputs[k])->0),
    decreases n,
{
    if n == k + 1 {
        inputs_give_their_files(inputs, k);
        input_gives_its_files(inputs[k]);
    } else {
        refused_input_ends_the_search(inputs, k, n - 1);
    }
}

/// The first input that stands for no file is reported, and says why; then the directory, if it
/// gives no file; and where neither inputs nor a directory are there, that is reported.
pub proof fn the_first_refusal_is_reported(
    inputs: Seq<InputArg>,
    input_dir: Option<DirArg>,
    k: int,
)
    ensures
        0 <= k < inputs.len() && are_accepted(inputs, k) && input_refusal(inputs[k]) is Some
            ==> resolution(inputs, input_dir) == Err::<Seq<NamedPath>, Refusal>(
            input_refusal(inputs[k])->0,
        ),
        are_accepted(inputs, inputs.len() as int) && input_dir is Some && directory_refusal(
            input_dir->0,
        ) is Some ==> resolution(inputs, input_dir) == Err::<Seq<NamedPath>, Refusal>(
            directory_refusal(input_dir->0)->0,
        ),
        inputs.len() == 0 && input_dir is None ==> resolution(inputs, input_dir) == Err::<
            Seq<NamedPath>,
            Refusal,
        >(Refusal::NoInputs),
{
    let n = inputs.len() as int;
    if 0 <= k < n && are_accepted(inputs, k) && input_refusal(inputs[k]) is Some {
        refused_input_ends_the_search(inputs, k, n);
    }
    if are_accepted(inputs, n) && input_dir is Some {
        inputs_give_their_files(inputs, n);
        directory_gives_its_files(input_dir->0);
    }
}

/// Where no input is refused and the directory, if one is given, has CSV files, files are found: the
/// file that an input names, the readable matches of a pattern and the CSV files of the directory,
/// whatever else is given. No other path is among them, and each text comes once, in ascending
/// order.
pub proof fn all_files_that_are_given_are_found(
    inputs: Seq<InputArg>,
    input_dir: Option<DirArg>,
)
    requires
        are_accepted(inputs, inputs.len() as int),
        input_dir is Some ==> directory_refusal(input_dir->0) is None,
        inputs.len() > 0 || input_dir is Some,
    ensures
        resolution(inputs, input_dir) is Ok,
        ({
            let found = resolution(inputs, input_dir)->Ok_0;
            &&& found.len() > 0
            &&& forall|path: NamedPath| #[trigger]
                is_given(inputs, input_dir, path) ==> exists|i: int|
                    0 <= i < found.len() && (#[trigger] found[i]).text == path.text
            &&& forall|i: int|
                0 <= i < found.len() ==> is_given(inputs, input_dir, #[trigger] found[i])
            &&& forall|i: int, j: int|
                0 <= i < j < found.len() ==> text_lt(
                    (#[trigger] found[i]).text,
                    (#[trigger] found[j]).text,
                )
        }),
{
    let n = inputs.len() as int;
    let given = |path: NamedPath| is_given(inputs, input_dir, path);
    let of_inputs = |path: NamedPath| is_input(inputs, n, path);
    inputs_give_their_files(inputs, n);
    let before = expansions(inputs, n)->Ok_0;
    assert(gives(before, of_inputs));
    let all = if input_dir is Some {
        let dir = input_dir->0;
        directory_gives_its_files(dir);
        let more = directory_files(dir.dir@, dir.listing)->Ok_0;
        let of_dir = |path: NamedPath| has_csv_file(dir, path);
        assert(gives(more, of_dir));
        joined_lists_give_both(before, of_inputs, more, of_dir);
        assert forall|path: NamedPath| #[trigger] given(path) implies path_texts(
            before + more,
        ).contains(path.text) by {
            assert(of_inputs(path) || of_dir(path));
        }
        assert forall|i: int| 0 <= i < (before + more).len() implies given(
            #[trigger] (before + more)[i],
        ) by {
            assert(of_inputs((before + more)[i]) || of_dir((before + more)[i]));
        }
        before + more
    } else {
        assert forall|path: NamedPath| #[trigger] given(path) implies path_texts(before).contains(
            path.text,
        ) by {
            assert(of_inputs(path));
        }
        assert forall|i: int| 0 <= i < before.len() implies given(#[trigger] before[i]) by {
            assert(of_inputs(before[i]));
        }
        before
    };
    assert(gives(all, given));
    sorting_gives_the_same(all, given);
    sorted_distinct_holds(all);
    let found = sorted_distinct(all);
    assert forall|path: NamedPath| #[trigger] is_given(inputs, input_dir, path) implies exists|
        i: int,
    | 0 <= i < found.len() && (#[trigger] found[i]).text == path.text by {
        assert(given(path));
        let k = choose|k: int|
            0 <= k < path_texts(found).len() && path_texts(found)[k] == path.text;
        assert(found[k].text == path.text);
    }
    assert forall|i: int| 0 <= i < found.len() implies is_given(
        inputs,
        input_dir,
        #[trigger] found[i],
    ) by {
        assert(given(found[i]));
    }
    assert forall|i: int, j: int| 0 <= i < j < found.len() implies text_lt(
        (#[trigger] found[i]).text,
        (#[trigger] found[j]).text,
    ) by {
        assert(text_lt(path_texts(found)[i], path_texts(found)[j]));
    }
}

/// A directory alone gives its files, and an input alone those that it stands for.
pub proof fn one_source_gives_its_own_files(arg: InputArg, dir: DirArg)
    ensures
        resolution(Seq::empty(), Some(dir)) == directory_files(dir.dir@, dir.listing),
        resolution(seq![arg], None) == expansion(arg.input@, arg.lookup),
{
    directory_gives_its_files(dir);
    input_gives_its_files(arg);
    reveal_with_fuel(expansions, 2);
    if directory_files(dir.dir@, dir.listing) is Ok {
        let found = directory_files(dir.dir@, dir.listing)->Ok_0;
        assert(Seq::<NamedPath>::empty() + found =~= found);
        let entries = dir.listing->Entries_0@;
        let paths = csv_files(entries, entries.len() as int);
        sorted_distinct_holds(paths);
        sorted_distinct_is_idempotent(paths, found);
    }
    assert(seq![arg][0] == arg);
    if expansion(arg.input@, arg.lookup) is Ok {
        let found = expansion(arg.input@, arg.lookup)->Ok_0;
        assert(Seq::<NamedPath>::empty() + found =~= found);
        if is_pattern(arg.input@) {
            let matches = arg.lookup.matches->0@;
            let paths = readable_paths(matches, matches.len() as int);
            sorted_distinct_holds(paths);
            sorted_distinct_is_idempotent(paths, found);
        } else {
            single_path_is_sorted(found);
        }
    }
}

proof fn single_path_is_sorted(paths: Seq<NamedPath>)
    requires
        paths.len() == 1,
    ensures
        sorted_distinct(paths) == paths,
{
    assert(is_first(paths, 0));
    assert(is_first_of(paths, paths[0]));
    assert(path_texts(paths)[0] == paths[0].text);
    assert(is_sorted_distinct(paths, paths));
    sorted_distinct_is_idempotent(paths, paths);
}

/// A message names what was refused, as it is.
pub proof fn messages_name_what_was_refused(refusal: Refusal)
    ensures
        match refusal {
            Refusal::InvalidPattern { input } => refusal_text(refusal) == "invalid glob pattern: "@
                + input,
            Refusal::NoMatch { input } => refusal_text(refusal) == "glob pattern matched no files: "@
                + input,
            Refusal::IsDirectory { input } => refusal_text(refusal) == "input '"@ + input
                + "' is a directory; use --input-dir instead"@,
            Refusal::Missing { input } => refusal_text(refusal) == "input file does not exist: "@
                + input,
            Refusal::ReadDir { dir } => refusal_text(refusal) == "read dir "@ + dir,
            Refusal::DirEntry { cause } => refusal_text(refusal) == cause,
            Refusal::NoCsvFiles { dir } => refusal_text(refusal)
                == "no .csv files found in directory: "@ + dir,
            Refusal::NoInputs => refusal_text(refusal)
                == "no input files provided (use --input or --input-dir)"@,
        },
{
}

/// Whether a match is this path, and no earlier one has the same text.
pub open spec fn is_first_match(matches: Seq<Option<InputPath>>, path: NamedPath) -> bool {
    exists|k: int|
        0 <= k < matches.len() && #[trigger] matches[k] is Some && matches[k]->0@ == path
            && forall|j: int|
            0 <= j < k && #[trigger] matches[j] is Some ==> matches[j]->0@.text != path.text
}

/// Whether an entry is that of this CSV file, and no earlier CSV file has the same text.
pub open spec fn is_first_entry(entries: Seq<DirEntry>, path: NamedPath) -> bool {
    exists|k: int|
        0 <= k < entries.len() && (#[trigger] entries[k]).path@ == path && forall|j: int|
            0 <= j < k && (#[trigger] entries[j]).is_file && names_csv(
                entries[j].path.file.bytes@,
                entries[j].path.file.style,
            ) ==> entries[j].path@.text != path.text
}

/// Each readable match comes behind those before it.
proof fn matches_keep_their_order(matches: Seq<Option<InputPath>>, n: int, q: int)
    requires
        0 <= n <= matches.len(),
        is_first(readable_paths(matches, n), q),
    ensures
        is_first_match(matches.take(n), readable_paths(matches, n)[q]),
    decreases n,
{
    let paths = readable_paths(matches, n);
    let taken = matches.take(n);
    let path = paths[q];
    if n > 0 {
        let fewer = readable_paths(matches, n - 1);
        let before = matches.take(n - 1);
        assert forall|i: int| 0 <= i < fewer.len() implies fewer[i] == paths[i] by {}
        if q < fewer.len() {
            assert(is_first(fewer, q)) by {
                assert forall|j: int| 0 <= j < q implies (#[trigger] fewer[j]).text
                    != fewer[q].text by {
                    assert(paths[j].text != paths[q].text);
                }
            }
            matches_keep_their_order(matches, n - 1, q);
            let k = choose|k: int|
                0 <= k < before.len() && #[trigger] before[k] is Some && before[k]->0@ == path
                    && forall|j: int|
                    0 <= j < k && #[trigger] before[j] is Some ==> before[j]->0@.text != path.text;
            assert(taken[k] == before[k]);
            assert forall|j: int| 0 <= j < k && #[trigger] taken[j] is Some implies taken[j]->0@.text
                != path.text by {
                assert(before[j] == taken[j]);
            }
        } else {
            assert(taken[n - 1] is Some && taken[n - 1]->0@ == path);
            matches_are_readable(matches, n - 1);
            let earlier = |other: NamedPath| is_match(before, other);
            assert(gives(fewer, earlier));
            assert forall|j: int| 0 <= j < n - 1 && #[trigger] taken[j] is Some implies taken[
                j
            ]->0@.text != path.text by {
                assert(before[j] == taken[j]);
                let other = taken[j]->0@;
                assert(earlier(other));
                let i = choose|i: int|
                    0 <= i < path_texts(fewer).len() && path_texts(fewer)[i] == other.text;
                assert(paths[i].text == other.text);
            }
        }
    }
}

/// Each CSV file comes behind those before it.
proof fn entries_keep_their_order(entries: Seq<DirEntry>, n: int, q: int)
    requires
        0 <= n <= entries.len(),
        is_first(csv_files(entries, n), q),
    ensures
        is_first_entry(entries.take(n), csv_files(entries, n)[q]),
    decreases n,
{
    let paths = csv_files(entries, n);
    let taken = entries.take(n);
    let path = paths[q];
    if n > 0 {
        let fewer = csv_files(entries, n - 1);
        let before = entries.take(n - 1);
        assert forall|i: int| 0 <= i < fewer.len() implies fewer[i] == paths[i] by {}
        if q < fewer.len() {
            assert(is_first(fewer, q)) by {
                assert forall|j: int| 0 <= j < q implies (#[trigger] fewer[j]).text
                    != fewer[q].text by {
                    assert(paths[j].text != paths[q].text);
                }
            }
            entries_keep_their_order(entries, n - 1, q);
            let k = choose|k: int|
                0 <= k < before.len() && (#[trigger] before[k]).path@ == path && forall|j: int|
                    0 <= j < k && (#[trigger] before[j]).is_file && names_csv(
                        before[j].path.file.bytes@,
                        before[j].path.file.style,
                    ) ==> before[j].path@.text != path.text;
            assert(taken[k] == before[k]);
            assert forall|j: int|
                0 <= j < k && (#[trigger] taken[j]).is_file && names_csv(
                    taken[j].path.file.bytes@,
                    taken[j].path.file.style,
                ) implies taken[j].path@.text != path.text by {
                assert(before[j] == taken[j]);
            }
        } else {
            assert(taken[n - 1].path@ == path);
            entries_are_scanned(entries, n - 1);
            let earlier = |other: NamedPath| is_csv_entry(before, other);
            assert(gives(fewer, earlier));
            assert forall|j: int|
                0 <= j < n - 1 && (#[trigger] taken[j]).is_file && names_csv(
                    taken[j].path.file.bytes@,
                    taken[j].path.file.style,
                ) implies taken[j].path@.text != path.text by {
                assert(before[j] == taken[j]);
                let other = taken[j].path@;
                assert(earlier(other));
                let i = choose|i: int|
                    0 <= i < path_texts(fewer).len() && path_texts(fewer)[i] == other.text;
                assert(paths[i].text == other.text);
            }
        }
    }
}

/// Of several matches of a pattern, or several CSV files of a directory, that are written alike, the
/// first is taken.
pub proof fn the_first_of_equal_texts_is_taken(arg: InputArg, dir: DirArg, i: int)
    ensures
        has_wildcard(arg.input@) && expansion(arg.input@, arg.lookup) is Ok && 0 <= i < expansion(
            arg.input@,
            arg.lookup,
        )->Ok_0.len() ==> is_first_match(
            arg.lookup.matches->0@,
            expansion(arg.input@, arg.lookup)->Ok_0[i],
        ),
        directory_files(dir.dir@, dir.listing) is Ok && 0 <= i < directory_files(
            dir.dir@,
            dir.listing,
        )->Ok_0.len() ==> is_first_entry(
            dir.listing->Entries_0@,
            directory_files(dir.dir@, dir.listing)->Ok_0[i],
        ),
{
    patterns_have_wildcards(arg.input@);
    if has_wildcard(arg.input@) && expansion(arg.input@, arg.lookup) is Ok {
        let matches = arg.lookup.matches->0@;
        let n = matches.len() as int;
        let paths = readable_paths(matches, n);
        let found = expansion(arg.input@, arg.lookup)->Ok_0;
        sorted_distinct_holds(paths);
        if 0 <= i < found.len() {
            assert(is_first_of(paths, found[i]));
            let q = choose|q: int| #[trigger] is_first(paths, q) && paths[q] == found[i];
            matches_keep_their_order(matches, n, q);
            assert(matches.take(n) =~= matches);
        }
    }
    if directory_files(dir.dir@, dir.listing) is Ok {
        let entries = dir.listing->Entries_0@;
        let n = entries.len() as int;
        let paths = csv_files(entries, n);
        let found = directory_files(dir.dir@, dir.listing)->Ok_0;
        sorted_distinct_holds(paths);
        if 0 <= i < found.len() {
            assert(is_first_of(paths, found[i]));
            let q = choose|q: int| #[trigger] is_first(paths, q) && paths[q] == found[i];
            entries_keep_their_order(entries, n, q);
            assert(entries.take(n) =~= entries);
        }
    }
}

/// Whether an input gives this path, and no earlier one gives a path with the same text.
pub open spec fn is_of_first_input(inputs: Seq<InputArg>, path: NamedPath) -> bool {
    exists|a: int|
        0 <= a < inputs.len() && stands_for(#[trigger] inputs[a], path) && forall|
            b: int,
            other: NamedPath,
        |
            0 <= b < a && #[trigger] stands_for(inputs[b], other) ==> other.text != path.text
}

/// Each path of an input comes behind those of the inputs before it.
proof fn inputs_keep_their_order(inputs: Seq<InputArg>, n: int, q: int)
    requires
        0 <= n <= inputs.len(),
        are_accepted(inputs, n),
        expansions(inputs, n) is Ok,
        is_first(expansions(inputs, n)->Ok_0, q),
    ensures
        is_of_first_input(inputs, expansions(inputs, n)->Ok_0[q]),
    decreases n,
{
    let paths = expansions(inputs, n)->Ok_0;
    let path = paths[q];
    if n > 0 {
        inputs_give_their_files(inputs, n - 1);
        let fewer = expansions(inputs, n - 1)->Ok_0;
        let arg = inputs[n - 1];
        input_gives_its_files(arg);
        assert(input_refusal(inputs[n - 1]) is None);
        let more = expansion(arg.input@, arg.lookup)->Ok_0;
        assert(paths == fewer + more);
        if q < fewer.len() {
            assert(is_first(fewer, q)) by {
                assert forall|j: int| 0 <= j < q implies (#[trigger] fewer[j]).text
                    != fewer[q].text by {
                    assert(paths[j].text != paths[q].text);
                }
            }
            inputs_keep_their_order(inputs, n - 1, q);
        } else {
            let own = |other: NamedPath| stands_for(arg, other);
            let earlier = |other: NamedPath| is_input(inputs, n - 1, other);
            assert(gives(more, own) && gives(fewer, earlier));
            assert(own(more[q - fewer.len()]));
            assert(stands_for(inputs[n - 1], path));
            assert forall|b: int, other: NamedPath|
                0 <= b < n - 1 && #[trigger] stands_for(inputs[b], other) implies other.text
                != path.text by {
                assert(earlier(other));
                let i = choose|i: int|
                    0 <= i < path_texts(fewer).len() && path_texts(fewer)[i] == other.text;
                assert(paths[i].text == other.text);
            }
        }
    }
}

/// Of several paths that are written alike, the one of the first input is taken, and that of the
/// directory only where no input gives one.
pub proof fn earlier_inputs_take_precedence(
    inputs: Seq<InputArg>,
    input_dir: Option<DirArg>,
    i: int,
)
    requires
        are_accepted(inputs, inputs.len() as int),
        input_dir is Some ==> directory_refusal(input_dir->0) is None,
        resolution(inputs, input_dir) is Ok,
        0 <= i < resolution(inputs, input_dir)->Ok_0.len(),
    ensures
        ({
            let path = resolution(inputs, input_dir)->Ok_0[i];
            ||| is_of_first_input(inputs, path)
            ||| input_dir is Some && has_csv_file(input_dir->0, path) && forall|
                b: int,
                other: NamedPath,
            |
                0 <= b < inputs.len() && #[trigger] stands_for(inputs[b], other) ==> other.text
                    != path.text
        }),
{
    let n = inputs.len() as int;
    inputs_give_their_files(inputs, n);
    let before = expansions(inputs, n)->Ok_0;
    let of_inputs = |path: NamedPath| is_input(inputs, n, path);
    assert(gives(before, of_inputs));
    let more = if input_dir is Some {
        directory_gives_its_files(input_dir->0);
        directory_files(input_dir->0.dir@, input_dir->0.listing)->Ok_0
    } else {
        Seq::empty()
    };
    let all = before + more;
    assert(input_dir is None ==> all =~= before);
    let found = resolution(inputs, input_dir)->Ok_0;
    sorted_distinct_holds(all);
    assert(found == sorted_distinct(all));
    let path = found[i];
    assert(is_first_of(all, found[i]));
    let q = choose|q: int| #[trigger] is_first(all, q) && all[q] == path;
    if q < before.len() {
        assert(is_first(before, q)) by {
            assert forall|j: int| 0 <= j < q implies (#[trigger] before[j]).text
                != before[q].text by {
                assert(all[j].text != all[q].text);
            }
        }
        inputs_keep_their_order(inputs, n, q);
    } else {
        let of_dir = |path: NamedPath| has_csv_file(input_dir->0, path);
        assert(gives(more, of_dir));
        assert(of_dir(more[q - before.len()]));
        assert forall|b: int, other: NamedPath|
            0 <= b < n && #[trigger] stands_for(inputs[b], other) implies other.text
            != path.text by {
            assert(of_inputs(other));
            let k = choose|k: int|
                0 <= k < path_texts(before).len() && path_texts(before)[k] == other.text;
            assert(all[k].text == other.text);
        }
    }
}

} // verus!
