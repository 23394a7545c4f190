//! What holds of the paths of files in directories.
use vstd::prelude::*;

use crate::path::{
    csv_extension, in_current_directory, is_base_path, is_component, is_extension_dot,
    is_last_component, is_letter, is_parent_directory, is_separator, lacks_extension,
    last_component_is_unique, names_csv, names_no_file, next_separator, no_component, prefix_len,
    shape, with_csv_extension, PathStyle, Shape,
};

verus! {

/// Whether a byte separates the components of a path without a prefix on that platform: `/` on both,
/// and on Windows also `\`.
pub open spec fn is_slash(byte: u8, style: PathStyle) -> bool {
    byte == 47 || (style == PathStyle::Windows && byte == 92)
}

/// Whether a path has no prefix of Windows: no drive, and no two separators first.
pub open spec fn is_plain(path: Seq<u8>, style: PathStyle) -> bool {
    style == PathStyle::Windows && path.len() >= 2 ==> path[1] != 58 && !(is_slash(path[0], style)
        && is_slash(path[1], style))
}

/// Whether this can be the name of a file: not empty, without a separator, and neither `.` nor `..`.
pub open spec fn is_file_name(name: Seq<u8>, style: PathStyle) -> bool {
    &&& name.len() > 0
    &&& forall|i: int| 0 <= i < name.len() ==> !is_slash(#[trigger] name[i], style)
    &&& name != seq![46u8]
    &&& name != seq![46u8, 46u8]
}

/// Whether a name has an extension: a dot that is not its first byte.
pub open spec fn has_extension(name: Seq<u8>) -> bool {
    exists|k: int| 0 < k < name.len() && #[trigger] name[k] == 46
}

/// A name with `.csv` behind it, if it has no extension.
pub open spec fn as_csv(name: Seq<u8>) -> Seq<u8> {
    if has_extension(name) {
        name
    } else {
        name + seq![46u8, 99u8, 115u8, 118u8]
    }
}

/// The last dot of a name, if there is one behind its first byte.
proof fn last_dot(name: Seq<u8>, n: int) -> (k: int)
    requires
        0 <= n <= name.len(),
        exists|k: int| 0 < k < n && #[trigger] name[k] == 46,
    ensures
        0 < k < n,
        name[k] == 46,
        forall|i: int| k < i < n ==> #[trigger] name[i] != 46,
    decreases n,
{
    if name[n - 1] == 46 && n - 1 > 0 {
        n - 1
    } else {
        let k = choose|k: int| 0 < k < n && #[trigger] name[k] == 46;
        assert(0 < k < n - 1 && name[k] == 46);
        last_dot(name, n - 1)
    }
}

proof fn extensions_are_seen(name: Seq<u8>)
    requires
        !names_no_file(name),
    ensures
        lacks_extension(name) <==> !has_extension(name),
{
    if has_extension(name) {
        let k = last_dot(name, name.len() as int);
        assert(is_extension_dot(name, k));
    }
    if !lacks_extension(name) {
        let k = choose|k: int| #[trigger] is_extension_dot(name, k);
        assert(name[k] == 46);
    }
}

proof fn plain_paths_have_plain_shapes(path: Seq<u8>, style: PathStyle)
    requires
        is_plain(path, style),
    ensures
        shape(path, style) == (Shape {
            head: 0,
            rooted: path.len() > 0 && is_slash(path[0], style),
            slash: true,
            backslash: style == PathStyle::Windows,
        }),
        forall|byte: u8| #[trigger]
            shape(path, style).separates(byte) == is_slash(byte, style),
{
}

proof fn file_name_comes_last(path: Seq<u8>, style: PathStyle, start: int)
    requires
        is_plain(path, style),
        0 <= start < path.len(),
        start > 0 ==> is_slash(path[start - 1], style),
        is_file_name(path.skip(start), style),
    ensures
        is_last_component(path, shape(path, style), start, path.len() as int),
        path.subrange(start, path.len() as int) == path.skip(start),
{
    let name = path.skip(start);
    let at = shape(path, style);
    plain_paths_have_plain_shapes(path, style);
    assert forall|i: int| start <= i < path.len() implies !at.separates(#[trigger] path[i]) by {
        assert(name[i - start] == path[i]);
    }
    assert(name[0] == path[start]);
    assert(start == 0 ==> at.body() == 0);
    if path.len() == start + 1 && path[start] == 46 {
        assert(name =~= seq![46u8]);
    }
    assert(is_component(path, at, start, path.len() as int));
    assert forall|s: int, e: int| #[trigger] is_component(path, at, s, e) implies s <= start by {
        if s > start {
            assert(at.separates(path[s - 1]));
        }
    }
    assert(path.subrange(start, path.len() as int) =~= name);
}

/// A file that is asked for by its name alone is written in the current directory, and one that is
/// asked for in a directory is written there; in either case under its name, with `.csv` behind it if
/// it has no extension.
pub proof fn files_are_written_under_their_names(
    directory: Seq<u8>,
    separator: u8,
    name: Seq<u8>,
    style: PathStyle,
    out: Seq<u8>,
)
    requires
        is_slash(separator, style),
        is_file_name(name, style),
    ensures
        is_plain(name, style) && is_base_path(name, style, out) ==> out == seq![
            46u8,
            if style == PathStyle::Windows {
                92u8
            } else {
                47u8
            },
        ] + as_csv(name),
        is_plain(directory.push(separator) + name, style) && is_base_path(
            directory.push(separator) + name,
            style,
            out,
        ) ==> out == directory.push(separator) + as_csv(name),
{
    assert(!names_no_file(name));
    extensions_are_seen(name);
    if is_plain(name, style) && is_base_path(name, style, out) {
        assert(name.skip(0) =~= name);
        file_name_comes_last(name, style, 0);
        let named = with_csv_extension(name, 0, name.len() as int);
        assert(out == in_current_directory(named, style));
        assert(named =~= as_csv(name));
        assert(out =~= seq![
            46u8,
            if style == PathStyle::Windows {
                92u8
            } else {
                47u8
            },
        ] + as_csv(name));
    }
    let path = directory.push(separator) + name;
    let start = directory.len() as int + 1;
    if is_plain(path, style) && is_base_path(path, style, out) {
        assert(path.skip(start) =~= name);
        assert(path[start - 1] == separator);
        file_name_comes_last(path, style, start);
        let named = with_csv_extension(path, start, path.len() as int);
        assert(out == named);
        assert(path.take(path.len() as int) =~= path);
        assert(named =~= directory.push(separator) + as_csv(name));
    }
}

/// Whether a directory ends in a component that counts: it is not empty, its last byte is no
/// separator, and its last component is not `.`, unless that is all there is.
pub open spec fn is_directory_name(directory: Seq<u8>, style: PathStyle) -> bool {
    let n = directory.len() as int;
    &&& n > 0
    &&& !is_slash(directory[n - 1], style)
    &&& directory[n - 1] == 46 && n > 1 ==> !is_slash(directory[n - 2], style)
}

/// The directory of a file is what stands before its name and the separator.
pub proof fn parent_is_the_directory(
    directory: Seq<u8>,
    separator: u8,
    name: Seq<u8>,
    style: PathStyle,
    parent: Option<Seq<u8>>,
)
    requires
        is_slash(separator, style),
        is_file_name(name, style),
        is_directory_name(directory, style),
        is_plain(directory.push(separator) + name, style),
        is_parent_directory(directory.push(separator) + name, style, parent),
    ensures
        parent == Some(directory),
{
    let path = directory.push(separator) + name;
    let start = directory.len() as int + 1;
    let n = directory.len() as int;
    let at = shape(path, style);
    assert(path.skip(start) =~= name);
    assert(path[start - 1] == separator);
    assert(directory[n - 1] == path[n - 1]);
    file_name_comes_last(path, style, start);
    plain_paths_have_plain_shapes(path, style);
    let before = path.take(start);
    assert(path.take(n) =~= directory);
    if n == 1 && directory[0] == 46 {
        assert forall|s: int, e: int| !#[trigger] is_component(before, at, s, e) by {
            if is_component(before, at, s, e) {
                assert(before[0] == 46 && at.separates(before[1]));
                if e == 2 {
                    assert(!at.separates(before[1]));
                }
            }
        }
        assert(no_component(before, at));
        assert(path.take(1) =~= directory);
    } else {
        let s = component_start(before, at, n);
        assert(before[n - 1] == directory[n - 1]);
        if s == n - 1 && before[s] == 46 {
            if n > 1 {
                assert(before[n - 2] == directory[n - 2]);
            }
        }
        assert(at.separates(before[n]));
        assert(is_component(before, at, s, n));
        assert forall|a: int, b: int| #[trigger] is_component(before, at, a, b) implies a <= s by {
            if a > s {
                assert(at.separates(before[a - 1]));
                if a <= n {
                    assert(!at.separates(before[a - 1]));
                }
            }
        }
        assert(is_last_component(before, at, s, n));
    }
}

/// Where the component that ends at `n` starts.
proof fn component_start(path: Seq<u8>, at: Shape, n: int) -> (start: int)
    requires
        at.body() <= n <= path.len(),
    ensures
        at.body() <= start <= n,
        forall|i: int| start <= i < n ==> !at.separates(#[trigger] path[i]),
        start == at.body() || at.separates(path[start - 1]),
    decreases n - at.body(),
{
    if n == at.body() || at.separates(path[n - 1]) {
        n
    } else {
        component_start(path, at, n - 1)
    }
}

/// A file counts as a CSV file exactly if its name ends in `.csv` and has more before that.
pub proof fn csv_files_end_in_csv(
    directory: Seq<u8>,
    separator: u8,
    name: Seq<u8>,
    style: PathStyle,
)
    requires
        is_slash(separator, style),
        is_file_name(name, style),
    ensures
        is_plain(name, style) ==> (names_csv(name, style) <==> name.len() > 4 && name.skip(
            name.len() - 4,
        ) == seq![46u8, 99u8, 115u8, 118u8]),
        is_plain(directory.push(separator) + name, style) ==> (names_csv(
            directory.push(separator) + name,
            style,
        ) <==> name.len() > 4 && name.skip(name.len() - 4) == seq![46u8, 99u8, 115u8, 118u8]),
{
    assert(name.skip(0) =~= name);
    if is_plain(name, style) {
        name_tells_csv(name, style, 0);
    }
    let path = directory.push(separator) + name;
    let start = directory.len() as int + 1;
    assert(path.skip(start) =~= name);
    assert(path[start - 1] == separator);
    if is_plain(path, style) {
        name_tells_csv(path, style, start);
    }
}

proof fn name_tells_csv(path: Seq<u8>, style: PathStyle, start: int)
    requires
        is_plain(path, style),
        0 <= start < path.len(),
        start > 0 ==> is_slash(path[start - 1], style),
        is_file_name(path.skip(start), style),
    ensures
        ({
            let name = path.skip(start);
            names_csv(path, style) <==> name.len() > 4 && name.skip(name.len() - 4) == seq![
                46u8,
                99u8,
                115u8,
                118u8,
            ]
        }),
{
    let name = path.skip(start);
    let at = shape(path, style);
    let end = path.len() as int;
    file_name_comes_last(path, style, start);
    let n = name.len() as int;
    let ending = seq![46u8, 99u8, 115u8, 118u8];
    if names_csv(path, style) {
        let (s, e, k) = choose|s: int, e: int, k: int|
            is_last_component(path, at, s, e) && #[trigger] is_extension_dot(
                path.subrange(s, e),
                k,
            ) && path.subrange(s, e).skip(k + 1) == csv_extension();
        last_component_is_unique(path, at, s, e, start, end);
        assert(name.skip(k + 1).len() == 3);
        assert(name.skip(k + 1)[0] == 99 && name.skip(k + 1)[1] == 115 && name.skip(k + 1)[2]
            == 118);
        assert(name.skip(n - 4) =~= ending);
    }
    if n > 4 && name.skip(n - 4) == ending {
        let last = name.skip(n - 4);
        assert(last[0] == name[n - 4] && last[1] == name[n - 3] && last[2] == name[n - 2]
            && last[3] == name[n - 1]);
        assert(is_extension_dot(name, n - 4));
        assert(name.skip(n - 3) =~= csv_extension());
        assert(is_extension_dot(path.subrange(start, end), n - 4));
    }
}

/// A file that is asked for behind a prefix of Windows, or behind any directory, is written there,
/// under its name, with `.csv` behind it if it has no extension.
pub proof fn files_are_written_behind_their_prefix(
    path: Seq<u8>,
    style: PathStyle,
    start: int,
    out: Seq<u8>,
)
    requires
        shape(path, style).body() <= start < path.len(),
        0 < start,
        start == shape(path, style).body() || shape(path, style).separates(path[start - 1]),
        forall|i: int|
            start <= i < path.len() ==> !shape(path, style).separates(#[trigger] path[i]),
        path.skip(start) != seq![46u8],
        path.skip(start) != seq![46u8, 46u8],
        is_base_path(path, style, out),
    ensures
        out == path.take(start) + as_csv(path.skip(start)),
{
    let at = shape(path, style);
    let name = path.skip(start);
    let end = path.len() as int;
    assert(name[0] == path[start]);
    if end == start + 1 && path[start] == 46 {
        assert(name =~= seq![46u8]);
    }
    assert(is_component(path, at, start, end));
    assert forall|s: int, e: int| #[trigger] is_component(path, at, s, e) implies s <= start by {
        if s > start {
            assert(at.separates(path[s - 1]));
        }
    }
    assert(is_last_component(path, at, start, end));
    assert(path.subrange(start, end) =~= name);
    extensions_are_seen(name);
    assert(path.take(end) =~= path);
    assert(out =~= path.take(start) + as_csv(name));
}

proof fn next_separator_is_at(path: Seq<u8>, from: int, at: int, slash: bool)
    requires
        0 <= from <= at <= path.len(),
        forall|i: int|
            from <= i < at ==> #[trigger] path[i] != 92 && !(slash && path[i] == 47),
        at < path.len() ==> path[at] == 92 || (slash && path[at] == 47),
    ensures
        next_separator(path, from, slash) == at,
    decreases at - from,
{
    if from < at {
        assert(path[from] != 92 && !(slash && path[from] == 47));
        next_separator_is_at(path, from + 1, at, slash);
    }
}

/// Whether something that follows a prefix starts with a separator, if it is there.
pub open spec fn starts_anew(rest: Seq<u8>) -> bool {
    rest.len() > 0 ==> is_separator(rest[0])
}

/// Whether a part of a prefix is there and holds no separator.
pub open spec fn is_prefix_part(part: Seq<u8>) -> bool {
    part.len() > 0 && forall|i: int| 0 <= i < part.len() ==> !is_separator(#[trigger] part[i])
}

/// The prefixes of Windows paths are a drive, a share of a server, a device, and after `\\?\` a
/// drive, a share or any name; a path that starts with none of them has none.
pub proof fn prefixes_are_drives_shares_and_devices(
    first: Seq<u8>,
    second: Seq<u8>,
    rest: Seq<u8>,
    letter: u8,
)
    ensures
        is_letter(letter) ==> prefix_len(seq![letter, 58u8] + rest) == 2,
        is_letter(letter) && starts_anew(rest) ==> prefix_len(
            seq![92u8, 92u8, 63u8, 92u8, letter, 58u8] + rest,
        ) == 6,
        is_prefix_part(first) && is_prefix_part(second) && starts_anew(rest) && first != seq![46u8]
            && first != seq![63u8] ==> prefix_len(
            seq![92u8, 92u8] + first + seq![92u8] + second + rest,
        ) == first.len() + second.len() + 3,
        is_prefix_part(first) && starts_anew(rest) ==> prefix_len(
            seq![92u8, 92u8, 46u8, 92u8] + first + rest,
        ) == first.len() + 4,
        is_prefix_part(first) && is_prefix_part(second) && (rest.len() > 0 ==> rest[0] == 92)
            ==> prefix_len(
            seq![92u8, 92u8, 63u8, 92u8, 85u8, 78u8, 67u8, 92u8] + first + seq![92u8] + second
                + rest,
        ) == first.len() + second.len() + 9,
        first.len() > 0 && !is_separator(first[0]) && !(first.len() > 1 && first[1] == 58)
            ==> prefix_len(first) == 0,
{
    let n = first.len() as int;
    let m = second.len() as int;
    let drive = seq![letter, 58u8] + rest;
    assert(drive[0] == letter && drive[1] == 58);
    if is_letter(letter) && starts_anew(rest) {
        let path = seq![92u8, 92u8, 63u8, 92u8, letter, 58u8] + rest;
        assert(path[0] == 92 && path[1] == 92 && path[2] == 63 && path[3] == 92 && path[4]
            == letter && path[5] == 58);
        if rest.len() > 0 {
            assert(path[6] == rest[0]);
        }
    }
    if is_prefix_part(first) && is_prefix_part(second) && starts_anew(rest) && first != seq![46u8]
        && first != seq![63u8] {
        let path = seq![92u8, 92u8] + first + seq![92u8] + second + rest;
        assert(path[0] == 92 && path[1] == 92 && path[2] == first[0]);
        assert forall|i: int| 2 <= i < n + 2 implies #[trigger] path[i] == first[i - 2] by {}
        assert forall|i: int| n + 3 <= i < n + m + 3 implies #[trigger] path[i] == second[i - n
            - 3] by {}
        assert(path[n + 2] == 92);
        if rest.len() > 0 {
            assert(path[n + m + 3] == rest[0]);
        }
        if n == 1 {
            assert(first =~= seq![first[0]]);
        } else {
            assert(path[3] == first[1]);
        }
        next_separator_is_at(path, 2, n + 2, true);
        next_separator_is_at(path, n + 3, n + m + 3, true);
    }
    if is_prefix_part(first) && starts_anew(rest) {
        let path = seq![92u8, 92u8, 46u8, 92u8] + first + rest;
        assert(path[0] == 92 && path[1] == 92 && path[2] == 46 && path[3] == 92);
        assert forall|i: int| 4 <= i < n + 4 implies #[trigger] path[i] == first[i - 4] by {}
        if rest.len() > 0 {
            assert(path[n + 4] == rest[0]);
        }
        next_separator_is_at(path, 4, n + 4, true);
    }
    if is_prefix_part(first) && is_prefix_part(second) && (rest.len() > 0 ==> rest[0] == 92) {
        let path = seq![92u8, 92u8, 63u8, 92u8, 85u8, 78u8, 67u8, 92u8] + first + seq![92u8]
            + second + rest;
        assert(path[0] == 92 && path[1] == 92 && path[2] == 63 && path[3] == 92 && path[4] == 85
            && path[5] == 78 && path[6] == 67 && path[7] == 92);
        assert forall|i: int| 8 <= i < n + 8 implies #[trigger] path[i] == first[i - 8] by {}
        assert forall|i: int| n + 9 <= i < n + m + 9 implies #[trigger] path[i] == second[i - n
            - 9] by {}
        assert(path[n + 8] == 92);
        if rest.len() > 0 {
            assert(path[n + m + 9] == rest[0]);
        }
        next_separator_is_at(path, 8, n + 8, false);
        next_separator_is_at(path, n + 9, n + m + 9, false);
    }
}

} // verus!
