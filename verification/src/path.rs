//! File paths as bytes, by the rules of the platform that they are for.
//!
//! A path is read the way `std::path` reads it: repeated and trailing separators count for nothing,
//! and so do `.` components. On Unix `/` separates components. On Windows `/` and `\` do, and a
//! path may start with a prefix, such as `C:` or `\\server\share`; behind a prefix that starts
//! with `\\?\` only `\` separates, and `.` is a component.
use vstd::prelude::*;

verus! {

/// The byte that separates components on Unix.
pub const SLASH: u8 = 47;

/// The other byte that separates components on Windows.
pub const BACKSLASH: u8 = 92;

/// The byte that introduces an extension.
pub const DOT: u8 = 46;

/// The byte behind the letter of a drive.
pub const COLON: u8 = 58;

/// The platform by whose rules a path is read.
#[derive(Clone, Copy, Debug, PartialEq, Eq, Structural)]
pub enum PathStyle {
    Unix,
    Windows,
}

/// The path of a file, and the platform that it is for.
#[derive(Debug, PartialEq, Eq)]
pub struct FilePath {
    pub bytes: Vec<u8>,
    pub style: PathStyle,
}

impl Clone for FilePath {
    fn clone(&self) -> (path: FilePath)
        ensures
            path.bytes@ == self.bytes@,
            path.style == self.style,
    {
        let bytes = self.bytes.clone();
        assert(bytes@ =~= self.bytes@);
        FilePath { bytes, style: self.style }
    }
}

/// How a path is made up.
pub struct Shape {
    /// The length of the prefix.
    pub head: int,
    /// Whether a separator follows the prefix.
    pub rooted: bool,
    /// Whether `/` separates components.
    pub slash: bool,
    /// Whether `\` separates components.
    pub backslash: bool,
}

impl Shape {
    /// Whether this byte separates components.
    pub open spec fn separates(self, byte: u8) -> bool {
        (self.slash && byte == SLASH) || (self.backslash && byte == BACKSLASH)
    }

    /// Where the components start.
    pub open spec fn body(self) -> int {
        if self.rooted {
            self.head + 1
        } else {
            self.head
        }
    }
}

/// Whether some platform takes this byte for a separator.
pub open spec fn is_separator(byte: u8) -> bool {
    byte == SLASH || byte == BACKSLASH
}

/// Whether this byte is an ASCII letter.
pub open spec fn is_letter(byte: u8) -> bool {
    65 <= byte <= 90 || 97 <= byte <= 122
}

/// The first position from `from` on at which a separator stands, or else the end of `path`;
/// `slash` says whether `/` is a separator.
pub open spec fn next_separator(path: Seq<u8>, from: int, slash: bool) -> int
    decreases path.len() - from,
{
    if from >= path.len() {
        path.len() as int
    } else if path[from] == BACKSLASH || (slash && path[from] == SLASH) {
        from
    } else {
        next_separator(path, from + 1, slash)
    }
}

/// Whether `path` starts with the `\\?\` of a verbatim prefix.
pub open spec fn is_verbatim(path: Seq<u8>) -> bool {
    path.len() >= 4 && path[0] == BACKSLASH && path[1] == BACKSLASH && path[2] == 63 && path[3]
        == BACKSLASH
}

/// The length of a verbatim prefix: `\\?\UNC\server\share`, `\\?\C:` or `\\?\name`.
pub open spec fn verbatim_prefix_len(path: Seq<u8>) -> int {
    if path.len() >= 8 && path[4] == 85 && path[5] == 78 && path[6] == 67 && is_separator(path[7]) {
        let server = next_separator(path, 8, false);
        let share = next_separator(path, server + 1, false);
        if share > server + 1 {
            share
        } else {
            server
        }
    } else if path.len() >= 6 && is_letter(path[4]) && path[5] == COLON && (path.len() == 6
        || is_separator(path[6])) {
        6
    } else {
        next_separator(path, 4, false)
    }
}

/// The length of the prefix of a Windows path: a verbatim one, `\\.\device`, `\\server\share` or
/// `C:`, or none.
pub open spec fn prefix_len(path: Seq<u8>) -> int {
    if path.len() >= 2 && is_separator(path[0]) && is_separator(path[1]) {
        if is_verbatim(path) {
            verbatim_prefix_len(path)
        } else if path.len() >= 4 && path[2] == DOT && is_separator(path[3]) {
            next_separator(path, 4, true)
        } else {
            let server = next_separator(path, 2, true);
            let share = next_separator(path, server + 1, true);
            if server > 2 && share > server + 1 {
                share
            } else {
                0
            }
        }
    } else if path.len() >= 2 && is_letter(path[0]) && path[1] == COLON {
        2
    } else {
        0
    }
}

/// How a path is made up by the rules of that platform.
pub open spec fn shape(path: Seq<u8>, style: PathStyle) -> Shape {
    match style {
        PathStyle::Unix => Shape {
            head: 0,
            rooted: path.len() > 0 && path[0] == SLASH,
            slash: true,
            backslash: false,
        },
        PathStyle::Windows => Shape {
            head: prefix_len(path),
            rooted: prefix_len(path) < path.len() && is_separator(path[prefix_len(path)]),
            slash: !is_verbatim(path),
            backslash: true,
        },
    }
}

/// Whether `path[start..end]` is a maximal run of bytes without a separator.
pub open spec fn is_segment(path: Seq<u8>, shape: Shape, start: int, end: int) -> bool {
    &&& shape.body() <= start <= end <= path.len()
    &&& forall|i: int| start <= i < end ==> !shape.separates(#[trigger] path[i])
    &&& start == shape.body() || shape.separates(path[start - 1])
    &&& end == path.len() || shape.separates(path[end])
}

/// Whether `path[start..end]` is a component other than the prefix and the root. `.` is one only
/// where `/` does not separate.
pub open spec fn is_component(path: Seq<u8>, shape: Shape, start: int, end: int) -> bool {
    &&& is_segment(path, shape, start, end)
    &&& start < end
    &&& !(shape.slash && end == start + 1 && path[start] == DOT)
}

/// Whether `path[start..end]` is the last such component of `path`.
pub open spec fn is_last_component(path: Seq<u8>, shape: Shape, start: int, end: int) -> bool {
    &&& is_component(path, shape, start, end)
    &&& forall|s: int, e: int| #[trigger] is_component(path, shape, s, e) ==> s <= start
}

/// Whether `path` has no such component.
pub open spec fn no_component(path: Seq<u8>, shape: Shape) -> bool {
    forall|s: int, e: int| !#[trigger] is_component(path, shape, s, e)
}

/// Whether `component` names this directory or the parent directory, and so no file.
pub open spec fn names_no_file(component: Seq<u8>) -> bool {
    component == seq![DOT] || component == seq![DOT, DOT]
}

/// Whether the extension of a file of this name starts behind the dot at `k`: the last dot, which
/// is not the first byte.
pub open spec fn is_extension_dot(name: Seq<u8>, k: int) -> bool {
    &&& 0 < k < name.len()
    &&& name[k] == DOT
    &&& forall|i: int| k < i < name.len() ==> #[trigger] name[i] != DOT
    &&& !names_no_file(name)
}

/// Whether a file of this name has no extension.
pub open spec fn lacks_extension(name: Seq<u8>) -> bool {
    forall|k: int| !#[trigger] is_extension_dot(name, k)
}

/// The extension `csv`.
pub open spec fn csv_extension() -> Seq<u8> {
    seq![99u8, 115u8, 118u8]
}

/// `path`, whose last component is `path[start..end]`, with the extension `csv` if that component
/// is a file name without an extension. What follows the file name is then dropped.
pub open spec fn with_csv_extension(path: Seq<u8>, start: int, end: int) -> Seq<u8> {
    let name = path.subrange(start, end);
    if !names_no_file(name) && lacks_extension(name) {
        path.take(end) + seq![DOT] + csv_extension()
    } else {
        path
    }
}

/// The separator that a platform writes.
pub open spec fn main_separator(style: PathStyle) -> u8 {
    match style {
        PathStyle::Unix => SLASH,
        PathStyle::Windows => BACKSLASH,
    }
}

/// `path` inside the current directory.
pub open spec fn in_current_directory(path: Seq<u8>, style: PathStyle) -> Seq<u8> {
    seq![DOT, main_separator(style)] + path
}

/// Whether `out` is the path of the file that is written when `path` is asked for: an extension is
/// there, and so is a directory, `.` if nothing stands before the last component.
pub open spec fn is_base_path(path: Seq<u8>, style: PathStyle, out: Seq<u8>) -> bool {
    &&& forall|start: int, end: int| #[trigger]
        is_last_component(path, shape(path, style), start, end) ==> out == {
            let named = with_csv_extension(path, start, end);
            if start == 0 {
                in_current_directory(named, style)
            } else {
                named
            }
        }
    &&& no_component(path, shape(path, style)) ==> out == (if shape(path, style).body() > 0 {
        path
    } else {
        in_current_directory(path, style)
    })
}

/// The part of a path before its first component: prefix and root, or else prefix and a `.`, if
/// something stands there before the component at `start`.
pub open spec fn base_len(shape: Shape, start: int) -> int {
    if !shape.rooted && start > shape.body() {
        shape.body() + 1
    } else {
        shape.body()
    }
}

/// Whether `parent` is the directory that holds the last component of `path`: what stands before
/// it, without trailing separators and `.` components, or `None` where nothing does. The `.` that
/// follows a drive, as in `C:.`, is held by the drive.
pub open spec fn is_parent_directory(
    path: Seq<u8>,
    style: PathStyle,
    parent: Option<Seq<u8>>,
) -> bool {
    let shape = shape(path, style);
    &&& no_component(path, shape) ==> parent == if 0 < shape.head < path.len() && !shape.rooted {
        Some(path.take(shape.head))
    } else {
        None
    }
    &&& forall|start: int, end: int| #[trigger]
        is_last_component(path, shape, start, end) ==> {
            &&& start == 0 ==> parent is None
            &&& start > 0 ==> parent is Some
            &&& start > 0 && no_component(path.take(start), shape) ==> parent == Some(
                path.take(base_len(shape, start)),
            )
            &&& forall|s: int, e: int| #[trigger]
                is_last_component(path.take(start), shape, s, e) ==> parent == Some(path.take(e))
        }
}

/// How a path is made up, with lengths as machine integers.
#[derive(Clone, Copy)]
struct Layout {
    head: usize,
    rooted: bool,
    slash: bool,
    backslash: bool,
}

impl View for Layout {
    type V = Shape;

    closed spec fn view(&self) -> Shape {
        Shape {
            head: self.head as int,
            rooted: self.rooted,
            slash: self.slash,
            backslash: self.backslash,
        }
    }
}

impl Layout {
    fn separates(&self, byte: u8) -> (yes: bool)
        ensures
            yes == self@.separates(byte),
    {
        (self.slash && byte == SLASH) || (self.backslash && byte == BACKSLASH)
    }
}

/// The next separator is where no separator stands before it.
proof fn next_separator_is_next(path: Seq<u8>, from: int, slash: bool)
    requires
        0 <= from <= path.len(),
    ensures
        from <= next_separator(path, from, slash) <= path.len(),
        forall|i: int|
            from <= i < next_separator(path, from, slash) ==> #[trigger] path[i] != BACKSLASH && !(
            slash && path[i] == SLASH),
        next_separator(path, from, slash) < path.len() ==> {
            let byte = path[next_separator(path, from, slash)];
            byte == BACKSLASH || (slash && byte == SLASH)
        },
    decreases path.len() - from,
{
    if from < path.len() && !(path[from] == BACKSLASH || (slash && path[from] == SLASH)) {
        next_separator_is_next(path, from + 1, slash);
    }
}

/// The next separator is the same in paths that agree up to a point behind it.
proof fn next_separator_agrees(path: Seq<u8>, other: Seq<u8>, from: int, slash: bool, end: int)
    requires
        0 <= from,
        next_separator(path, from, slash) < end <= path.len(),
        end <= other.len(),
        forall|i: int| 0 <= i < end ==> #[trigger] path[i] == other[i],
    ensures
        next_separator(other, from, slash) == next_separator(path, from, slash),
    decreases path.len() - from,
{
    if from < path.len() {
        next_separator_is_next(path, from, slash);
        assert(path[from] == other[from]);
        if !(path[from] == BACKSLASH || (slash && path[from] == SLASH)) {
            next_separator_agrees(path, other, from + 1, slash, end);
        }
    }
}

/// There is no next separator where none is left.
proof fn next_separator_is_missing(path: Seq<u8>, from: int, slash: bool)
    requires
        0 <= from <= path.len(),
        forall|i: int| from <= i < path.len() ==> !is_separator(#[trigger] path[i]),
    ensures
        next_separator(path, from, slash) == path.len(),
{
    next_separator_is_next(path, from, slash);
}

/// A prefix is part of its path.
pub proof fn prefix_is_within(path: Seq<u8>)
    ensures
        0 <= prefix_len(path) <= path.len(),
        is_verbatim(path) ==> prefix_len(path) >= 4,
{
    if path.len() >= 2 {
        next_separator_is_next(path, 2, true);
        let server = next_separator(path, 2, true);
        if server < path.len() {
            next_separator_is_next(path, server + 1, true);
        }
    }
    if path.len() >= 4 {
        next_separator_is_next(path, 4, true);
        next_separator_is_next(path, 4, false);
    }
    if path.len() >= 8 {
        next_separator_is_next(path, 8, false);
        let server = next_separator(path, 8, false);
        if server < path.len() {
            next_separator_is_next(path, server + 1, false);
        }
    }
}

/// Finds the next separator.
fn find_separator(path: &Vec<u8>, from: usize, slash: bool) -> (at: usize)
    requires
        from <= path@.len(),
    ensures
        at == next_separator(path@, from as int, slash),
        from <= at <= path@.len(),
{
    let mut at: usize = from;
    while at < path.len() && !(path[at] == BACKSLASH || (slash && path[at] == SLASH))
        invariant
            from <= at <= path@.len(),
            next_separator(path@, from as int, slash) == next_separator(path@, at as int, slash),
        decreases path.len() - at,
    {
        at = at + 1;
    }
    at
}

/// Decides whether a byte is a separator on some platform.
fn any_separator(byte: u8) -> (yes: bool)
    ensures
        yes == is_separator(byte),
{
    byte == SLASH || byte == BACKSLASH
}

/// Decides whether a byte is an ASCII letter.
fn letter(byte: u8) -> (yes: bool)
    ensures
        yes == is_letter(byte),
{
    (65 <= byte && byte <= 90) || (97 <= byte && byte <= 122)
}

/// Finds the end of what follows a separator at `at`, if anything does before the next separator.
fn find_share(path: &Vec<u8>, at: usize, slash: bool) -> (end: Option<usize>)
    requires
        at <= path@.len(),
    ensures
        match end {
            Some(end) => end == next_separator(path@, at + 1, slash) && at + 1 < end <= path@.len(),
            None => next_separator(path@, at + 1, slash) <= at + 1,
        },
{
    if at >= path.len() {
        return None;
    }
    let end: usize = find_separator(path, at + 1, slash);
    if end > at + 1 {
        Some(end)
    } else {
        None
    }
}

/// Decides whether a path starts with the mark of a verbatim prefix.
fn has_verbatim_mark(path: &Vec<u8>) -> (yes: bool)
    ensures
        yes == is_verbatim(path@),
{
    path.len() >= 4 && path[0] == BACKSLASH && path[1] == BACKSLASH && path[2] == 63 && path[3]
        == BACKSLASH
}

/// Finds the end of a verbatim prefix.
fn verbatim_prefix_end(path: &Vec<u8>) -> (end: usize)
    requires
        is_verbatim(path@),
    ensures
        end == verbatim_prefix_len(path@),
{
    if path.len() >= 8 && path[4] == 85 && path[5] == 78 && path[6] == 67 && any_separator(path[7]) {
        let server: usize = find_separator(path, 8, false);
        match find_share(path, server, false) {
            Some(share) => share,
            None => server,
        }
    } else if path.len() >= 6 && letter(path[4]) && path[5] == COLON && (path.len() == 6
        || any_separator(path[6])) {
        6
    } else {
        find_separator(path, 4, false)
    }
}

/// Finds the end of the prefix of a Windows path.
fn prefix_end(path: &Vec<u8>) -> (end: usize)
    ensures
        end == prefix_len(path@),
        end <= path@.len(),
{
    proof {
        prefix_is_within(path@);
    }
    if path.len() >= 2 && any_separator(path[0]) && any_separator(path[1]) {
        if has_verbatim_mark(path) {
            return verbatim_prefix_end(path);
        }
        if path.len() >= 4 && path[2] == DOT && any_separator(path[3]) {
            return find_separator(path, 4, true);
        }
        let server: usize = find_separator(path, 2, true);
        match find_share(path, server, true) {
            Some(share) => if server > 2 {
                share
            } else {
                0
            },
            None => 0,
        }
    } else if path.len() >= 2 && letter(path[0]) && path[1] == COLON {
        2
    } else {
        0
    }
}

/// Tells how a path is made up.
fn layout_of(path: &Vec<u8>, style: PathStyle) -> (layout: Layout)
    ensures
        layout@ == shape(path@, style),
        layout@.body() <= path@.len(),
{
    match style {
        PathStyle::Unix => Layout {
            head: 0,
            rooted: path.len() > 0 && path[0] == SLASH,
            slash: true,
            backslash: false,
        },
        PathStyle::Windows => {
            let head: usize = prefix_end(path);
            Layout {
                head,
                rooted: head < path.len() && any_separator(path[head]),
                slash: !has_verbatim_mark(path),
                backslash: true,
            }
        },
    }
}

/// A path has one last component, or none at all.
pub proof fn last_component_is_unique(
    path: Seq<u8>,
    shape: Shape,
    s1: int,
    e1: int,
    s2: int,
    e2: int,
)
    requires
        is_last_component(path, shape, s1, e1),
        is_last_component(path, shape, s2, e2),
    ensures
        s1 == s2,
        e1 == e2,
{
    assert(s1 == s2);
    if e1 < e2 {
        assert(shape.separates(path[e1]));
    } else if e2 < e1 {
        assert(shape.separates(path[e2]));
    }
}

/// Finds the last component of `path`.
fn last_component(path: &Vec<u8>, layout: &Layout) -> (found: Option<(usize, usize)>)
    requires
        layout@.body() <= path@.len(),
    ensures
        match found {
            Some((start, end)) => is_last_component(path@, layout@, start as int, end as int),
            None => no_component(path@, layout@),
        },
{
    let mut end: usize = path.len();
    let body: usize = if layout.rooted {
        layout.head + 1
    } else {
        layout.head
    };
    while end > body
        invariant
            body == layout@.body(),
            body <= end <= path@.len(),
            end == path@.len() || layout@.separates(path@[end as int]),
            forall|s: int, e: int| #[trigger] is_component(path@, layout@, s, e) ==> e <= end,
        decreases end,
    {
        let mut start: usize = end;
        while start > body && !layout.separates(path[start - 1])
            invariant
                body <= start <= end <= path@.len(),
                forall|i: int| start <= i < end ==> !layout@.separates(#[trigger] path@[i]),
            decreases start,
        {
            start = start - 1;
        }
        assert(is_segment(path@, layout@, start as int, end as int));
        if start < end && !(layout.slash && start + 1 == end && path[start] == DOT) {
            assert forall|s: int, e: int| #[trigger]
                is_component(path@, layout@, s, e) implies s <= start by {
                if s > start {
                    assert(layout@.separates(path@[s - 1]));
                }
            }
            return Some((start, end));
        }
        assert forall|s: int, e: int| #[trigger] is_component(path@, layout@, s, e) implies e
            < start by {
            if e > start {
                if e < end {
                    assert(layout@.separates(path@[e]));
                }
                if s < start {
                    assert(layout@.separates(path@[start - 1]));
                }
                if s > start {
                    assert(layout@.separates(path@[s - 1]));
                }
            }
            if e == start {
                assert(!layout@.separates(path@[e - 1]));
            }
        }
        if start == body {
            return None;
        }
        end = start - 1;
    }
    None
}

/// Decides whether the component `path[start..end]` names no file.
fn leads_to_directory(path: &Vec<u8>, start: usize, end: usize) -> (yes: bool)
    requires
        start < end <= path@.len(),
    ensures
        yes == names_no_file(path@.subrange(start as int, end as int)),
{
    let ghost name = path@.subrange(start as int, end as int);
    let yes = path[start] == DOT && (end - start == 1 || (end - start == 2 && path[start + 1]
        == DOT));
    proof {
        if yes {
            assert(name =~= seq![DOT] || name =~= seq![DOT, DOT]);
        }
        if names_no_file(name) {
            assert(name[0] == DOT);
            assert(name.len() == 2 ==> name[1] == DOT);
        }
    }
    yes
}

/// Finds the dot behind which the extension of the file name `path[start..end]` starts.
fn extension_dot(path: &Vec<u8>, start: usize, end: usize) -> (found: Option<usize>)
    requires
        start < end <= path@.len(),
    ensures
        match found {
            Some(k) => start < k < end && is_extension_dot(
                path@.subrange(start as int, end as int),
                k - start,
            ),
            None => lacks_extension(path@.subrange(start as int, end as int)),
        },
{
    let ghost name = path@.subrange(start as int, end as int);
    if leads_to_directory(path, start, end) {
        return None;
    }
    let mut k: usize = end - 1;
    while k > start
        invariant
            start <= k < end <= path@.len(),
            name == path@.subrange(start as int, end as int),
            !names_no_file(name),
            forall|i: int| k - start < i < name.len() ==> #[trigger] name[i] != DOT,
        decreases k,
    {
        if path[k] == DOT {
            assert(is_extension_dot(name, k - start));
            return Some(k);
        }
        assert(name[k - start] != DOT);
        k = k - 1;
    }
    assert forall|d: int| !#[trigger] is_extension_dot(name, d) by {}
    None
}

/// Copies `path[start..end]`.
fn copy_range(path: &Vec<u8>, start: usize, end: usize) -> (out: Vec<u8>)
    requires
        start <= end <= path@.len(),
    ensures
        out@ == path@.subrange(start as int, end as int),
{
    let mut out: Vec<u8> = Vec::new();
    let mut i: usize = start;
    while i < end
        invariant
            start <= i <= end <= path@.len(),
            out@ == path@.subrange(start as int, i as int),
        decreases end - i,
    {
        out.push(path[i]);
        i = i + 1;
        assert(out@ =~= path@.subrange(start as int, i as int));
    }
    out
}

/// Whether the last component of `path` is a file name with the extension `csv`.
pub open spec fn names_csv(path: Seq<u8>, style: PathStyle) -> bool {
    exists|start: int, end: int, k: int|
        is_last_component(path, shape(path, style), start, end) && #[trigger] is_extension_dot(
            path.subrange(start, end),
            k,
        ) && path.subrange(start, end).skip(k + 1) == csv_extension()
}

/// Decides whether the last component of `path` is a file name with the extension `csv`.
pub fn has_csv_extension(file: &FilePath) -> (yes: bool)
    ensures
        yes == names_csv(file.bytes@, file.style),
{
    let path = &file.bytes;
    let layout = layout_of(path, file.style);
    match last_component(path, &layout) {
        None => {
            assert forall|start: int, end: int| !is_last_component(path@, layout@, start, end) by {}
            false
        },
        Some((start, end)) => {
            let ghost name = path@.subrange(start as int, end as int);
            assert forall|s: int, e: int|
                is_last_component(path@, layout@, s, e) implies s == start && e == end by {
                last_component_is_unique(path@, layout@, s, e, start as int, end as int);
            }
            match extension_dot(path, start, end) {
                None => false,
                Some(k) => {
                    let yes = end - k == 4 && path[k + 1] == 99 && path[k + 2] == 115 && path[k + 3]
                        == 118;
                    proof {
                        let d = k - start;
                        let extension = name.skip(d + 1);
                        if yes {
                            assert(extension =~= csv_extension());
                        }
                        if extension == csv_extension() {
                            assert(extension.len() == 3 && extension[0] == 99 && extension[1] == 115
                                && extension[2] == 118);
                        }
                        assert forall|other: int| #[trigger]
                            is_extension_dot(name, other) implies other == d by {
                            if other < d {
                                assert(name[d] != DOT);
                            } else if d < other {
                                assert(name[other] != DOT);
                            }
                        }
                    }
                    yes
                },
            }
        },
    }
}

/// Gives `path` the extension `csv` if it has none, and a directory if it has none.
pub fn normalize_base_path(file: FilePath) -> (base: FilePath)
    ensures
        is_base_path(file.bytes@, file.style, base.bytes@),
        base.style == file.style,
{
    let style = file.style;
    let path = file.bytes;
    let separator: u8 = match style {
        PathStyle::Unix => SLASH,
        PathStyle::Windows => BACKSLASH,
    };
    let layout = layout_of(&path, style);
    match last_component(&path, &layout) {
        None => {
            assert forall|s: int, e: int| !#[trigger] is_last_component(path@, layout@, s, e) by {}
            if layout.head > 0 || layout.rooted {
                return FilePath { bytes: path, style };
            }
            let mut out: Vec<u8> = Vec::new();
            out.push(DOT);
            out.push(separator);
            push_range(&mut out, &path, path.len());
            assert(out@ =~= in_current_directory(path@, style));
            FilePath { bytes: out, style }
        },
        Some((start, end)) => {
            let ghost name = path@.subrange(start as int, end as int);
            proof {
                assert forall|s: int, e: int| #[trigger]
                    is_last_component(path@, layout@, s, e) implies s == start && e == end by {
                    last_component_is_unique(path@, layout@, s, e, start as int, end as int);
                }
            }
            let mut out: Vec<u8> = Vec::new();
            if start == 0 {
                out.push(DOT);
                out.push(separator);
            }
            let ghost prefix = out@;
            let directory = leads_to_directory(&path, start, end);
            let bare = match extension_dot(&path, start, end) {
                Some(_) => false,
                None => true,
            };
            if !directory && bare {
                push_range(&mut out, &path, end);
                out.push(DOT);
                out.push(99);
                out.push(115);
                out.push(118);
                assert(out@ =~= prefix + (path@.take(end as int) + seq![DOT] + csv_extension()));
            } else {
                push_range(&mut out, &path, path.len());
                assert(out@ =~= prefix + path@);
            }
            proof {
                let named = with_csv_extension(path@, start as int, end as int);
                assert(out@ =~= prefix + named);
                assert(start == 0 ==> out@ =~= in_current_directory(named, style));
                assert(start > 0 ==> out@ =~= named);
                assert(is_component(path@, layout@, start as int, end as int));
            }
            FilePath { bytes: out, style }
        },
    }
}

/// Appends the first `end` bytes of `path` to `out`.
fn push_range(out: &mut Vec<u8>, path: &Vec<u8>, end: usize)
    requires
        end <= path@.len(),
    ensures
        final(out)@ == old(out)@ + path@.take(end as int),
{
    let ghost start = out@;
    let mut i: usize = 0;
    while i < end
        invariant
            i <= end <= path@.len(),
            out@ == start + path@.take(i as int),
        decreases end - i,
    {
        out.push(path[i]);
        i = i + 1;
        assert(out@ =~= start + path@.take(i as int));
    }
    assert(out@ =~= start + path@.take(end as int));
}

/// The directory that holds the last component of a path, if one is named.
pub fn parent_directory(file: &FilePath) -> (parent: Option<Vec<u8>>)
    ensures
        is_parent_directory(
            file.bytes@,
            file.style,
            match parent {
                Some(directory) => Some(directory@),
                None => None,
            },
        ),
{
    let path = &file.bytes;
    let layout = layout_of(path, file.style);
    match last_component(path, &layout) {
        None => {
            assert forall|s: int, e: int| !#[trigger] is_last_component(path@, layout@, s, e) by {}
            if 0 < layout.head && layout.head < path.len() && !layout.rooted {
                let drive = copy_range(path, 0, layout.head);
                assert(drive@ =~= path@.take(layout.head as int));
                Some(drive)
            } else {
                None
            }
        },
        Some((start, end)) => {
            proof {
                assert forall|s: int, e: int| #[trigger]
                    is_last_component(path@, layout@, s, e) implies s == start && e == end by {
                    last_component_is_unique(path@, layout@, s, e, start as int, end as int);
                }
            }
            if start == 0 {
                assert forall|s: int, e: int| !#[trigger]
                    is_component(path@.take(0), layout@, s, e) by {}
                return None;
            }
            let before = copy_range(path, 0, start);
            assert(before@ =~= path@.take(start as int));
            match last_component(&before, &layout) {
                None => {
                    assert forall|s: int, e: int| !#[trigger]
                        is_last_component(path@.take(start as int), layout@, s, e) by {}
                    let body: usize = if layout.rooted {
                        layout.head + 1
                    } else {
                        layout.head
                    };
                    let base: usize = if !layout.rooted && start > body {
                        body + 1
                    } else {
                        body
                    };
                    let directory = copy_range(path, 0, base);
                    assert(directory@ =~= path@.take(base as int));
                    Some(directory)
                },
                Some((s, e)) => {
                    proof {
                        assert forall|s1: int, e1: int| #[trigger]
                            is_last_component(path@.take(start as int), layout@, s1, e1) implies e1
                            == e by {
                            last_component_is_unique(
                                path@.take(start as int),
                                layout@,
                                s1,
                                e1,
                                s as int,
                                e as int,
                            );
                        }
                    }
                    let directory = copy_range(path, 0, e);
                    assert(directory@ =~= path@.take(e as int));
                    Some(directory)
                },
            }
        },
    }
}

/// A path that has a component has a last one.
pub proof fn last_component_exists(path: Seq<u8>, shape: Shape, s: int, e: int) -> (last: (
    int,
    int,
))
    requires
        is_component(path, shape, s, e),
    ensures
        is_last_component(path, shape, last.0, last.1),
    decreases path.len() - s,
{
    if is_last_component(path, shape, s, e) {
        (s, e)
    } else {
        let (s1, e1) = choose|s1: int, e1: int| #[trigger]
            is_component(path, shape, s1, e1) && s1 > s;
        last_component_exists(path, shape, s1, e1)
    }
}

/// The file that is written depends on the path that is asked for alone.
pub proof fn base_path_is_determined(
    path: Seq<u8>,
    style: PathStyle,
    first: Seq<u8>,
    second: Seq<u8>,
)
    requires
        is_base_path(path, style, first),
        is_base_path(path, style, second),
    ensures
        first == second,
{
    let shape = shape(path, style);
    if !no_component(path, shape) {
        let (s, e) = choose|s: int, e: int| is_component(path, shape, s, e);
        let (start, end) = last_component_exists(path, shape, s, e);
        assert(is_last_component(path, shape, start, end));
    }
}

/// The name of the file that is written when a file of this name is asked for.
pub open spec fn csv_name(name: Seq<u8>) -> Seq<u8> {
    if lacks_extension(name) {
        name + seq![DOT] + csv_extension()
    } else {
        name
    }
}

/// The file name of `path` is `path[start..end]`, and `out` is `path` with the extension `csv`.
spec fn gets_extension(
    path: Seq<u8>,
    style: PathStyle,
    start: int,
    end: int,
    out: Seq<u8>,
) -> bool {
    &&& is_component(path, shape(path, style), start, end)
    &&& out == path.take(end) + seq![DOT] + csv_extension()
}

/// An extension leaves a verbatim prefix as it is.
proof fn verbatim_prefix_is_kept(path: Seq<u8>, start: int, end: int, out: Seq<u8>)
    requires
        is_verbatim(path),
        gets_extension(path, PathStyle::Windows, start, end, out),
    ensures
        verbatim_prefix_len(out) == verbatim_prefix_len(path),
        verbatim_prefix_len(path) < end,
{
    prefix_is_within(path);
    assert forall|i: int| 0 <= i < end implies #[trigger] path[i] == out[i] by {}
    if path.len() >= 8 && path[4] == 85 && path[5] == 78 && path[6] == 67 && is_separator(path[7]) {
        let server = next_separator(path, 8, false);
        next_separator_is_next(path, 8, false);
        if server < path.len() {
            next_separator_is_next(path, server + 1, false);
        }
        next_separator_agrees(path, out, 8, false, end);
        next_separator_agrees(path, out, server + 1, false, end);
    } else if path.len() >= 6 && is_letter(path[4]) && path[5] == COLON && (path.len() == 6
        || is_separator(path[6])) {
    } else {
        next_separator_is_next(path, 4, false);
        next_separator_agrees(path, out, 4, false, end);
        if end < 8 {
            assert(out[end] == DOT && out[end + 1] == 99 && out[end + 2] == 115 && out[end + 3]
                == 118);
        }
    }
}

/// An extension makes no prefix of two separators at the start.
proof fn no_prefix_is_made(path: Seq<u8>, start: int, end: int, out: Seq<u8>)
    requires
        path.len() >= 2,
        is_separator(path[0]),
        is_separator(path[1]),
        prefix_len(path) == 0,
        gets_extension(path, PathStyle::Windows, start, end, out),
    ensures
        prefix_len(out) == 0,
        !is_verbatim(out),
{
    assert forall|i: int| 0 <= i < end implies #[trigger] path[i] == out[i] by {}
    prefix_is_within(path);
    if path.len() >= 4 {
        next_separator_is_next(path, 4, true);
    }
    let server = next_separator(path, 2, true);
    next_separator_is_next(path, 2, true);
    assert(out[end] == DOT && out[end + 1] == 99 && out[end + 2] == 115 && out[end + 3] == 118);
    assert(start >= 2);
    if start == 2 {
        assert(end == server);
        assert forall|i: int| 2 <= i < out.len() implies !is_separator(#[trigger] out[i]) by {
            if i < end {
                assert(path[i] == out[i]);
            }
        }
        next_separator_is_missing(out, 2, true);
    } else {
        assert(server <= start - 1);
        next_separator_agrees(path, out, 2, true, end);
        next_separator_is_next(path, server + 1, true);
        if server > 2 {
            next_separator_agrees(path, out, server + 1, true, end);
        }
    }
}

/// An extension leaves a path made up as it is.
proof fn shape_is_kept(path: Seq<u8>, style: PathStyle, start: int, end: int, out: Seq<u8>)
    requires
        start > 0,
        gets_extension(path, style, start, end, out),
    ensures
        shape(out, style) == shape(path, style),
{
    prefix_is_within(path);
    assert forall|i: int| 0 <= i < end implies #[trigger] path[i] == out[i] by {}
    assert(path[0] == out[0] && path[1] == out[1]);
    let head = prefix_len(path);
    assert(style == PathStyle::Windows ==> path[head] == out[head]);
    if style == PathStyle::Windows && is_separator(path[0]) && is_separator(path[1]) {
        if is_verbatim(path) {
            verbatim_prefix_is_kept(path, start, end, out);
            prefix_is_within(out);
        } else if prefix_len(path) == 0 {
            no_prefix_is_made(path, start, end, out);
        } else if path.len() >= 4 && path[2] == DOT && is_separator(path[3]) {
            next_separator_is_next(path, 4, true);
            next_separator_agrees(path, out, 4, true, end);
        } else {
            let server = next_separator(path, 2, true);
            next_separator_is_next(path, 2, true);
            if server < path.len() {
                next_separator_is_next(path, server + 1, true);
            }
            next_separator_agrees(path, out, 2, true, end);
            next_separator_agrees(path, out, server + 1, true, end);
            assert(path[2] == out[2] && path[3] == out[3]);
        }
        assert(prefix_len(out) == head);
        assert(is_verbatim(out) == is_verbatim(path));
    }
}

/// The file name of `path` is the last component of `out`, the path of the file that is written,
/// with the extension `csv` if it had none.
proof fn base_path_names_file(
    path: Seq<u8>,
    at: Shape,
    shift: int,
    start: int,
    end: int,
    out: Seq<u8>,
)
    requires
        is_last_component(path, at, start, end),
        !names_no_file(path.subrange(start, end)),
        0 <= at.body() <= shift + start,
        shift >= 0,
        out.len() == with_csv_extension(path, start, end).len() + shift,
        forall|i: int|
            shift <= i < out.len() ==> #[trigger] out[i] == with_csv_extension(path, start, end)[i
                - shift],
        shift > 0 ==> start == 0 && at.separates(out[shift - 1]),
        !at.separates(DOT) && !at.separates(99) && !at.separates(115) && !at.separates(118),
    ensures
        ({
            let e = end + shift + if lacks_extension(path.subrange(start, end)) {
                4int
            } else {
                0
            };
            &&& is_last_component(out, at, start + shift, e)
            &&& out.subrange(start + shift, e) == csv_name(path.subrange(start, end))
            &&& !lacks_extension(out.subrange(start + shift, e))
        }),
{
    let name = path.subrange(start, end);
    let bare = lacks_extension(name);
    let named = with_csv_extension(path, start, end);
    let s = start + shift;
    let e = end + shift + if bare { 4int } else { 0 };
    assert(start > at.body() ==> out[s - 1] == path[start - 1]);
    assert forall|i: int| s <= i < e implies !at.separates(#[trigger] out[i]) by {
        if i < end + shift {
            assert(out[i] == path[i - shift]);
        }
    }
    if !bare {
        assert(named == path);
        assert(end < path.len() ==> out[e] == path[end]);
        assert(end == start + 1 ==> out[s] == path[start]);
    }
    assert(is_component(out, at, s, e));
    assert forall|a: int, b: int| #[trigger] is_component(out, at, a, b) implies a <= s by {
        if a > s {
            assert(at.separates(out[a - 1]));
            if !bare {
                assert(at.separates(path[a - 1 - shift]));
                assert forall|i: int| a - shift <= i < b - shift implies !at.separates(
                    #[trigger] path[i],
                ) by {
                    assert(out[i + shift] == path[i]);
                }
                assert(b < out.len() ==> out[b] == path[b - shift]);
                assert(out[a] == path[a - shift]);
                assert(is_component(path, at, a - shift, b - shift));
            }
        }
    }
    let final_name = out.subrange(s, e);
    if bare {
        let k = end - start;
        assert(final_name[k] == DOT && final_name[k + 1] == 99 && final_name[k + 2] == 115
            && final_name[k + 3] == 118);
        assert(final_name.len() > 2);
        assert(is_extension_dot(final_name, k));
        assert(final_name =~= csv_name(name));
    } else {
        assert(final_name =~= name);
    }
}

/// The path of the file that is written names a file in a directory: the file that was asked for,
/// with the extension `csv` if it had none. Asking for that path gives the same file.
pub proof fn base_path_is_stable(
    path: Seq<u8>,
    style: PathStyle,
    start: int,
    end: int,
    out: Seq<u8>,
)
    requires
        is_last_component(path, shape(path, style), start, end),
        !names_no_file(path.subrange(start, end)),
        is_base_path(path, style, out),
    ensures
        is_base_path(out, style, out),
        exists|s: int, e: int| #[trigger]
            is_last_component(out, shape(out, style), s, e) && s > 0 && !lacks_extension(
                out.subrange(s, e),
            ) && out.subrange(s, e) == csv_name(path.subrange(start, end)),
{
    let name = path.subrange(start, end);
    let named = with_csv_extension(path, start, end);
    let at = shape(path, style);
    let shift: int = if start == 0 {
        2
    } else {
        0
    };
    let s = start + shift;
    let e = end + shift + if lacks_extension(name) {
        4int
    } else {
        0
    };
    prefix_is_within(path);
    if start == 0 {
        assert(out[0] == DOT && out[1] == main_separator(style));
        assert(at.body() == 0);
        assert(style == PathStyle::Windows ==> !is_verbatim(path));
    } else if lacks_extension(name) {
        shape_is_kept(path, style, start, end, out);
    }
    assert(shape(out, style) == at);
    base_path_names_file(path, at, shift, start, end, out);
    assert forall|a: int, b: int| #[trigger] is_last_component(out, at, a, b) implies a == s && b
        == e by {
        last_component_is_unique(out, at, a, b, s, e);
    }
}

} // verus!
