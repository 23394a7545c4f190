//! Normalisation of metric names and labels.
use vstd::prelude::*;

verus! {

/// Whether `c` has the Unicode property `White_Space`.
pub open spec fn is_white_space(c: char) -> bool {
    ||| 0x09 <= c as u32 <= 0x0d
    ||| c as u32 == 0x20
    ||| c as u32 == 0x85
    ||| c as u32 == 0xa0
    ||| c as u32 == 0x1680
    ||| 0x2000 <= c as u32 <= 0x200a
    ||| c as u32 == 0x2028
    ||| c as u32 == 0x2029
    ||| c as u32 == 0x202f
    ||| c as u32 == 0x205f
    ||| c as u32 == 0x3000
}

/// The lower case of a character of the first 256: that of `A` to `Z` and of the letters of Latin-1
/// with a mark stands 32 places behind; all others are their own.
pub open spec fn latin_lowercase(c: char) -> char {
    if 'A' <= c <= 'Z' || (0xc0 <= c as u32 <= 0xde && c as u32 != 0xd7) {
        (c as u32 + 32) as char
    } else {
        c
    }
}

/// The lower case of a character, as Unicode maps it: one character or several.
pub uninterp spec fn lowercase_mapping(c: char) -> Seq<char>;

/// The lower case of a character.
pub open spec fn lowercase(c: char) -> Seq<char> {
    if (c as u32) < 0x100 {
        seq![latin_lowercase(c)]
    } else {
        lowercase_mapping(c)
    }
}

/// The lower case of a text, character by character.
pub open spec fn lowered(text: Seq<char>) -> Seq<char>
    decreases text.len(),
{
    if text.len() == 0 {
        Seq::empty()
    } else {
        lowered(text.drop_last()) + lowercase(text.last())
    }
}

/// What a character of a lower-case component is written as: white space, `|` and `=` as an
/// underscore, any other as it is.
pub open spec fn plain_char(c: char) -> char {
    if is_white_space(c) || c == '|' || c == '=' {
        '_'
    } else {
        c
    }
}

/// What a name or label component is written as: its lower case, with underscores for white space,
/// `|` and `=`.
pub open spec fn sanitized(component: Seq<char>) -> Seq<char> {
    lowered(component).map_values(|c: char| plain_char(c))
}

/// `char::to_lowercase`: the characters that Unicode maps `c` to, without regard to its
/// surroundings or to a language. They depend on `c` alone, and there is at least one. Of the first
/// 256 characters each is mapped to one, the capital letters among them to the letter 32 places
/// behind and all others to themselves.
#[verifier::external_body]
fn to_lowercase(c: char) -> (lower: Vec<char>)
    ensures
        c as u32 >= 0x100 ==> lower@ == lowercase_mapping(c),
        (c as u32) < 0x100 ==> lower@ == seq![latin_lowercase(c)],
        lower@.len() > 0,
{
    c.to_lowercase().collect()
}

/// Decides whether `c` has the Unicode property `White_Space`.
fn white_space(c: char) -> (yes: bool)
    ensures
        yes == is_white_space(c),
{
    let code: u32 = c as u32;
    (0x09 <= code && code <= 0x0d) || code == 0x20 || code == 0x85 || code == 0xa0 || code == 0x1680
        || (0x2000 <= code && code <= 0x200a) || code == 0x2028 || code == 0x2029 || code == 0x202f
        || code == 0x205f || code == 0x3000
}

/// Replaces a character that delimits components.
fn replace_delimiter(c: char) -> (out: char)
    ensures
        out == plain_char(c),
{
    if white_space(c) || c == '|' || c == '=' {
        '_'
    } else {
        c
    }
}

/// Returns the lower case of `input`, with white space, `|` and `=` replaced by underscores.
pub fn sanitize_component(input: &str) -> (out: String)
    ensures
        out@ == sanitized(input@),
{
    let mut out = String::new();
    write_sanitized_component(&mut out, input);
    assert(out@ =~= sanitized(input@));
    out
}

/// Appends characters, with those that delimit components replaced.
fn push_plain(out: &mut String, chars: &Vec<char>)
    ensures
        final(out)@ == old(out)@ + chars@.map_values(|c: char| plain_char(c)),
{
    let ghost start = out@;
    let ghost all = chars@.map_values(|c: char| plain_char(c));
    let mut i: usize = 0;
    assert(out@ =~= start + all.take(0));
    while i < chars.len()
        invariant
            i <= chars@.len(),
            all == chars@.map_values(|c: char| plain_char(c)),
            out@ == start + all.take(i as int),
        decreases chars.len() - i,
    {
        out.push(replace_delimiter(chars[i]));
        i = i + 1;
        assert(all.take(i as int) =~= all.take(i - 1).push(all[i - 1]));
        assert(out@ =~= start + all.take(i as int));
    }
    assert(all.take(all.len() as int) =~= all);
}

/// Appends the sanitized form of `input` to `out`.
pub fn write_sanitized_component(out: &mut String, input: &str)
    ensures
        final(out)@ == old(out)@ + sanitized(input@),
{
    let ghost start = out@;
    assert(sanitized(input@.take(0)) =~= Seq::empty());
    for c in it: input.chars()
        invariant
            it.seq() == input@,
            out@ == start + sanitized(input@.take(it.index() as int)),
    {
        let ghost n = it.index() as int;
        let lower = to_lowercase(c);
        push_plain(out, &lower);
        proof {
            let more = input@.take(n + 1);
            assert(more.drop_last() =~= input@.take(n));
            assert(more.last() == c);
            assert(lower@ == lowercase(c));
            assert(sanitized(more) =~= sanitized(input@.take(n)) + lower@.map_values(
                |c: char| plain_char(c),
            ));
            assert(out@ =~= start + sanitized(more));
        }
    }
    assert(input@.take(input@.len() as int) =~= input@);
}

/// A sanitized component holds no white space, no `|` and no `=`.
pub proof fn sanitized_is_clean(component: Seq<char>)
    ensures
        forall|i: int|
            0 <= i < sanitized(component).len() ==> {
                let c = #[trigger] sanitized(component)[i];
                !is_white_space(c) && c != '|' && c != '='
            },
{
    let low = lowered(component);
    assert forall|i: int| 0 <= i < sanitized(component).len() implies {
        let c = #[trigger] sanitized(component)[i];
        !is_white_space(c) && c != '|' && c != '='
    } by {
        assert(sanitized(component)[i] == plain_char(low[i]));
    }
}

/// Whether a text holds only the first 256 characters of Unicode.
pub open spec fn is_latin(text: Seq<char>) -> bool {
    forall|i: int| 0 <= i < text.len() ==> (#[trigger] text[i]) as u32 <= 0xff
}

proof fn lowered_latin(text: Seq<char>)
    requires
        is_latin(text),
    ensures
        lowered(text) == text.map_values(|c: char| latin_lowercase(c)),
    decreases text.len(),
{
    let expected = text.map_values(|c: char| latin_lowercase(c));
    if text.len() > 0 {
        lowered_latin(text.drop_last());
        assert(lowercase(text.last()) == seq![latin_lowercase(text.last())]);
    }
    assert(lowered(text) =~= expected);
}

/// A Latin component is sanitized character by character: it keeps its length, and what comes out
/// is Latin and holds no capital letter.
pub proof fn sanitized_latin(component: Seq<char>)
    requires
        is_latin(component),
    ensures
        sanitized(component) == component.map_values(|c: char| plain_char(latin_lowercase(c))),
        is_latin(sanitized(component)),
        forall|i: int|
            0 <= i < component.len() ==> latin_lowercase(#[trigger] sanitized(component)[i])
                == sanitized(component)[i],
{
    lowered_latin(component);
    assert(sanitized(component) =~= component.map_values(
        |c: char| plain_char(latin_lowercase(c)),
    ));
}

/// Whether every character of a text is its own lower case.
pub open spec fn is_lowercase(text: Seq<char>) -> bool {
    forall|i: int| 0 <= i < text.len() ==> lowercase(#[trigger] text[i]) == seq![text[i]]
}

/// A component that was sanitized stays as it is when it is sanitized again, and holds none of the
/// letters `A` to `Z`. Its lower case must be lower case.
pub proof fn sanitized_is_idempotent(component: Seq<char>)
    requires
        is_lowercase(lowered(component)),
    ensures
        sanitized(sanitized(component)) == sanitized(component),
        forall|i: int|
            0 <= i < sanitized(component).len() ==> !('A' <= #[trigger] sanitized(component)[i]
                <= 'Z'),
{
    let low = lowered(component);
    let plain = sanitized(component);
    assert forall|i: int| 0 <= i < plain.len() implies lowercase(#[trigger] plain[i]) == seq![
        plain[i],
    ] && plain_char(plain[i]) == plain[i] && !('A' <= plain[i] <= 'Z') by {
        assert(plain[i] == plain_char(low[i]));
        assert(lowercase(low[i]) == seq![low[i]]);
        if 'A' <= low[i] <= 'Z' {
            assert(lowercase(low[i])[0] == seq![low[i]][0]);
        }
    }
    sanitized_preserves_other_characters(plain);
}

/// The lower case of a Latin component is lower case.
pub proof fn lowered_latin_is_lowercase(component: Seq<char>)
    requires
        is_latin(component),
    ensures
        is_lowercase(lowered(component)),
{
    lowered_latin(component);
}

/// Characters that are lower case and neither white space, `|` nor `=` are preserved.
pub proof fn sanitized_preserves_other_characters(component: Seq<char>)
    requires
        is_lowercase(component),
        forall|i: int|
            0 <= i < component.len() ==> plain_char(#[trigger] component[i]) == component[i],
    ensures
        sanitized(component) == component,
{
    lowered_lowercase(component);
    assert(sanitized(component) =~= component);
}

proof fn lowered_lowercase(text: Seq<char>)
    requires
        is_lowercase(text),
    ensures
        lowered(text) == text,
    decreases text.len(),
{
    if text.len() > 0 {
        lowered_lowercase(text.drop_last());
        assert(lowercase(text.last()) == seq![text.last()]);
    }
    assert(lowered(text) =~= text);
}

/// A component is sanitized piece by piece, whatever stands around a piece.
pub proof fn sanitized_goes_piece_by_piece(first: Seq<char>, second: Seq<char>)
    ensures
        sanitized(first + second) == sanitized(first) + sanitized(second),
        sanitized(Seq::empty()) == Seq::<char>::empty(),
{
    lowered_goes_piece_by_piece(first, second);
    assert(sanitized(first + second) =~= sanitized(first) + sanitized(second));
    assert(sanitized(Seq::empty()) =~= Seq::<char>::empty());
}

proof fn lowered_goes_piece_by_piece(first: Seq<char>, second: Seq<char>)
    ensures
        lowered(first + second) == lowered(first) + lowered(second),
    decreases second.len(),
{
    if second.len() > 0 {
        let fewer = second.drop_last();
        lowered_goes_piece_by_piece(first, fewer);
        assert((first + second).drop_last() =~= first + fewer);
        assert(lowered(first + second) =~= lowered(first) + lowered(second));
    } else {
        assert(first + second =~= first);
        assert(lowered(first) + lowered(second) =~= lowered(first));
    }
}

/// A single ASCII character is sanitized to a single one: a capital letter to its lower case; a
/// space, a tab, a line break, a form feed, `|` and `=` to an underscore; any other to itself.
pub proof fn sanitized_ascii(c: char)
    requires
        c as u32 <= 0x7f,
    ensures
        'A' <= c <= 'Z' ==> sanitized(seq![c]) == seq![(c as u32 + 32) as char],
        c == ' ' || c == '\t' || c == '\n' || c == '\r' || c as u32 == 0x0b || c as u32 == 0x0c || c
            == '|' || c == '=' ==> sanitized(seq![c]) == seq!['_'],
        !('A' <= c <= 'Z') && c != ' ' && !(0x09 <= c as u32 <= 0x0d) && c != '|' && c != '='
            ==> sanitized(seq![c]) == seq![c],
{
    sanitized_latin(seq![c]);
    assert(sanitized(seq![c]) =~= seq![plain_char(latin_lowercase(c))]);
}

} // verus!
