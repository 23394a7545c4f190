//! Text helpers shared by the rest of the crate: appending to a `String`, joining pieces with a
//! separator and writing unsigned integers in decimal.
use vstd::prelude::*;

verus! {

/// `String::push` of the standard library: the given character is appended to the end of the
/// string, and nothing else changes.
pub assume_specification[ String::push ](s: &mut String, ch: char)
    ensures
        final(s)@ == old(s)@.push(ch),
;

/// The texts that a list of strings holds, in order.
pub open spec fn views(texts: Seq<String>) -> Seq<Seq<char>> {
    texts.map_values(|text: String| text@)
}

/// The texts that the cells of a list of records hold, in order.
pub open spec fn record_views(records: Seq<Vec<String>>) -> Seq<Seq<Seq<char>>> {
    records.map_values(|record: Vec<String>| views(record@))
}

/// `pieces` written one after the other with `separator` between neighbours.
pub open spec fn joined(pieces: Seq<Seq<char>>, separator: char) -> Seq<char>
    decreases pieces.len(),
{
    if pieces.len() == 0 {
        Seq::empty()
    } else if pieces.len() == 1 {
        pieces[0]
    } else {
        joined(pieces.drop_last(), separator).push(separator) + pieces.last()
    }
}

/// The character that writes the digit `d`.
pub open spec fn digit_char(d: nat) -> char {
    (48 + d) as char
}

/// `n` in decimal, without leading zeros.
pub open spec fn decimal(n: nat) -> Seq<char>
    decreases n,
{
    if n < 10 {
        seq![digit_char(n)]
    } else {
        decimal(n / 10).push(digit_char(n % 10))
    }
}

/// Appends `n` in decimal to `out`.
pub fn push_decimal(out: &mut String, n: u64)
    ensures
        final(out)@ == old(out)@ + decimal(n as nat),
    decreases n,
{
    if n >= 10 {
        push_decimal(out, n / 10);
    }
    let digit: u8 = (n % 10) as u8;
    out.push((48 + digit) as char);
    assert(out@ =~= old(out)@ + decimal(n as nat));
}

/// `n` in decimal.
pub fn decimal_text(n: u64) -> (text: String)
    ensures
        text@ == decimal(n as nat),
{
    let mut text = String::new();
    push_decimal(&mut text, n);
    assert(text@ =~= decimal(n as nat));
    text
}

/// `n` in decimal, with a sign where it is negative.
pub open spec fn signed_decimal(n: int) -> Seq<char> {
    if n < 0 {
        seq!['-'] + decimal((-n) as nat)
    } else {
        decimal(n as nat)
    }
}

/// `n` in decimal, with a sign where it is negative.
pub fn signed_decimal_text(n: i64) -> (text: String)
    ensures
        text@ == signed_decimal(n as int),
{
    let mut text = String::new();
    if n < 0 {
        text.push('-');
        push_decimal(&mut text, (-(n as i128)) as u64);
        assert(text@ =~= signed_decimal(n as int));
    } else {
        push_decimal(&mut text, n as u64);
        assert(text@ =~= signed_decimal(n as int));
    }
    text
}

/// Numbers in decimal, with a comma and a space between two.
pub open spec fn listed(numbers: Seq<i64>) -> Seq<char>
    decreases numbers.len(),
{
    if numbers.len() == 0 {
        Seq::empty()
    } else if numbers.len() == 1 {
        signed_decimal(numbers[0] as int)
    } else {
        listed(numbers.drop_last()) + seq![',', ' '] + signed_decimal(numbers.last() as int)
    }
}

/// Numbers as a list in brackets.
pub open spec fn bracketed(numbers: Seq<i64>) -> Seq<char> {
    seq!['['] + listed(numbers) + seq![']']
}

/// Numbers as a list in brackets.
pub fn list_text(numbers: &Vec<i64>) -> (text: String)
    ensures
        text@ == bracketed(numbers@),
{
    let mut text = String::new();
    text.push('[');
    let mut i: usize = 0;
    assert(text@ =~= seq!['['] + listed(numbers@.take(0)));
    while i < numbers.len()
        invariant
            i <= numbers@.len(),
            text@ == seq!['['] + listed(numbers@.take(i as int)),
        decreases numbers.len() - i,
    {
        if i > 0 {
            text.push(',');
            text.push(' ');
        }
        let number = signed_decimal_text(numbers[i]);
        text.append(number.as_str());
        i = i + 1;
        proof {
            let more = numbers@.take(i as int);
            assert(more.drop_last() =~= numbers@.take(i - 1));
            assert(more.last() == numbers@[i - 1]);
            assert(text@ =~= seq!['['] + listed(more));
        }
    }
    text.push(']');
    assert(numbers@.take(numbers@.len() as int) =~= numbers@);
    assert(text@ =~= bracketed(numbers@));
    text
}

/// `left`, the separator and `right`, one after the other.
pub fn concat3(left: &str, separator: &str, right: &str) -> (text: String)
    ensures
        text@ == left@ + separator@ + right@,
{
    let mut text = left.to_string();
    text.append(separator);
    text.append(right);
    text
}

/// Whether no piece holds the separator.
pub open spec fn free_of(pieces: Seq<Seq<char>>, separator: char) -> bool {
    forall|i: int| 0 <= i < pieces.len() ==> !(#[trigger] pieces[i]).contains(separator)
}

/// A text can be parted at the last separator in one way only.
pub proof fn split_at_last_is_unique(
    a: Seq<char>,
    b: Seq<char>,
    c: Seq<char>,
    d: Seq<char>,
    separator: char,
)
    requires
        a.push(separator) + b == c.push(separator) + d,
        !b.contains(separator),
        !d.contains(separator),
    ensures
        a == c,
        b == d,
{
    let left = a.push(separator) + b;
    let right = c.push(separator) + d;
    assert(left.len() == a.len() + 1 + b.len());
    assert(right.len() == c.len() + 1 + d.len());
    assert(left[a.len() as int] == separator);
    assert(right[c.len() as int] == separator);
    if a.len() < c.len() {
        assert(left[c.len() as int] == b[c.len() - a.len() - 1]);
    } else if c.len() < a.len() {
        assert(right[a.len() as int] == d[a.len() - c.len() - 1]);
    }
    assert(a.len() == c.len());
    assert forall|i: int| 0 <= i < a.len() implies a[i] == c[i] by {
        assert(left[i] == a[i] && right[i] == c[i]);
    }
    assert(a =~= c);
    assert(b.len() == d.len());
    assert forall|i: int| 0 <= i < b.len() implies b[i] == d[i] by {
        assert(left[a.len() + 1 + i] == b[i] && right[a.len() + 1 + i] == d[i]);
    }
    assert(b =~= d);
}

/// A text can be parted at the first separator in one way only.
pub proof fn split_at_first_is_unique(
    a: Seq<char>,
    b: Seq<char>,
    c: Seq<char>,
    d: Seq<char>,
    separator: char,
)
    requires
        a.push(separator) + b == c.push(separator) + d,
        !a.contains(separator),
        !c.contains(separator),
    ensures
        a == c,
        b == d,
{
    let left = a.push(separator) + b;
    let right = c.push(separator) + d;
    assert(left.len() == a.len() + 1 + b.len());
    assert(right.len() == c.len() + 1 + d.len());
    assert(left[a.len() as int] == separator);
    assert(right[c.len() as int] == separator);
    if a.len() < c.len() {
        assert(right[a.len() as int] == c[a.len() as int]);
    } else if c.len() < a.len() {
        assert(left[c.len() as int] == a[c.len() as int]);
    }
    assert(a.len() == c.len());
    assert forall|i: int| 0 <= i < a.len() implies a[i] == c[i] by {
        assert(left[i] == a[i] && right[i] == c[i]);
    }
    assert(a =~= c);
    assert(b.len() == d.len());
    assert forall|i: int| 0 <= i < b.len() implies b[i] == d[i] by {
        assert(left[a.len() + 1 + i] == b[i] && right[a.len() + 1 + i] == d[i]);
    }
    assert(b =~= d);
}

/// Pieces that do not hold the separator can be told from what they are joined to, as long as
/// either both lists have pieces or none has.
pub proof fn joined_is_injective(a: Seq<Seq<char>>, b: Seq<Seq<char>>, separator: char)
    requires
        free_of(a, separator),
        free_of(b, separator),
        a.len() == 0 <==> b.len() == 0,
        joined(a, separator) == joined(b, separator),
    ensures
        a == b,
    decreases a.len(),
{
    if a.len() == 0 {
        assert(a =~= b);
    } else if a.len() == 1 || b.len() == 1 {
        if a.len() > 1 {
            let whole = joined(a.drop_last(), separator).push(separator) + a.last();
            assert(whole[joined(a.drop_last(), separator).len() as int] == separator);
            assert(b[0].contains(separator));
        } else if b.len() > 1 {
            let whole = joined(b.drop_last(), separator).push(separator) + b.last();
            assert(whole[joined(b.drop_last(), separator).len() as int] == separator);
            assert(a[0].contains(separator));
        }
        assert(a =~= b);
    } else {
        assert(!a.last().contains(separator));
        assert(!b.last().contains(separator));
        split_at_last_is_unique(
            joined(a.drop_last(), separator),
            a.last(),
            joined(b.drop_last(), separator),
            b.last(),
            separator,
        );
        joined_is_injective(a.drop_last(), b.drop_last(), separator);
        assert(a =~= a.drop_last().push(a.last()));
        assert(b =~= b.drop_last().push(b.last()));
    }
}

/// The number that a text of digits writes.
pub open spec fn number(digits: Seq<char>) -> int
    decreases digits.len(),
{
    if digits.len() == 0 {
        0
    } else {
        number(digits.drop_last()) * 10 + (digits.last() as u32 - '0' as u32)
    }
}

/// A number in decimal is read back as that number: it is made of digits only, and of no leading
/// zero.
pub proof fn decimal_is_read_back(n: nat)
    ensures
        number(decimal(n)) == n,
        decimal(n).len() > 0,
        decimal(n).len() > 1 ==> decimal(n)[0] != '0',
        forall|i: int| 0 <= i < decimal(n).len() ==> '0' <= #[trigger] decimal(n)[i] <= '9',
    decreases n,
{
    reveal_with_fuel(number, 2);
    if n >= 10 {
        decimal_is_read_back(n / 10);
        let text = decimal(n);
        assert(text.drop_last() =~= decimal(n / 10));
        assert(text.last() == digit_char(n % 10));
        assert(text[0] == decimal(n / 10)[0]);
        if n / 10 < 10 {
            assert(decimal(n / 10)[0] == digit_char(n / 10));
        }
        assert forall|i: int| 0 <= i < text.len() implies '0' <= #[trigger] text[i] <= '9' by {
            if i < text.len() - 1 {
                assert(text[i] == decimal(n / 10)[i]);
            }
        }
    } else {
        assert(decimal(n).drop_last() =~= Seq::empty());
    }
}

/// A negative number is written as a `-` before its magnitude, and any other as it is without a
/// sign.
pub proof fn signed_decimal_is_read_back(n: int)
    ensures
        n >= 0 ==> number(signed_decimal(n)) == n,
        n < 0 ==> signed_decimal(n)[0] == '-' && number(signed_decimal(n).skip(1)) == -n,
{
    if n < 0 {
        decimal_is_read_back((-n) as nat);
        assert(signed_decimal(n).skip(1) =~= decimal((-n) as nat));
    } else {
        decimal_is_read_back(n as nat);
    }
}

/// A list of numbers is written number by number: in brackets, with a comma and a space before each
/// but the first.
pub proof fn lists_are_written_number_by_number(numbers: Seq<i64>, next: i64)
    ensures
        bracketed(Seq::empty()) == seq!['[', ']'],
        bracketed(numbers.push(next)) == bracketed(numbers).drop_last() + (if numbers.len() == 0 {
            Seq::empty()
        } else {
            seq![',', ' ']
        }) + signed_decimal(next as int) + seq![']'],
{
    let more = numbers.push(next);
    assert(bracketed(Seq::empty()) =~= seq!['[', ']']);
    assert(more.drop_last() =~= numbers);
    assert(bracketed(numbers).drop_last() =~= seq!['['] + listed(numbers));
    assert(bracketed(more) =~= bracketed(numbers).drop_last() + (if numbers.len() == 0 {
        Seq::empty()
    } else {
        seq![',', ' ']
    }) + signed_decimal(next as int) + seq![']']);
}

} // verus!
