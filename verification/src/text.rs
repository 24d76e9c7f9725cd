//! Text building: the few string operations the renderers need.
use vstd::prelude::*;
use vstd::string::StringExecFns;

verus! {

/// What `{:?}` prints for a text: the text between double quotes, with the
/// characters that cannot stand there as they are written as escapes.
pub uninterp spec fn debug_quoted(text: Seq<char>) -> Seq<char>;

/// The standard library's `Debug` formatting of `str`. Its result depends
/// on the characters of `text` alone and goes by the name `debug_quoted`.
#[verifier::external_body]
pub(crate) fn debug_quote(text: &str) -> (quoted: String)
    ensures
        quoted@ == debug_quoted(text@),
{
    format!("{:?}", text)
}

/// What `{:?}` prints for a character: the character between single
/// quotes, written as an escape where it cannot stand there as it is.
pub uninterp spec fn debug_char_text(c: char) -> Seq<char>;

/// The standard library's `Debug` formatting of `char`. Its result depends
/// on the character alone and goes by the name `debug_char_text`.
#[verifier::external_body]
pub(crate) fn debug_char(c: char) -> (quoted: String)
    ensures
        quoted@ == debug_char_text(c),
{
    format!("{:?}", c)
}

/// `String::push`: the character is added at the end.
#[verifier::external_body]
pub(crate) fn push_char(text: &mut String, c: char)
    ensures
        final(text)@ == old(text)@.push(c),
{
    text.push(c)
}

/// The character that stands for the digit `d`.
pub open spec fn digit_char(d: int) -> char {
    if d == 0 {
        '0'
    } else if d == 1 {
        '1'
    } else if d == 2 {
        '2'
    } else if d == 3 {
        '3'
    } else if d == 4 {
        '4'
    } else if d == 5 {
        '5'
    } else if d == 6 {
        '6'
    } else if d == 7 {
        '7'
    } else if d == 8 {
        '8'
    } else {
        '9'
    }
}

/// The decimal digits of `n`, most significant first, without leading
/// zeros.
pub open spec fn decimal_digits(n: nat) -> Seq<char>
    decreases n,
{
    if n < 10 {
        seq![digit_char(n as int)]
    } else {
        decimal_digits(n / 10).push(digit_char((n % 10) as int))
    }
}

/// The decimal text of `n`: a minus sign where it is negative, then the
/// digits of its magnitude.
pub open spec fn decimal_text(n: int) -> Seq<char> {
    if n < 0 {
        seq!['-'] + decimal_digits((-n) as nat)
    } else {
        decimal_digits(n as nat)
    }
}

/// The character for one decimal digit.
fn digit(d: u32) -> (c: char)
    requires
        d < 10,
    ensures
        c == digit_char(d as int),
{
    if d == 0 {
        '0'
    } else if d == 1 {
        '1'
    } else if d == 2 {
        '2'
    } else if d == 3 {
        '3'
    } else if d == 4 {
        '4'
    } else if d == 5 {
        '5'
    } else if d == 6 {
        '6'
    } else if d == 7 {
        '7'
    } else if d == 8 {
        '8'
    } else {
        '9'
    }
}

/// Writes the decimal digits of `n` at the end of `text`.
fn push_digits(text: &mut String, n: u32)
    ensures
        final(text)@ == old(text)@ + decimal_digits(n as nat),
    decreases n,
{
    if n >= 10 {
        push_digits(text, n / 10);
    }
    push_char(text, digit(n % 10));
    assert(text@ =~= old(text)@ + decimal_digits(n as nat));
}

/// Writes `n` in decimal.
pub fn int_to_text(n: i32) -> (text: String)
    ensures
        text@ == decimal_text(n as int),
{
    let mut text = String::new();
    if n < 0 {
        push_char(&mut text, '-');
        let magnitude: u32 = (-(n as i64)) as u32;
        push_digits(&mut text, magnitude);
    } else {
        push_digits(&mut text, n as u32);
    }
    assert(text@ =~= decimal_text(n as int));
    text
}

/// Adds `part` at the end of `text`.
pub fn push_text(text: &mut String, part: &str)
    ensures
        final(text)@ == old(text)@ + part@,
{
    text.append(part);
}

/// The parts into which the separator `sep` cuts `text`: one more than
/// there are separators, each part without them. A text without a
/// separator is its own single part; so is the empty text.
pub open spec fn split_on(text: Seq<char>, sep: char) -> Seq<Seq<char>>
    decreases text.len(),
{
    if text.len() == 0 {
        seq![Seq::empty()]
    } else {
        let parts = split_on(text.drop_last(), sep);
        if text.last() == sep {
            parts.push(Seq::empty())
        } else {
            parts.drop_last().push(parts.last().push(text.last()))
        }
    }
}

/// The views of the strings of `parts`, in order.
pub open spec fn views(parts: Seq<String>) -> Seq<Seq<char>> {
    Seq::new(parts.len(), |i: int| parts[i]@)
}

/// There is at least one part.
pub proof fn lemma_split_on_nonempty(text: Seq<char>, sep: char)
    ensures
        split_on(text, sep).len() >= 1,
    decreases text.len(),
{
    if text.len() > 0 {
        lemma_split_on_nonempty(text.drop_last(), sep);
    }
}

/// Cuts `text` at every `sep`.
pub fn split_text(text: &str, sep: char) -> (parts: Vec<String>)
    ensures
        views(parts@) == split_on(text@, sep),
{
    let mut parts: Vec<String> = Vec::new();
    let mut current = String::new();
    assert(text@.take(0) =~= Seq::<char>::empty());
    assert(views(parts@).push(current@) =~= split_on(text@.take(0), sep));
    for c in it: text.chars()
        invariant
            it.seq() == text@,
            views(parts@).push(current@) == split_on(text@.take(it.index() as int), sep),
    {
        let ghost k = it.index() as int;
        let ghost before = views(parts@);
        let ghost open = current@;
        proof {
            assert(text@.take(k + 1).drop_last() =~= text@.take(k));
            assert(text@.take(k + 1).last() == c);
            assert(before.push(open).drop_last() =~= before);
        }
        if c == sep {
            parts.push(current);
            current = String::new();
            assert(views(parts@) =~= before.push(open));
        } else {
            push_char(&mut current, c);
        }
        assert(views(parts@).push(current@) =~= split_on(text@.take(k + 1), sep));
    }
    assert(text@.take(text@.len() as int) =~= text@);
    let ghost before = views(parts@);
    parts.push(current);
    assert(views(parts@) =~= before.push(current@));
    parts
}

/// The first `n` parts one after the other, with an arrow between each
/// two.
pub open spec fn arrow_joined(parts: Seq<Seq<char>>, n: nat) -> Seq<char>
    decreases n,
{
    if n == 0 || n > parts.len() {
        Seq::empty()
    } else if n == 1 {
        parts[0]
    } else {
        arrow_joined(parts, (n - 1) as nat) + " -> "@ + parts[n - 1]
    }
}

/// Joins the parts with ` -> `, as a list is shown from its first item to
/// its last.
pub fn join_with_arrows(parts: &Vec<String>) -> (text: String)
    ensures
        text@ == arrow_joined(views(parts@), parts@.len()),
{
    let mut text = String::new();
    let mut i: usize = 0;
    while i < parts.len()
        invariant
            i <= parts@.len(),
            text@ == arrow_joined(views(parts@), i as nat),
        decreases parts@.len() - i,
    {
        if i > 0 {
            push_text(&mut text, " -> ");
        }
        push_text(&mut text, parts[i].as_str());
        i = i + 1;
        assert(text@ =~= arrow_joined(views(parts@), i as nat));
    }
    text
}

} // verus!
