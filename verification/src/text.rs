//! Text: decimal numbers, padding, trimming and comparing.

use vstd::prelude::*;
use vstd::string::{StrSliceExecFns, StringExecFns};

verus! {

/// The character of a decimal digit.
pub open spec fn digit(d: nat) -> char {
    (48 + d) as char
}

/// A number in decimal, without leading zeros.
pub open spec fn decimal(n: nat) -> Seq<char>
    decreases n,
{
    if n < 10 {
        seq![digit(n)]
    } else {
        decimal(n / 10).push(digit(n % 10))
    }
}

/// So many spaces.
pub open spec fn spaces(n: int) -> Seq<char> {
    Seq::new(
        if n < 0 {
            0
        } else {
            n as nat
        },
        |i: int| ' ',
    )
}

/// Text filled up with spaces on the left to at least `width` characters.
pub open spec fn right_aligned(text: Seq<char>, width: int) -> Seq<char> {
    spaces(width - text.len()) + text
}

/// Text filled up with spaces on the right to at least `width` characters.
pub open spec fn left_aligned(text: Seq<char>, width: int) -> Seq<char> {
    text + spaces(width - text.len())
}

/// Whether a character is white space: the Unicode property `White_Space`.
pub open spec fn blank(c: char) -> bool {
    ||| 0x09 <= c as u32 <= 0x0d
    ||| c as u32 == 0x20
    ||| c as u32 == 0x85
    ||| c as u32 == 0xa0
    ||| c as u32 == 0x1680
    ||| 0x2000 <= c as u32 <= 0x200a
    ||| c as u32 == 0x2028
    ||| c as u32 == 0x2029
    ||| c as u32 == 0x202f
    ||| c as u32 == 0x205f
    ||| c as u32 == 0x3000
}

/// Text without the white space at its end.
pub open spec fn trimmed_end(text: Seq<char>) -> Seq<char>
    decreases text.len(),
{
    if text.len() > 0 && blank(text.last()) {
        trimmed_end(text.drop_last())
    } else {
        text
    }
}

/// Text without the white space at its beginning.
pub open spec fn trimmed_start(text: Seq<char>) -> Seq<char>
    decreases text.len(),
{
    if text.len() > 0 && blank(text.first()) {
        trimmed_start(text.drop_first())
    } else {
        text
    }
}

/// Text without the white space at its beginning and its end.
pub open spec fn trimmed(text: Seq<char>) -> Seq<char> {
    trimmed_end(trimmed_start(text))
}

/// Whether text ends in `suffix`.
pub open spec fn has_suffix(text: Seq<char>, suffix: Seq<char>) -> bool {
    suffix.len() <= text.len() && text.skip(text.len() - suffix.len()) == suffix
}

/// A digit as text.
fn digit_text(d: u64) -> (text: &'static str)
    requires
        d < 10,
    ensures
        text@ == seq![digit(d as nat)],
{
    proof {
        reveal_strlit("0");
        reveal_strlit("1");
        reveal_strlit("2");
        reveal_strlit("3");
        reveal_strlit("4");
        reveal_strlit("5");
        reveal_strlit("6");
        reveal_strlit("7");
        reveal_strlit("8");
        reveal_strlit("9");
    }
    let text = match d {
        0 => "0",
        1 => "1",
        2 => "2",
        3 => "3",
        4 => "4",
        5 => "5",
        6 => "6",
        7 => "7",
        8 => "8",
        _ => "9",
    };
    assert(text@ =~= seq![digit(d as nat)]);
    text
}

/// Appends a number in decimal.
pub fn push_decimal(out: &mut String, n: u64)
    ensures
        final(out)@ == old(out)@ + decimal(n as nat),
    decreases n,
{
    if n >= 10 {
        push_decimal(out, n / 10);
    }
    out.append(digit_text(n % 10));
    assert(out@ =~= old(out)@ + decimal(n as nat));
}

/// Appends `n` spaces.
fn push_spaces(out: &mut String, n: usize)
    ensures
        final(out)@ == old(out)@ + spaces(n as int),
{
    let mut i: usize = 0;
    assert(out@ =~= old(out)@ + spaces(0));
    while i < n
        invariant
            i <= n,
            out@ == old(out)@ + spaces(i as int),
        decreases n - i,
    {
        proof {
            reveal_strlit(" ");
        }
        out.append(" ");
        assert(out@ =~= old(out)@ + spaces(i + 1));
        i = i + 1;
    }
}

/// Appends text, filled up on the left to at least `width` characters.
pub fn push_right_aligned(out: &mut String, text: &str, width: usize)
    ensures
        final(out)@ == old(out)@ + right_aligned(text@, width as int),
{
    let n: usize = text.unicode_len();
    if n < width {
        push_spaces(out, width - n);
    }
    out.append(text);
    assert(out@ =~= old(out)@ + right_aligned(text@, width as int));
}

/// Appends text, filled up on the right to at least `width` characters.
pub fn push_left_aligned(out: &mut String, text: &str, width: usize)
    ensures
        final(out)@ == old(out)@ + left_aligned(text@, width as int),
{
    let n: usize = text.unicode_len();
    out.append(text);
    if n < width {
        push_spaces(out, width - n);
    }
    assert(out@ =~= old(out)@ + left_aligned(text@, width as int));
}

/// Whether two texts are the same.
pub fn same(a: &str, b: &str) -> (r: bool)
    ensures
        r == (a@ == b@),
{
    a.to_owned() == b.to_owned()
}

/// Whether text ends in `suffix`.
pub fn ends_with(text: &str, suffix: &str) -> (r: bool)
    ensures
        r == has_suffix(text@, suffix@),
{
    let n: usize = text.unicode_len();
    let k: usize = suffix.unicode_len();
    if k > n {
        return false;
    }
    assert(text@.subrange(n - k, n as int) =~= text@.skip(n - k));
    same(text.substring_char(n - k, n), suffix)
}

/// Whether a character is white space.
pub fn is_blank(c: char) -> (r: bool)
    ensures
        r == blank(c),
{
    let u: u32 = c as u32;
    (0x09 <= u && u <= 0x0d) || u == 0x20 || u == 0x85 || u == 0xa0 || u == 0x1680 || (0x2000 <= u
        && u <= 0x200a) || u == 0x2028 || u == 0x2029 || u == 0x202f || u == 0x205f || u == 0x3000
}

/// Text without the white space at its beginning and its end.
pub fn trim(text: &str) -> (r: &str)
    ensures
        r@ == trimmed(text@),
{
    let n: usize = text.unicode_len();
    let mut start: usize = 0;
    assert(text@.skip(0) =~= text@);
    while start < n && is_blank(text.get_char(start))
        invariant
            start <= n,
            n == text@.len(),
            trimmed_start(text@) == trimmed_start(text@.skip(start as int)),
        decreases n - start,
    {
        assert(text@.skip(start as int).drop_first() =~= text@.skip(start + 1));
        start = start + 1;
    }
    assert(trimmed_start(text@) == text@.skip(start as int));
    let mut end: usize = n;
    assert(text@.subrange(start as int, n as int) =~= text@.skip(start as int));
    while end > start && is_blank(text.get_char(end - 1))
        invariant
            start <= end <= n,
            n == text@.len(),
            trimmed(text@) == trimmed_end(text@.subrange(start as int, end as int)),
        decreases end,
    {
        assert(text@.subrange(start as int, end as int).drop_last() =~= text@.subrange(
            start as int,
            end - 1,
        ));
        end = end - 1;
    }
    text.substring_char(start, end)
}

} // verus!
