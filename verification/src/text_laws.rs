//! What the ways to write and to cut text promise.

use vstd::prelude::*;

use crate::text::{blank, decimal, has_suffix, left_aligned, right_aligned, trimmed};
use crate::text::{trimmed_end, trimmed_start};

verus! {

/// The number that a row of decimal digits stands for.
pub open spec fn reading(digits: Seq<char>) -> int
    decreases digits.len(),
{
    if digits.len() == 0 {
        0
    } else {
        10 * reading(digits.drop_last()) + (digits.last() as int - 48)
    }
}

/// A number in decimal reads back: it is made of digits, the first of which is a zero only
/// if there is no other, and they stand for the number.
pub proof fn law_decimal_reads_back(n: nat)
    ensures
        decimal(n).len() > 0,
        forall|i: int| 0 <= i < decimal(n).len() ==> '0' <= #[trigger] decimal(n)[i] <= '9',
        decimal(n).len() > 1 ==> decimal(n)[0] != '0',
        reading(decimal(n)) == n,
    decreases n,
{
    if n >= 10 {
        law_decimal_reads_back(n / 10);
        let head = decimal(n / 10);
        assert(decimal(n).drop_last() =~= head);
        assert(decimal(n)[0] == head[0]);
        if head.len() == 1 {
            assert(reading(head.drop_last()) == 0);
            assert(head[0] == head.last());
        }
        assert(decimal(n).last() as int == 48 + n % 10);
        assert(reading(decimal(n)) == 10 * reading(head) + n % 10);
    } else {
        assert(decimal(n).drop_last() =~= Seq::empty());
        assert(decimal(n).last() as int == 48 + n);
        assert(reading(decimal(n)) == 10 * reading(Seq::<char>::empty()) + n);
    }
}

/// Whether text starts with `prefix`.
pub open spec fn has_prefix(text: Seq<char>, prefix: Seq<char>) -> bool {
    prefix.len() <= text.len() && text.take(prefix.len() as int) == prefix
}

/// Text starts with its first part, and ends in its last.
pub proof fn law_parts_stand_at_the_ends(a: Seq<char>, b: Seq<char>, text: Seq<char>)
    ensures
        has_prefix(a + b, a),
        has_suffix(a + b, b),
        has_suffix(text, b) <==> exists|front: Seq<char>| text == #[trigger] (front + b),
{
    assert((a + b).take(a.len() as int) =~= a);
    assert((a + b).skip((a + b).len() - b.len()) =~= b);
    if has_suffix(text, b) {
        let front = text.take(text.len() - b.len());
        assert(text =~= front + b);
    }
    if exists|front: Seq<char>| text == #[trigger] (front + b) {
        let front = choose|front: Seq<char>| text == #[trigger] (front + b);
        assert(text.skip(text.len() - b.len()) =~= b);
    }
}

/// Whether the text from place `i` to place `j` is what is left when white space, and nothing
/// else, is cut off at both ends.
pub open spec fn cut_bare(text: Seq<char>, i: int, j: int) -> bool {
    &&& 0 <= i <= j <= text.len()
    &&& forall|k: int| 0 <= k < i ==> blank(#[trigger] text[k])
    &&& forall|k: int| j <= k < text.len() ==> blank(#[trigger] text[k])
    &&& i < j ==> !blank(text[i]) && !blank(text[j - 1])
}

/// Trimming cuts off the white space at both ends, all of it and nothing else.
pub proof fn law_trimming_cuts_white_space_alone(text: Seq<char>)
    ensures
        exists|i: int, j: int| #[trigger]
            cut_bare(text, i, j) && trimmed(text) == text.subrange(i, j),
{
    let i = lemma_trimmed_start(text);
    let rest = text.skip(i);
    let k = lemma_trimmed_end(rest);
    let j = i + k;
    assert(rest.take(k) =~= text.subrange(i, j));
    assert forall|m: int| j <= m < text.len() implies blank(#[trigger] text[m]) by {
        assert(rest[m - i] == text[m]);
    }
    if i < j {
        assert(rest[0] == text[i]);
        assert(rest[k - 1] == text[j - 1]);
    }
    assert(cut_bare(text, i, j));
}

proof fn lemma_trimmed_start(text: Seq<char>) -> (i: int)
    ensures
        0 <= i <= text.len(),
        trimmed_start(text) == text.skip(i),
        forall|k: int| 0 <= k < i ==> blank(#[trigger] text[k]),
        i < text.len() ==> !blank(text[i]),
    decreases text.len(),
{
    if text.len() > 0 && blank(text.first()) {
        let rest = text.drop_first();
        let i = lemma_trimmed_start(rest);
        assert(rest.skip(i) =~= text.skip(i + 1));
        assert forall|k: int| 0 <= k < i + 1 implies blank(#[trigger] text[k]) by {
            if k > 0 {
                assert(rest[k - 1] == text[k]);
            }
        }
        if i + 1 < text.len() {
            assert(rest[i] == text[i + 1]);
        }
        i + 1
    } else {
        assert(text.skip(0) =~= text);
        0
    }
}

proof fn lemma_trimmed_end(text: Seq<char>) -> (j: int)
    ensures
        0 <= j <= text.len(),
        trimmed_end(text) == text.take(j),
        forall|k: int| j <= k < text.len() ==> blank(#[trigger] text[k]),
        j > 0 ==> !blank(text[j - 1]),
    decreases text.len(),
{
    if text.len() > 0 && blank(text.last()) {
        let rest = text.drop_last();
        let j = lemma_trimmed_end(rest);
        assert(rest.take(j) =~= text.take(j));
        assert forall|k: int| j <= k < text.len() implies blank(#[trigger] text[k]) by {
            if k < rest.len() {
                assert(rest[k] == text[k]);
            }
        }
        if j > 0 {
            assert(rest[j - 1] == text[j - 1]);
        }
        j
    } else {
        assert(text.take(text.len() as int) =~= text);
        text.len() as int
    }
}

/// Alignment fills up with spaces to the width, on one side, and cuts nothing off.
pub proof fn law_alignment_fills_with_spaces(text: Seq<char>, width: int)
    ensures
        ({
            let right = right_aligned(text, width);
            let left = left_aligned(text, width);
            let gap = if text.len() < width {
                width - text.len()
            } else {
                0
            };
            &&& right.len() == text.len() + gap
            &&& left.len() == text.len() + gap
            &&& right.skip(gap) == text
            &&& left.take(text.len() as int) == text
            &&& forall|i: int| 0 <= i < gap ==> #[trigger] right[i] == ' '
            &&& forall|i: int| text.len() <= i < left.len() ==> #[trigger] left[i] == ' '
        }),
{
    let gap = if text.len() < width {
        width - text.len()
    } else {
        0
    };
    assert(right_aligned(text, width).skip(gap) =~= text);
    assert(left_aligned(text, width).take(text.len() as int) =~= text);
}

/// Two texts that are the same after the same end was put behind them are the same.
pub(crate) proof fn lemma_ends_cancel(a: Seq<char>, b: Seq<char>, end: Seq<char>)
    requires
        a + end == b + end,
    ensures
        a == b,
{
    assert((a + end).len() == a.len() + end.len());
    assert((b + end).len() == b.len() + end.len());
    assert(a =~= (a + end).take(a.len() as int));
    assert(b =~= (b + end).take(b.len() as int));
}

/// Two texts that are the same after the same start was put before them are the same.
pub(crate) proof fn lemma_starts_cancel(start: Seq<char>, a: Seq<char>, b: Seq<char>)
    requires
        start + a == start + b,
    ensures
        a == b,
{
    assert(a =~= (start + a).skip(start.len() as int));
    assert(b =~= (start + b).skip(start.len() as int));
}

} // verus!
