//! The board size as the options name it: a decimal number, then `x` and the rest.

use vstd::prelude::*;
use vstd::string::StrSliceExecFns;

verus! {

/// How many characters of `text` stand before its first `x`: all, where there is none.
pub open spec fn field_len(text: Seq<char>) -> nat
    decreases text.len(),
{
    if text.len() == 0 || text[0] == 'x' {
        0
    } else {
        1 + field_len(text.drop_first())
    }
}

/// `c` is one of the ten decimal digits.
pub open spec fn is_digit(c: char) -> bool {
    '0' <= c && c <= '9'
}

/// All of `text` is decimal digits.
pub open spec fn all_digits(text: Seq<char>) -> bool {
    forall|i: int| 0 <= i < text.len() ==> is_digit(#[trigger] text[i])
}

/// The number that the digits of `text` write in base ten.
pub open spec fn decimal(text: Seq<char>) -> nat
    decreases text.len(),
{
    if text.len() == 0 {
        0
    } else {
        (10 * decimal(text.drop_last()) + (text.last() as nat - '0' as nat)) as nat
    }
}

/// The digits of a number as written: the text without a leading `+`.
pub open spec fn unsigned(text: Seq<char>) -> Seq<char> {
    if text.len() > 0 && text[0] == '+' {
        text.drop_first()
    } else {
        text
    }
}

/// The board size that `text` names: the number written before its first `x`,
/// where that is one or more decimal digits, a `+` before them or not, of a
/// number that fits the machine word.
pub open spec fn board_size_named(text: Seq<char>) -> Option<usize> {
    let digits = unsigned(text.take(field_len(text) as int));
    if digits.len() > 0 && all_digits(digits) && decimal(digits) <= usize::MAX {
        Some(decimal(digits) as usize)
    } else {
        None
    }
}

proof fn lemma_field_len(text: Seq<char>)
    ensures
        field_len(text) <= text.len(),
        forall|i: int| 0 <= i < field_len(text) ==> text[i] != 'x',
        field_len(text) < text.len() ==> text[field_len(text) as int] == 'x',
    decreases text.len(),
{
    if text.len() > 0 && text[0] != 'x' {
        let rest = text.drop_first();
        lemma_field_len(rest);
        assert forall|i: int| 0 <= i < field_len(text) implies text[i] != 'x' by {
            if i > 0 {
                assert(text[i] == rest[i - 1]);
            }
        }
        if field_len(text) < text.len() {
            assert(text[field_len(text) as int] == rest[field_len(rest) as int]);
        }
    }
}

/// The field ends at the first `x`, or where the text ends.
proof fn lemma_field_ends(text: Seq<char>, end: int)
    requires
        0 <= end <= text.len(),
        forall|i: int| 0 <= i < end ==> text[i] != 'x',
        end < text.len() ==> text[end] == 'x',
    ensures
        field_len(text) == end,
{
    lemma_field_len(text);
    if field_len(text) < end {
    }
}

proof fn lemma_decimal_grows(text: Seq<char>, longer: Seq<char>)
    requires
        all_digits(longer),
        text.is_prefix_of(longer),
    ensures
        decimal(text) <= decimal(longer),
    decreases longer.len(),
{
    if text.len() < longer.len() {
        assert(text.is_prefix_of(longer.drop_last()));
        assert(all_digits(longer.drop_last())) by {
            assert forall|i: int| 0 <= i < longer.drop_last().len() implies is_digit(
                #[trigger] longer.drop_last()[i],
            ) by {
                assert(longer.drop_last()[i] == longer[i]);
            }
        }
        lemma_decimal_grows(text, longer.drop_last());
        assert(is_digit(longer[longer.len() - 1]));
    } else {
        assert(text =~= longer);
    }
}

/// The value of the digit `c`.
fn digit_value(c: char) -> (value: Option<usize>)
    ensures
        value is Some <==> is_digit(c),
        value is Some ==> value->0 == c as nat - '0' as nat,
{
    if c >= '0' && c <= '9' {
        Some((c as u32 - '0' as u32) as usize)
    } else {
        None
    }
}

/// Reads the board size that an option value such as `19x19` names.
pub fn parse_board_size(text: &str) -> (size: Option<usize>)
    ensures
        size == board_size_named(text@),
{
    let len = text.unicode_len();
    let mut end: usize = 0;
    while end < len && text.get_char(end) != 'x'
        invariant
            len == text@.len(),
            0 <= end <= len,
            forall|i: int| 0 <= i < end ==> text@[i] != 'x',
        decreases len - end,
    {
        end += 1;
    }
    let start: usize = if end > 0 && text.get_char(0) == '+' {
        1
    } else {
        0
    };
    let ghost digits = unsigned(text@.take(field_len(text@) as int));
    proof {
        lemma_field_ends(text@, end as int);
        assert(digits =~= text@.subrange(start as int, end as int));
    }
    if start == end {
        return None;
    }
    let mut value: usize = 0;
    let mut i: usize = start;
    while i < end
        invariant
            len == text@.len(),
            start <= i <= end <= len,
            digits == text@.subrange(start as int, end as int),
            digits == unsigned(text@.take(field_len(text@) as int)),
            all_digits(digits.take(i - start)),
            value == decimal(digits.take(i - start)),
        decreases end - i,
    {
        let ghost read = digits.take(i - start);
        let ghost next = digits.take(i + 1 - start);
        proof {
            assert(next.drop_last() =~= read);
            assert(next.last() == text@[i as int]);
        }
        let digit = match digit_value(text.get_char(i)) {
            Some(digit) => digit,
            None => {
                proof {
                    assert(!is_digit(digits[i - start]));
                }
                return None;
            },
        };
        proof {
            assert(all_digits(next)) by {
                assert forall|j: int| 0 <= j < next.len() implies is_digit(#[trigger] next[j]) by {
                    if j < read.len() {
                        assert(next[j] == read[j]);
                    }
                }
            }
        }
        if value > (usize::MAX - digit) / 10 {
            proof {
                assert(decimal(next) > usize::MAX);
                if all_digits(digits) {
                    lemma_decimal_grows(next, digits);
                }
            }
            return None;
        }
        value = value * 10 + digit;
        i += 1;
    }
    proof {
        assert(digits.take(end - start) =~= digits);
    }
    Some(value)
}

} // verus!
