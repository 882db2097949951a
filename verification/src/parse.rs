//! Reading a list of numbers from text: one decimal number per line.
//!
//! A line ends at a line feed; a carriage return directly before the line
//! feed belongs to the line ending. The last line needs no line ending. A
//! number is one or more decimal digits, with at most one `+` in front, and
//! has to fit in 32 bits. Anything else, an empty line or a blank included,
//! makes the whole text malformed.

use vstd::prelude::*;
use vstd::slice::slice_subrange;

verus! {

/// The byte is a decimal digit.
pub open spec fn is_digit(byte: u8) -> bool {
    0x30 <= byte <= 0x39
}

/// Every byte is a decimal digit.
pub open spec fn all_digits(bytes: Seq<u8>) -> bool {
    forall|i: int| 0 <= i < bytes.len() ==> is_digit(#[trigger] bytes[i])
}

/// The number that the digits write, the first digit counting most.
pub open spec fn digits_value(digits: Seq<u8>) -> nat
    decreases digits.len(),
{
    if digits.len() == 0 {
        0
    } else {
        digits_value(digits.drop_last()) * 10 + (digits.last() - 0x30) as nat
    }
}

/// The line without the `+` that may stand in front.
pub open spec fn unsigned_part(line: Seq<u8>) -> Seq<u8> {
    if line.len() > 0 && line[0] == 0x2b {
        line.subrange(1, line.len() as int)
    } else {
        line
    }
}

/// The number that a line stands for, if it stands for one.
pub open spec fn line_value(line: Seq<u8>) -> Option<u32> {
    let digits = unsigned_part(line);
    if digits.len() > 0 && all_digits(digits) && digits_value(digits) <= u32::MAX {
        Some(digits_value(digits) as u32)
    } else {
        None
    }
}

/// The index of the first line feed, or the length where there is none.
pub open spec fn line_end(text: Seq<u8>) -> int
    decreases text.len(),
{
    if text.len() == 0 || text[0] == 0x0a {
        0
    } else {
        1 + line_end(text.subrange(1, text.len() as int))
    }
}

/// The line without the carriage return that may stand at its end.
pub open spec fn without_return(line: Seq<u8>) -> Seq<u8> {
    if line.len() > 0 && line.last() == 0x0d {
        line.drop_last()
    } else {
        line
    }
}

/// The lines of a text, without their line endings. A last line that no line
/// feed ends is taken as it stands.
pub open spec fn lines_of(text: Seq<u8>) -> Seq<Seq<u8>>
    decreases text.len(),
{
    if text.len() == 0 {
        Seq::empty()
    } else {
        let end = line_end(text);
        if 0 <= end < text.len() {
            seq![without_return(text.subrange(0, end))] + lines_of(
                text.subrange(end + 1, text.len() as int),
            )
        } else {
            seq![text]
        }
    }
}

/// Every line of the text stands for a number.
pub open spec fn well_formed(text: Seq<u8>) -> bool {
    forall|i: int|
        0 <= i < lines_of(text).len() ==> line_value(#[trigger] lines_of(text)[i]).is_some()
}

/// The numbers of a well-formed text, line by line.
pub open spec fn numbers_of(text: Seq<u8>) -> Seq<u32> {
    Seq::new(lines_of(text).len(), |i: int| line_value(lines_of(text)[i]).unwrap())
}

/// The first line feed is where no byte before is one.
pub proof fn lemma_line_end(text: Seq<u8>, end: int)
    requires
        0 <= end <= text.len(),
        forall|k: int| 0 <= k < end ==> text[k] != 0x0a,
        end < text.len() ==> text[end] == 0x0a,
    ensures
        line_end(text) == end,
    decreases end,
{
    if end > 0 {
        let rest = text.subrange(1, text.len() as int);
        assert forall|k: int| 0 <= k < end - 1 implies rest[k] != 0x0a by {
            assert(rest[k] == text[k + 1]);
        }
        lemma_line_end(rest, end - 1);
    }
}

/// More digits never write a smaller number.
pub proof fn lemma_digits_prefix(digits: Seq<u8>, k: int)
    requires
        0 <= k <= digits.len(),
        all_digits(digits),
    ensures
        digits_value(digits.subrange(0, k)) <= digits_value(digits),
    decreases digits.len() - k,
{
    if k < digits.len() {
        lemma_digits_prefix(digits, k + 1);
        assert(digits.subrange(0, k + 1).drop_last() =~= digits.subrange(0, k));
    } else {
        assert(digits.subrange(0, k) =~= digits);
    }
}

/// The number that one line stands for: `None` exactly where the line is no
/// number of 32 bits.
pub fn parse_line(line: &[u8]) -> (number: Option<u32>)
    ensures
        number == line_value(line@),
{
    let length = line.len();
    let start: usize = if length > 0 && line[0] == 0x2b {
        1
    } else {
        0
    };
    let ghost digits = unsigned_part(line@);
    assert(digits =~= line@.subrange(start as int, length as int));
    if start == length {
        return None;
    }
    let mut value: u32 = 0;
    let mut i: usize = start;
    while i < length
        invariant
            start <= i <= length,
            length == line@.len(),
            digits == line@.subrange(start as int, length as int),
            digits == unsigned_part(line@),
            all_digits(line@.subrange(start as int, i as int)),
            value == digits_value(line@.subrange(start as int, i as int)),
        decreases length - i,
    {
        let byte = line[i];
        if byte < 0x30 || byte > 0x39 {
            assert(digits[i - start] == byte);
            return None;
        }
        let ghost longer = line@.subrange(start as int, i + 1);
        proof {
            assert(longer.drop_last() =~= line@.subrange(start as int, i as int));
            assert(longer.last() == byte);
            assert forall|k: int| 0 <= k < longer.len() implies is_digit(#[trigger] longer[k]) by {
                if k < longer.len() - 1 {
                    assert(longer[k] == line@.subrange(start as int, i as int)[k]);
                }
            }
        }
        let next: u64 = value as u64 * 10 + (byte - 0x30) as u64;
        if next > u32::MAX as u64 {
            proof {
                if all_digits(digits) {
                    lemma_digits_prefix(digits, i + 1 - start);
                    assert(digits.subrange(0, i + 1 - start) =~= longer);
                }
            }
            return None;
        }
        value = next as u32;
        i = i + 1;
    }
    Some(value)
}

/// The numbers of a text, line by line: `None` exactly where some line is no
/// number of 32 bits.
pub fn parse_numbers(text: &[u8]) -> (numbers: Option<Vec<u32>>)
    ensures
        numbers.is_some() <==> well_formed(text@),
        numbers.is_some() ==> numbers.unwrap()@ == numbers_of(text@),
{
    let length = text.len();
    let mut numbers: Vec<u32> = Vec::new();
    let mut pos: usize = 0;
    let ghost mut done: Seq<Seq<u8>> = Seq::empty();
    assert(text@.subrange(0, length as int) =~= text@);
    while pos < length
        invariant
            pos <= length,
            length == text@.len(),
            lines_of(text@) == done + lines_of(text@.subrange(pos as int, length as int)),
            numbers@.len() == done.len(),
            forall|i: int| 0 <= i < done.len() ==> line_value(#[trigger] done[i]) == Some(numbers@[i]),
        decreases length - pos,
    {
        let ghost rest = text@.subrange(pos as int, length as int);
        let mut end: usize = pos;
        while end < length && text[end] != 0x0a
            invariant
                pos <= end <= length,
                length == text@.len(),
                forall|k: int| pos <= k < end ==> text@[k] != 0x0a,
            decreases length - end,
        {
            end = end + 1;
        }
        proof {
            lemma_line_end(rest, end - pos);
        }
        let ended = end < length;
        let stop: usize = if ended && end > pos && text[end - 1] == 0x0d {
            end - 1
        } else {
            end
        };
        let line = slice_subrange(text, pos, stop);
        let next: usize = if ended {
            end + 1
        } else {
            end
        };
        proof {
            let tail = text@.subrange(next as int, length as int);
            if ended {
                assert(rest.subrange(0, end - pos) =~= text@.subrange(pos as int, end as int));
                assert(line@ =~= without_return(rest.subrange(0, end - pos)));
                assert(rest.subrange(end - pos + 1, rest.len() as int) =~= tail);
            } else {
                assert(line@ =~= rest);
                assert(tail.len() == 0);
            }
            assert(lines_of(rest) =~= seq![line@] + lines_of(tail));
            assert(lines_of(text@) =~= (done + seq![line@]) + lines_of(tail));
            assert(lines_of(text@)[done.len() as int] == line@);
        }
        match parse_line(line) {
            Some(number) => {
                numbers.push(number);
            },
            None => {
                return None;
            },
        }
        proof {
            done = done + seq![line@];
        }
        pos = next;
    }
    proof {
        assert(lines_of(text@) =~= done);
        assert(numbers@ =~= numbers_of(text@));
    }
    Some(numbers)
}

} // verus!
