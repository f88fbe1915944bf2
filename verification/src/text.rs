//! The text of the settings: fields between commas, and unsigned decimal
//! numbers.

use vstd::prelude::*;

verus! {

/// The byte `,`, which parts the fields.
pub const COMMA: u8 = 0x2c;

/// The byte `+`, which may stand before a number.
pub const PLUS: u8 = 0x2b;

/// The byte `?`, which alone asks for the default.
pub const QUESTION: u8 = 0x3f;

/// The byte `0`.
pub const ZERO: u8 = 0x30;

/// The byte `9`.
pub const NINE: u8 = 0x39;

/// A stretch of a text: the bytes from `start` up to but without `end`.
#[derive(Clone, Copy, Debug, PartialEq, Eq, Structural)]
pub struct Span {
    pub start: usize,
    pub end: usize,
}

impl Span {
    /// The bytes of `text` that the span picks out.
    pub open spec fn of(&self, text: Seq<u8>) -> Seq<u8>
        recommends
            self.start <= self.end <= text.len(),
    {
        text.subrange(self.start as int, self.end as int)
    }

    /// Whether the span lies inside a text of `len` bytes.
    pub open spec fn fits(&self, len: int) -> bool {
        self.start <= self.end <= len
    }
}

/// What a setting's text fails by.
#[derive(Clone, Copy, Debug, PartialEq, Eq, Structural)]
pub enum SettingError {
    /// The text has `found` fields between its commas, not `expected`.
    FieldCount { expected: usize, found: usize },
    /// The field at this place is no number.
    NotANumber { field: usize },
    /// The field at this place is a number too large for its type.
    TooLarge { field: usize },
    /// The field at this place is zero.
    NotPositive { field: usize },
}

/// What a field fails by that should be an unsigned number.
#[derive(Clone, Copy, Debug, PartialEq, Eq, Structural)]
pub enum NumberError {
    /// Not a run of digits with at most a `+` before it.
    Malformed,
    /// A number above the limit.
    TooLarge,
}

/// The fields of a text, which commas part: one more than there are
/// commas, each possibly empty.
pub open spec fn split_fields(text: Seq<u8>) -> Seq<Seq<u8>>
    decreases text.len(),
{
    if text.len() == 0 {
        seq![Seq::<u8>::empty()]
    } else {
        let before = split_fields(text.drop_last());
        if text.last() == COMMA {
            before.push(Seq::<u8>::empty())
        } else {
            before.update(before.len() - 1, before.last().push(text.last()))
        }
    }
}

/// The fields set one after another with a comma between neighbours.
pub open spec fn join_fields(fields: Seq<Seq<u8>>) -> Seq<u8>
    decreases fields.len(),
{
    if fields.len() == 0 {
        Seq::<u8>::empty()
    } else if fields.len() == 1 {
        fields[0]
    } else {
        join_fields(fields.drop_last()).push(COMMA) + fields.last()
    }
}

/// A text has at least one field; no field holds a comma; and the fields
/// joined by commas are the text again.
pub proof fn lemma_split_fields(text: Seq<u8>)
    ensures
        split_fields(text).len() >= 1,
        forall|k: int, i: int|
            0 <= k < split_fields(text).len() && 0 <= i < split_fields(text)[k].len()
                ==> #[trigger] split_fields(text)[k][i] != COMMA,
        join_fields(split_fields(text)) == text,
    decreases text.len(),
{
    if text.len() > 0 {
        let shorter = text.drop_last();
        lemma_split_fields(shorter);
        let before = split_fields(shorter);
        let fields = split_fields(text);
        if text.last() == COMMA {
            assert(fields.drop_last() =~= before);
            assert(join_fields(fields) =~= join_fields(before).push(COMMA));
            assert(shorter.push(COMMA) =~= text);
        } else {
            if before.len() == 1 {
                assert(join_fields(fields) =~= shorter.push(text.last()));
            } else {
                assert(fields.drop_last() =~= before.drop_last());
                assert(join_fields(fields) =~= (join_fields(before.drop_last()).push(COMMA)
                    + before.last()).push(text.last()));
            }
            assert(shorter.push(text.last()) =~= text);
        }
    } else {
        assert(join_fields(split_fields(text)) =~= text);
    }
}

/// Where each field of the text lies.
pub fn field_spans(text: &[u8]) -> (spans: Vec<Span>)
    ensures
        spans@.len() == split_fields(text@).len(),
        forall|k: int|
            0 <= k < spans@.len() ==> (#[trigger] spans@[k]).fits(text@.len() as int)
                && spans@[k].of(text@) == split_fields(text@)[k],
{
    let mut spans: Vec<Span> = Vec::new();
    let mut start: usize = 0;
    let mut i: usize = 0;
    assert(text@.take(0) =~= Seq::<u8>::empty());
    assert(text@.subrange(0, 0) =~= Seq::<u8>::empty());
    while i < text.len()
        invariant
            start <= i <= text@.len(),
            spans@.len() + 1 == split_fields(text@.take(i as int)).len(),
            forall|k: int|
                0 <= k < spans@.len() ==> (#[trigger] spans@[k]).fits(text@.len() as int)
                    && spans@[k].of(text@) == split_fields(text@.take(i as int))[k],
            text@.subrange(start as int, i as int) == split_fields(text@.take(i as int)).last(),
        decreases text@.len() - i,
    {
        assert(text@.take(i + 1).drop_last() =~= text@.take(i as int));
        assert(text@.take(i + 1).last() == text@[i as int]);
        if text[i] == COMMA {
            spans.push(Span { start, end: i });
            start = i + 1;
            assert(text@.subrange(start as int, i + 1) =~= Seq::<u8>::empty());
        } else {
            assert(text@.subrange(start as int, i + 1) =~= text@.subrange(
                start as int,
                i as int,
            ).push(text@[i as int]));
        }
        i += 1;
    }
    assert(text@.take(i as int) =~= text@);
    spans.push(Span { start, end: i });
    spans
}

/// Whether the byte is one of the ten digits.
pub open spec fn is_digit(b: u8) -> bool {
    ZERO <= b <= NINE
}

/// The number that a run of digits writes in base ten; an empty run
/// writes zero.
pub open spec fn digits_value(digits: Seq<u8>) -> nat
    decreases digits.len(),
{
    if digits.len() == 0 {
        0
    } else {
        10 * digits_value(digits.drop_last()) + (digits.last() - ZERO) as nat
    }
}

/// The field without the `+` that may stand at its head.
pub open spec fn unsigned_digits(field: Seq<u8>) -> Seq<u8> {
    if field.len() > 0 && field[0] == PLUS {
        field.subrange(1, field.len() as int)
    } else {
        field
    }
}

/// Whether the field writes an unsigned number: one digit or more, with
/// at most a `+` before them and nothing else around them.
pub open spec fn is_unsigned(field: Seq<u8>) -> bool {
    let digits = unsigned_digits(field);
    digits.len() > 0 && forall|i: int| 0 <= i < digits.len() ==> is_digit(#[trigger] digits[i])
}

/// The number that the field writes.
pub open spec fn unsigned_value(field: Seq<u8>) -> nat {
    digits_value(unsigned_digits(field))
}

/// What the field is read as under the limit `max`: its number, or why it
/// has none.
pub open spec fn read_unsigned(field: Seq<u8>, max: u64) -> Result<u64, NumberError> {
    if !is_unsigned(field) {
        Err(NumberError::Malformed)
    } else if unsigned_value(field) > max {
        Err(NumberError::TooLarge)
    } else {
        Ok(unsigned_value(field) as u64)
    }
}

/// Reads the field that `span` picks out of `text` as an unsigned number
/// of at most `max`.
pub fn parse_unsigned(text: &[u8], span: Span, max: u64) -> (res: Result<u64, NumberError>)
    requires
        span.fits(text@.len() as int),
    ensures
        res == read_unsigned(span.of(text@), max),
{
    let ghost field = span.of(text@);
    let first: usize = if span.start < span.end && text[span.start] == PLUS {
        span.start + 1
    } else {
        span.start
    };
    let ghost digits = unsigned_digits(field);
    assert(digits =~= text@.subrange(first as int, span.end as int));
    if first == span.end {
        return Err(NumberError::Malformed);
    }
    let mut value: u64 = 0;
    let mut exceeded: bool = false;
    let mut i: usize = first;
    assert(digits.take(0) =~= Seq::<u8>::empty());
    while i < span.end
        invariant
            first <= i <= span.end <= text@.len(),
            digits == text@.subrange(first as int, span.end as int),
            digits == unsigned_digits(span.of(text@)),
            forall|j: int| 0 <= j < i - first ==> is_digit(#[trigger] digits[j]),
            !exceeded ==> value == digits_value(digits.take(i - first)) && value <= max,
            exceeded ==> digits_value(digits.take(i - first)) > max,
        decreases span.end - i,
    {
        let b: u8 = text[i];
        assert(b == digits[i - first]);
        if b < ZERO || b > NINE {
            return Err(NumberError::Malformed);
        }
        assert(digits.take(i + 1 - first).drop_last() =~= digits.take(i - first));
        assert(digits.take(i + 1 - first).last() == b);
        if !exceeded {
            let next: u128 = 10 * (value as u128) + ((b - ZERO) as u128);
            if next > max as u128 {
                exceeded = true;
            } else {
                value = next as u64;
            }
        }
        i += 1;
    }
    assert(digits.take(i - first) =~= digits);
    if exceeded {
        Err(NumberError::TooLarge)
    } else {
        Ok(value)
    }
}

} // verus!
