//! The three settings of a run as they are written: the image size, the
//! iteration cap, and the viewport.

use vstd::prelude::*;
use vstd::string::*;
use crate::grid::ImageDim;
use crate::text::{
    field_spans, parse_unsigned, read_unsigned, split_fields, NumberError, Span, SettingError,
    QUESTION,
};

verus! {

/// Whether the text is the single byte `?`, which asks for the default.
pub open spec fn asks_default(text: Seq<u8>) -> bool {
    text.len() == 1 && text[0] == QUESTION
}

/// What the field at `place` is read as where a positive number of at
/// most `max` is wanted.
pub open spec fn positive_field(field: Seq<u8>, place: usize, max: u64) -> Result<u64, SettingError> {
    match read_unsigned(field, max) {
        Err(NumberError::Malformed) => Err(SettingError::NotANumber { field: place }),
        Err(NumberError::TooLarge) => Err(SettingError::TooLarge { field: place }),
        Ok(value) => if value == 0 {
            Err(SettingError::NotPositive { field: place })
        } else {
            Ok(value)
        },
    }
}

/// What a text is read as where an image size is wanted: `?` for 900 by
/// 600, else width and height with a comma between them, both positive.
/// Of two faulty fields the first is named.
pub open spec fn dims_of_text(text: Seq<u8>) -> Result<ImageDim, SettingError> {
    if asks_default(text) {
        Ok(ImageDim { width: 900, height: 600 })
    } else {
        let fields = split_fields(text);
        if fields.len() != 2 {
            Err(SettingError::FieldCount { expected: 2, found: fields.len() as usize })
        } else {
            match positive_field(fields[0], 0, usize::MAX as u64) {
                Err(e) => Err(e),
                Ok(width) => match positive_field(fields[1], 1, usize::MAX as u64) {
                    Err(e) => Err(e),
                    Ok(height) => Ok(ImageDim { width: width as usize, height: height as usize }),
                },
            }
        }
    }
}

/// What a text is read as where an iteration cap is wanted: one positive
/// number that fits in 32 bits.
pub open spec fn cap_of_text(text: Seq<u8>) -> Result<u32, SettingError> {
    match positive_field(text, 0, u32::MAX as u64) {
        Err(e) => Err(e),
        Ok(cap) => Ok(cap as u32),
    }
}

/// A viewport as it is written: the default, or the places of its four
/// numbers in the text.
#[derive(Clone, Copy, Debug, PartialEq, Eq, Structural)]
pub enum ViewportText {
    Default,
    Fields { up: Span, left: Span, width: Span, height: Span },
}

/// Whether `res` is what a text is read as where a viewport is wanted:
/// `?` for the default, else four fields with commas between them, which
/// stand for the upper edge, the left edge, the width and the height.
pub open spec fn is_viewport_of_text(text: Seq<u8>, res: Result<ViewportText, SettingError>) -> bool {
    let fields = split_fields(text);
    if asks_default(text) {
        res == Ok::<ViewportText, SettingError>(ViewportText::Default)
    } else if fields.len() != 4 {
        res == Err::<ViewportText, SettingError>(
            SettingError::FieldCount { expected: 4, found: fields.len() as usize },
        )
    } else {
        match res {
            Ok(ViewportText::Fields { up, left, width, height }) => {
                &&& up.fits(text.len() as int) && up.of(text) == fields[0]
                &&& left.fits(text.len() as int) && left.of(text) == fields[1]
                &&& width.fits(text.len() as int) && width.of(text) == fields[2]
                &&& height.fits(text.len() as int) && height.of(text) == fields[3]
            },
            _ => false,
        }
    }
}

/// Reads the field that `span` picks out of `text` as a positive number
/// of at most `max`; `place` is the field's place among the fields.
fn parse_positive(text: &[u8], span: Span, place: usize, max: u64) -> (res: Result<u64, SettingError>)
    requires
        span.fits(text@.len() as int),
    ensures
        res == positive_field(span.of(text@), place, max),
{
    match parse_unsigned(text, span, max) {
        Err(NumberError::Malformed) => Err(SettingError::NotANumber { field: place }),
        Err(NumberError::TooLarge) => Err(SettingError::TooLarge { field: place }),
        Ok(value) => if value == 0 {
            Err(SettingError::NotPositive { field: place })
        } else {
            Ok(value)
        },
    }
}

/// Whether the text is the single byte `?`.
fn is_question(text: &[u8]) -> (yes: bool)
    ensures
        yes == asks_default(text@),
{
    text.len() == 1 && text[0] == QUESTION
}

impl ImageDim {
    /// Reads an image size from the bytes of its text: `?` for the
    /// default, else `width,height`.
    pub fn from_bytes(text: &[u8]) -> (res: Result<ImageDim, SettingError>)
        ensures
            res == dims_of_text(text@),
            res is Ok ==> res->Ok_0.wf(),
    {
        if is_question(text) {
            return Ok(ImageDim::default_size());
        }
        let spans = field_spans(text);
        if spans.len() != 2 {
            return Err(SettingError::FieldCount { expected: 2, found: spans.len() });
        }
        let width = match parse_positive(text, spans[0], 0, usize::MAX as u64) {
            Ok(width) => width,
            Err(e) => {
                return Err(e);
            },
        };
        let height = match parse_positive(text, spans[1], 1, usize::MAX as u64) {
            Ok(height) => height,
            Err(e) => {
                return Err(e);
            },
        };
        Ok(ImageDim { width: width as usize, height: height as usize })
    }

    /// Reads an image size: `?` for the default, else `width,height`.
    pub fn from_string(s: &str) -> (res: Result<ImageDim, SettingError>)
        ensures
            res == dims_of_text(s.spec_bytes()),
            res is Ok ==> res->Ok_0.wf(),
    {
        ImageDim::from_bytes(s.as_bytes())
    }
}

/// Reads an iteration cap from the bytes of its text: one positive
/// number.
pub fn iteration_cap_from_bytes(text: &[u8]) -> (res: Result<u32, SettingError>)
    ensures
        res == cap_of_text(text@),
        res is Ok ==> res->Ok_0 > 0,
{
    let whole = Span { start: 0, end: text.len() };
    assert(whole.of(text@) =~= text@);
    match parse_positive(text, whole, 0, u32::MAX as u64) {
        Ok(cap) => Ok(cap as u32),
        Err(e) => Err(e),
    }
}

/// Reads an iteration cap: one positive number.
pub fn parse_iteration_cap(s: &str) -> (res: Result<u32, SettingError>)
    ensures
        res == cap_of_text(s.spec_bytes()),
        res is Ok ==> res->Ok_0 > 0,
{
    iteration_cap_from_bytes(s.as_bytes())
}

/// Finds the four numbers of a viewport in the bytes of its text, without
/// reading them: `?` for the default, else `up,left,width,height`.
pub fn viewport_fields_in(text: &[u8]) -> (res: Result<ViewportText, SettingError>)
    ensures
        is_viewport_of_text(text@, res),
{
    if is_question(text) {
        return Ok(ViewportText::Default);
    }
    let spans = field_spans(text);
    if spans.len() != 4 {
        return Err(SettingError::FieldCount { expected: 4, found: spans.len() });
    }
    Ok(ViewportText::Fields { up: spans[0], left: spans[1], width: spans[2], height: spans[3] })
}

/// Finds the four numbers of a viewport in its text, without reading
/// them: `?` for the default, else `up,left,width,height`.
pub fn viewport_fields(s: &str) -> (res: Result<ViewportText, SettingError>)
    ensures
        is_viewport_of_text(s.spec_bytes(), res),
{
    viewport_fields_in(s.as_bytes())
}

} // verus!
