//! Recognition of the scalar value that follows a colon, as byte spans of the record.
use vstd::prelude::*;
use crate::bitmaps::{escaped, is_byte, run_before, BACKSLASH, QUOTE, RIGHT_BRACE};
use crate::record::is_ws;

verus! {

pub const COMMA: u8 = 0x2c;
pub const MINUS: u8 = 0x2d;

/// The kind of a scalar value, with the span of its text where it has one.
pub enum Scalar {
    Null,
    Bool(bool),
    /// The bytes of the number, up to the next `,` or `}`.
    Number(usize, usize),
    /// The raw bytes between the quotes, escapes left as they are.
    String(usize, usize),
}

/// The first position from `i` on that holds no whitespace.
pub open spec fn skip_ws(bytes: Seq<u8>, i: int) -> int
    decreases bytes.len() - i,
{
    if 0 <= i < bytes.len() && is_ws(bytes[i]) {
        skip_ws(bytes, i + 1)
    } else {
        i
    }
}

/// The first position from `i` on that holds a quote no odd run of backslashes escapes.
pub open spec fn closing_quote_from(bytes: Seq<u8>, i: int) -> Option<int>
    decreases bytes.len() - i,
{
    if i < 0 || i >= bytes.len() {
        None
    } else if bytes[i] == QUOTE && !escaped(bytes, i) {
        Some(i)
    } else {
        closing_quote_from(bytes, i + 1)
    }
}

/// The first position from `i` on that holds `,` or `}`.
pub open spec fn delimiter_from(bytes: Seq<u8>, i: int) -> Option<int>
    decreases bytes.len() - i,
{
    if i < 0 || i >= bytes.len() {
        None
    } else if bytes[i] == COMMA || bytes[i] == RIGHT_BRACE {
        Some(i)
    } else {
        delimiter_from(bytes, i + 1)
    }
}

/// Whether `bytes` holds `word` from position `i` on.
pub open spec fn holds_word(bytes: Seq<u8>, i: int, word: Seq<u8>) -> bool {
    0 <= i && i + word.len() <= bytes.len() && bytes.subrange(i, i + word.len()) == word
}

pub open spec fn null_word() -> Seq<u8> {
    seq![0x6eu8, 0x75u8, 0x6cu8, 0x6cu8]
}

pub open spec fn true_word() -> Seq<u8> {
    seq![0x74u8, 0x72u8, 0x75u8, 0x65u8]
}

pub open spec fn false_word() -> Seq<u8> {
    seq![0x66u8, 0x61u8, 0x6cu8, 0x73u8, 0x65u8]
}

/// The scalar that starts at the first non-whitespace byte from `start` on: a string
/// up to its next unescaped quote, a number up to the next `,` or `}`, or one of the
/// words `null`, `true` and `false`.
pub open spec fn scalar_spec(bytes: Seq<u8>, start: int) -> Option<Scalar> {
    let i = skip_ws(bytes, start);
    if i >= bytes.len() {
        None
    } else if bytes[i] == QUOTE {
        match closing_quote_from(bytes, i + 1) {
            Some(e) => Some(Scalar::String((i + 1) as usize, e as usize)),
            None => None,
        }
    } else if (0x30 <= bytes[i] <= 0x39) || bytes[i] == MINUS {
        match delimiter_from(bytes, i) {
            Some(d) => Some(Scalar::Number(i as usize, d as usize)),
            None => None,
        }
    } else if holds_word(bytes, i, null_word()) {
        Some(Scalar::Null)
    } else if holds_word(bytes, i, true_word()) {
        Some(Scalar::Bool(true))
    } else if holds_word(bytes, i, false_word()) {
        Some(Scalar::Bool(false))
    } else {
        None
    }
}

/// Whether `bytes` holds `word` from position `i` on.
fn word_at(bytes: &[u8], i: usize, word: &[u8]) -> (r: bool)
    ensures
        r == holds_word(bytes@, i as int, word@),
{
    if word.len() > bytes.len() || i > bytes.len() - word.len() {
        return false;
    }
    let mut k: usize = 0;
    while k < word.len()
        invariant
            i + word.len() <= bytes.len(),
            k <= word.len(),
            forall|j: int| 0 <= j < k ==> bytes@[i + j] == word@[j],
        decreases word.len() - k,
    {
        if bytes[i + k] != word[k] {
            assert(bytes@.subrange(i as int, i + word.len())[k as int] != word@[k as int]);
            return false;
        }
        k = k + 1;
    }
    assert(bytes@.subrange(i as int, i + word.len()) =~= word@);
    true
}

/// Number of backslashes that run up to position `p`.
fn backslashes_before(bytes: &[u8], p: usize) -> (r: usize)
    requires
        p <= bytes.len(),
    ensures
        r == run_before(is_byte(bytes@, BACKSLASH), p as int),
{
    let mut j = p;
    while j > 0 && bytes[j - 1] == BACKSLASH
        invariant
            j <= p <= bytes.len(),
            run_before(is_byte(bytes@, BACKSLASH), p as int) == (p - j) + run_before(
                is_byte(bytes@, BACKSLASH),
                j as int,
            ),
        decreases j,
    {
        j = j - 1;
    }
    p - j
}

/// Recognises the scalar value that starts at `start`, after any whitespace.
pub fn scalar_at(bytes: &[u8], start: usize) -> (r: Option<Scalar>)
    ensures
        r == scalar_spec(bytes@, start as int),
{
    let mut i = start;
    while i < bytes.len() && (bytes[i] == 9 || bytes[i] == 10 || bytes[i] == 13 || bytes[i] == 32)
        invariant
            start <= i,
            skip_ws(bytes@, start as int) == skip_ws(bytes@, i as int),
        decreases bytes.len() - i,
    {
        i = i + 1;
    }
    if i >= bytes.len() {
        return None;
    }
    let b = bytes[i];
    if b == QUOTE {
        let mut e = i + 1;
        while e < bytes.len()
            invariant
                i < e <= bytes.len(),
                skip_ws(bytes@, start as int) == i,
                bytes@[i as int] == QUOTE,
                closing_quote_from(bytes@, i + 1) == closing_quote_from(bytes@, e as int),
            decreases bytes.len() - e,
        {
            if bytes[e] == QUOTE && backslashes_before(bytes, e) % 2 == 0 {
                return Some(Scalar::String(i + 1, e));
            }
            e = e + 1;
        }
        None
    } else if (0x30 <= b && b <= 0x39) || b == MINUS {
        let mut d = i;
        while d < bytes.len()
            invariant
                i <= d <= bytes.len(),
                i < bytes.len(),
                skip_ws(bytes@, start as int) == i,
                (0x30 <= bytes@[i as int] <= 0x39) || bytes@[i as int] == MINUS,
                bytes@[i as int] != QUOTE,
                delimiter_from(bytes@, i as int) == delimiter_from(bytes@, d as int),
            decreases bytes.len() - d,
        {
            if bytes[d] == COMMA || bytes[d] == RIGHT_BRACE {
                return Some(Scalar::Number(i, d));
            }
            d = d + 1;
        }
        None
    } else if word_at(bytes, i, &[0x6eu8, 0x75u8, 0x6cu8, 0x6cu8]) {
        Some(Scalar::Null)
    } else if word_at(bytes, i, &[0x74u8, 0x72u8, 0x75u8, 0x65u8]) {
        Some(Scalar::Bool(true))
    } else if word_at(bytes, i, &[0x66u8, 0x61u8, 0x6cu8, 0x73u8, 0x65u8]) {
        Some(Scalar::Bool(false))
    } else {
        None
    }
}

} // verus!
