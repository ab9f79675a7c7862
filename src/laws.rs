//! Properties that relate the indexing stages to one another and to the input.
use vstd::prelude::*;
use crate::bitwise::bit_of;
use crate::bitmaps::{
    LeveledColons, has_bit, marks, is_byte, structural, structural_quote, quote_at,
    in_quotes, in_string, depth_before, nest_depth, colon_at_depth,
    lemma_has_bit, lemma_word_ext, COLON, LEFT_BRACE, RIGHT_BRACE, QUOTE,
};

verus! {

/// Every colon on every level is a colon outside strings, and no colon is on two levels.
pub proof fn lemma_levels_disjoint(index: LeveledColons, bytes: Seq<u8>)
    requires
        index.indexes(bytes),
    ensures
        forall|d: int, p: int|
            0 <= d < index@.len() && #[trigger] has_bit(index@[d], p) ==> structural(bytes, COLON)(p),
        forall|d: int, e: int, p: int|
            0 <= d < index@.len() && 0 <= e < index@.len() && d != e ==> !(#[trigger] has_bit(
                index@[d],
                p,
            ) && #[trigger] has_bit(index@[e], p)),
{
    assert forall|d: int, e: int, p: int|
        0 <= d < index@.len() && 0 <= e < index@.len() && d != e implies !(#[trigger] has_bit(
            index@[d],
            p,
        ) && #[trigger] has_bit(index@[e], p)) by {
        assert(marks(index@[d], bytes.len() as int, colon_at_depth(bytes, (d + 1) as nat)));
        assert(marks(index@[e], bytes.len() as int, colon_at_depth(bytes, (e + 1) as nat)));
    }
}

/// Without any quote byte, no position is inside quotes.
proof fn lemma_no_quotes(bytes: Seq<u8>, p: int)
    requires
        forall|i: int| 0 <= i < bytes.len() ==> bytes[i] != QUOTE,
    ensures
        !in_quotes(bytes, p),
    decreases p,
{
    if p > 0 {
        lemma_no_quotes(bytes, p - 1);
    }
}

/// Inside a flat record every position after the opening brace is at depth one.
proof fn lemma_flat_depth(bytes: Seq<u8>, p: int)
    requires
        bytes.len() >= 2,
        bytes[0] == LEFT_BRACE,
        forall|i: int| 0 <= i < bytes.len() ==> bytes[i] != QUOTE,
        forall|i: int| 0 < i < bytes.len() - 1 ==> bytes[i] != LEFT_BRACE && bytes[i] != RIGHT_BRACE,
        1 <= p <= bytes.len() - 1,
    ensures
        nest_depth(bytes, p) == 1,
    decreases p,
{
    lemma_no_quotes(bytes, p - 1);
    if p > 1 {
        lemma_flat_depth(bytes, p - 1);
    }
    assert(depth_before(structural(bytes, LEFT_BRACE), structural(bytes, RIGHT_BRACE), 0) == 0);
}

/// In a record with no strings and no nesting — `{`, then bytes holding no quote and no
/// brace, then `}` — level 0 holds every colon and the deeper levels hold none.
pub proof fn lemma_flat_record(index: LeveledColons, bytes: Seq<u8>)
    requires
        index.indexes(bytes),
        bytes.len() >= 2,
        bytes[0] == LEFT_BRACE,
        bytes[bytes.len() - 1] == RIGHT_BRACE,
        forall|i: int|
            0 < i < bytes.len() - 1 ==> bytes[i] != QUOTE && bytes[i] != LEFT_BRACE && bytes[i]
                != RIGHT_BRACE,
    ensures
        index@.len() >= 1 ==> forall|p: int| #[trigger]
            has_bit(index@[0], p) <==> is_byte(bytes, COLON)(p),
        forall|d: int, p: int| 1 <= d < index@.len() ==> !#[trigger] has_bit(index@[d], p),
{
    assert forall|d: int, p: int| 0 <= d < index@.len() implies (#[trigger] has_bit(index@[d], p)
        <==> (d == 0 && is_byte(bytes, COLON)(p))) by {
        assert(marks(index@[d], bytes.len() as int, colon_at_depth(bytes, (d + 1) as nat)));
        if is_byte(bytes, COLON)(p) {
            assert(0 < p < bytes.len() - 1);
            lemma_no_quotes(bytes, p);
            lemma_flat_depth(bytes, p);
            assert(p < 32 * index@[d].len()) by (nonlinear_arith)
                requires
                    index@[d].len() == (bytes.len() + 31) / 32,
                    p < bytes.len(),
            ;
        }
    }
}

/// Two bitmaps that mark the same positions are equal.
pub proof fn lemma_bitmap_ext(a: Seq<u32>, b: Seq<u32>, n: int)
    requires
        a.len() == b.len(),
        n == a.len(),
        forall|p: int| 0 <= p < 32 * n ==> #[trigger] has_bit(a, p) == has_bit(b, p),
    ensures
        a == b,
{
    assert forall|i: int| 0 <= i < a.len() implies a[i] == b[i] by {
        assert forall|j: u32| j < 32 implies bit_of(a[i], j) == bit_of(b[i], j) by {
            lemma_has_bit(a, i, j as int);
            lemma_has_bit(b, i, j as int);
        }
        lemma_word_ext(a[i], b[i]);
    }
    assert(a =~= b);
}

/// Padding an input with zero bytes leaves the bitmap words of the shorter input's
/// lanes unchanged, for any character other than zero.
pub proof fn lemma_padding(bytes: Seq<u8>, k: nat, c: u8, short: Seq<u32>, padded: Seq<u32>)
    requires
        c != 0,
        marks(short, bytes.len() as int, is_byte(bytes, c)),
        marks(padded, (bytes.len() + k) as int, is_byte(bytes + Seq::new(k, |i: int| 0u8), c)),
    ensures
        short.len() <= padded.len(),
        forall|i: int| 0 <= i < short.len() ==> short[i] == #[trigger] padded[i],
{
    let long = bytes + Seq::new(k, |i: int| 0u8);
    assert(short.len() <= padded.len()) by (nonlinear_arith)
        requires
            short.len() == (bytes.len() + 31) / 32,
            padded.len() == (bytes.len() + k + 31) / 32,
    ;
    assert forall|i: int| 0 <= i < short.len() implies short[i] == #[trigger] padded[i] by {
        assert forall|j: u32| j < 32 implies bit_of(short[i], j) == bit_of(padded[i], j) by {
            lemma_has_bit(short, i, j as int);
            lemma_has_bit(padded, i, j as int);
            let p = 32 * i + j;
            if p < bytes.len() {
                assert(long[p] == bytes[p]);
            } else if p < long.len() {
                assert(long[p] == 0u8);
            }
        }
        lemma_word_ext(short[i], padded[i]);
    }
}

/// Masking a bitmap a second time with the same mask changes nothing.
pub proof fn lemma_mask_twice(bitmap: Seq<u32>, mask: Seq<u32>, once: Seq<u32>, twice: Seq<u32>)
    requires
        bitmap.len() == mask.len() == once.len() == twice.len(),
        forall|p: int|
            0 <= p < 32 * once.len() ==> (#[trigger] has_bit(once, p) <==> has_bit(bitmap, p)
                && !has_bit(mask, p)),
        forall|p: int|
            0 <= p < 32 * twice.len() ==> (#[trigger] has_bit(twice, p) <==> has_bit(once, p)
                && !has_bit(mask, p)),
    ensures
        twice == once,
{
    lemma_bitmap_ext(twice, once, once.len() as int);
}

/// Between an opening structural quote and the quote that closes its string, there is
/// no other structural quote.
pub proof fn lemma_quote_pair(bytes: Seq<u8>, open: int, close: int)
    requires
        structural_quote(bytes, open),
        !in_quotes(bytes, open),
        open < close,
        structural_quote(bytes, close),
        !in_quotes(bytes, close + 1),
        forall|x: int| open < x < close ==> #[trigger] in_quotes(bytes, x + 1),
    ensures
        forall|x: int| open < x < close ==> !#[trigger] structural_quote(bytes, x),
{
    assert forall|x: int| open < x < close implies !#[trigger] structural_quote(bytes, x) by {
        assert(in_quotes(bytes, x)) by {
            if x > open + 1 {
                assert(in_quotes(bytes, (x - 1) + 1));
            }
        }
        assert(in_quotes(bytes, x + 1) == (in_quotes(bytes, x) != quote_at(bytes)(x)));
    }
}

/// `b` holds the first structural quote after `p`.
pub open spec fn next_quote(bytes: Seq<u8>, p: int, b: int) -> bool {
    &&& p < b
    &&& structural_quote(bytes, b)
    &&& forall|x: int| p < x < b ==> !#[trigger] structural_quote(bytes, x)
}

/// A position inside quotes has an opening quote before it with no structural quote between.
proof fn lemma_opening_before(bytes: Seq<u8>, p: int) -> (a: int)
    requires
        in_quotes(bytes, p),
    ensures
        0 <= a < p,
        structural_quote(bytes, a),
        !in_quotes(bytes, a),
        forall|x: int| a < x < p ==> !#[trigger] structural_quote(bytes, x),
    decreases p,
{
    if p <= 0 {
        assert(false);
        0
    } else if structural_quote(bytes, p - 1) {
        p - 1
    } else {
        lemma_opening_before(bytes, p - 1)
    }
}

/// A byte inside a string is no structural quote; it follows an opening quote with no
/// structural quote in between, and the first structural quote after it closes that string.
pub proof fn lemma_in_string(bytes: Seq<u8>, p: int)
    requires
        in_string(bytes, p),
    ensures
        !structural_quote(bytes, p),
        exists|a: int|
            0 <= a < p && structural_quote(bytes, a) && !in_quotes(bytes, a) && forall|x: int|
                a < x <= p ==> !#[trigger] structural_quote(bytes, x),
        forall|b: int| #[trigger] next_quote(bytes, p, b) ==> in_quotes(bytes, b) && !in_quotes(bytes, b + 1),
{
    let a = lemma_opening_before(bytes, p);
    assert forall|b: int| #[trigger] next_quote(bytes, p, b) implies in_quotes(bytes, b) && !in_quotes(bytes, b + 1) by {
        lemma_quotes_stay(bytes, p, b);
        assert(in_quotes(bytes, b));
        assert(quote_at(bytes)(b));
        assert(in_quotes(bytes, b + 1) == (in_quotes(bytes, b) != quote_at(bytes)(b)));
    }
}

/// Inside quotes, positions stay inside until the next structural quote.
proof fn lemma_quotes_stay(bytes: Seq<u8>, p: int, b: int)
    requires
        in_quotes(bytes, p),
        p <= b,
        !structural_quote(bytes, p),
        forall|x: int| p < x < b ==> !#[trigger] structural_quote(bytes, x),
    ensures
        in_quotes(bytes, b),
    decreases b - p,
{
    if b > p {
        lemma_quotes_stay(bytes, p, b - 1);
        assert(in_quotes(bytes, b) == (in_quotes(bytes, b - 1) != quote_at(bytes)(b - 1)));
    }
}

} // verus!
