//! Per-character bitmaps over 32-byte lanes, and the transformations that
//! turn them into a per-depth index of structural colons.
use vstd::prelude::*;
use crate::bitwise::{bit_of, lemma_lowest_bit, drop_lowest_spec, smear_spec, extract, remove, smear};
use vstd::std_specs::bits::u32_trailing_zeros;

verus! {

pub const BACKSLASH: u8 = 0x5c;
pub const QUOTE: u8 = 0x22;
pub const COLON: u8 = 0x3a;
pub const LEFT_BRACE: u8 = 0x7b;
pub const RIGHT_BRACE: u8 = 0x7d;

/// Number of 32-byte lanes, hence of words in each bitmap, for `n` bytes.
pub open spec fn lanes(n: int) -> int {
    (n + 31) / 32
}

/// Bit `p` of a bitmap: bit `p % 32` of word `p / 32`; positions past the last word are clear.
pub open spec fn has_bit(m: Seq<u32>, p: int) -> bool {
    0 <= p < 32 * m.len() && bit_of(m[p / 32], (p % 32) as u32)
}

/// How each bitwise operator acts on a single bit.
pub proof fn lemma_bit_ops(a: u32, b: u32, j: u32)
    requires
        j < 32,
    ensures
        bit_of(a & b, j) == (bit_of(a, j) && bit_of(b, j)),
        bit_of(a | b, j) == (bit_of(a, j) || bit_of(b, j)),
        bit_of(a ^ b, j) == (bit_of(a, j) != bit_of(b, j)),
        bit_of(!a, j) == !bit_of(a, j),
        bit_of(1u32 << b, j) == (b == j),
        !bit_of(0u32, j),
        bit_of(0xffff_ffffu32, j),
{
    assert(j < 32 ==> (((a & b) >> j) & 1u32 == 1u32) == (((a >> j) & 1u32 == 1u32) && ((b >> j)
        & 1u32 == 1u32))) by (bit_vector);
    assert(j < 32 ==> (((a | b) >> j) & 1u32 == 1u32) == (((a >> j) & 1u32 == 1u32) || ((b >> j)
        & 1u32 == 1u32))) by (bit_vector);
    assert(j < 32 ==> (((a ^ b) >> j) & 1u32 == 1u32) == (((a >> j) & 1u32 == 1u32) != ((b >> j)
        & 1u32 == 1u32))) by (bit_vector);
    assert(j < 32 ==> (((!a) >> j) & 1u32 == 1u32) == !((a >> j) & 1u32 == 1u32)) by (bit_vector);
    assert(j < 32 ==> (((1u32 << b) >> j) & 1u32 == 1u32) == (b == j)) by (bit_vector);
    assert(j < 32 ==> ((0u32 >> j) & 1u32 != 1u32)) by (bit_vector);
    assert(j < 32 ==> ((0xffff_ffffu32 >> j) & 1u32 == 1u32)) by (bit_vector);
}

/// Two words are equal when they agree on every bit.
pub proof fn lemma_word_ext(a: u32, b: u32)
    requires
        forall|j: u32| j < 32 ==> bit_of(a, j) == bit_of(b, j),
    ensures
        a == b,
{
    assert forall|j: u32| j < 32 implies (((a ^ b) >> j) & 1u32) == 0u32 by {
        lemma_bit_ops(a, b, j);
        assert(((a ^ b) >> j) & 1u32 != 1u32 ==> ((a ^ b) >> j) & 1u32 == 0u32) by (bit_vector);
    }
    lemma_zero_word(a ^ b);
    assert(a ^ b == 0u32 ==> a == b) by (bit_vector);
}

/// A word with no set bit is zero.
proof fn lemma_zero_word(x: u32)
    requires
        forall|j: u32| j < 32 ==> #[trigger] ((x >> j) & 1u32) == 0u32,
    ensures
        x == 0,
{
    if x != 0 {
        lemma_lowest_bit(x);
        let k = u32_trailing_zeros(x);
        assert((x >> k) & 1u32 == 0u32);
    }
}

/// Bit `k` of word `i` is bit `32 * i + k` of the bitmap.
pub proof fn lemma_has_bit(m: Seq<u32>, i: int, k: int)
    requires
        0 <= i < m.len(),
        0 <= k < 32,
    ensures
        has_bit(m, 32 * i + k) == bit_of(m[i], k as u32),
{
    assert((32 * i + k) / 32 == i && (32 * i + k) % 32 == k) by (nonlinear_arith)
        requires
            0 <= k < 32,
    ;
    assert(32 * i + k < 32 * m.len()) by (nonlinear_arith)
        requires
            0 <= k < 32,
            i < m.len(),
    ;
}

/// Appending a word leaves the bits of the earlier words as they were.
pub proof fn lemma_has_bit_push(m: Seq<u32>, w: u32, p: int)
    requires
        0 <= p < 32 * m.len(),
    ensures
        has_bit(m.push(w), p) == has_bit(m, p),
{
    assert(p / 32 < m.len()) by (nonlinear_arith)
        requires
            0 <= p < 32 * m.len(),
    ;
}

/// Bitmap of the positions in `bytes` that hold `c`, one word per 32-byte lane; the
/// bits past the end of the input are clear.
pub fn char_bitmap(bytes: &[u8], c: u8) -> (r: Vec<u32>)
    ensures
        r.len() == lanes(bytes.len() as int),
        forall|p: int|
            0 <= p < 32 * r.len() ==> (has_bit(r@, p) <==> p < bytes.len() && bytes[p] == c),
{
    let n = bytes.len();
    let words: usize = n / 32 + if n % 32 != 0 {
        1
    } else {
        0
    };
    let mut r: Vec<u32> = Vec::with_capacity(words);
    let mut i: usize = 0;
    while i < words
        invariant
            words == lanes(n as int),
            n == bytes.len(),
            i <= words,
            r.len() == i,
            forall|p: int| 0 <= p < 32 * i ==> (has_bit(r@, p) <==> p < n && bytes[p] == c),
        decreases words - i,
    {
        assert(32 * i < n) by (nonlinear_arith)
            requires
                i < words,
                words == (n + 31) / 32,
        ;
        let base: usize = 32 * i;
        let mut w: u32 = 0;
        let mut k: u32 = 0;
        assert forall|j: u32| j < 32 implies !bit_of(w, j) by {
            lemma_bit_ops(w, w, j);
        }
        while k < 32
            invariant
                k <= 32,
                base < n,
                n == bytes.len(),
                forall|j: u32| j < k ==> (bit_of(w, j) <==> base + j < n && bytes[base + j] == c),
                forall|j: u32| k <= j < 32 ==> !bit_of(w, j),
            decreases 32 - k,
        {
            if (k as usize) < n - base && bytes[base + k as usize] == c {
                let w2 = w | (1u32 << k);
                assert forall|j: u32| j < 32 implies bit_of(w2, j) == (bit_of(w, j) || j == k) by {
                    lemma_bit_ops(w, 1u32 << k, j);
                    lemma_bit_ops(1u32, k, j);
                }
                w = w2;
            }
            k = k + 1;
        }
        let ghost old_r = r@;
        r.push(w);
        assert forall|p: int| 0 <= p < 32 * (i + 1) implies (has_bit(r@, p) <==> p < n && bytes[p]
            == c) by {
            if p < 32 * i {
                lemma_has_bit_push(old_r, w, p);
            } else {
                lemma_has_bit(r@, i as int, p - 32 * i);
                assert(r@[i as int] == w);
                assert((p - 32 * i) as u32 == (p - base) as u32);
            }
        }
        i = i + 1;
    }
    r
}


/// The positions of a bitmap, as a predicate on byte offsets.
pub open spec fn bits_of(m: Seq<u32>) -> spec_fn(int) -> bool {
    |q: int| has_bit(m, q)
}

/// The positions of `bytes` that hold `c`.
pub open spec fn is_byte(bytes: Seq<u8>, c: u8) -> spec_fn(int) -> bool {
    |q: int| 0 <= q < bytes.len() && bytes[q] == c
}

/// Length of the run of positions satisfying `f` that ends just before `p`.
pub open spec fn run_before(f: spec_fn(int) -> bool, p: int) -> nat
    decreases p,
{
    if p <= 0 {
        0
    } else if f(p - 1) {
        1 + run_before(f, p - 1)
    } else {
        0
    }
}

/// A `"` at `p` is escaped when an odd number of backslashes runs up to it.
pub open spec fn escaped(bytes: Seq<u8>, p: int) -> bool {
    run_before(is_byte(bytes, BACKSLASH), p) % 2 == 1
}

/// A quote that opens or closes a string literal.
pub open spec fn structural_quote(bytes: Seq<u8>, p: int) -> bool {
    0 <= p < bytes.len() && bytes[p] == QUOTE && !escaped(bytes, p)
}

/// Two predicates that agree below `p` give the same run before `p`.
pub proof fn lemma_run_agree(f: spec_fn(int) -> bool, g: spec_fn(int) -> bool, p: int)
    requires
        forall|q: int| 0 <= q < p ==> #[trigger] f(q) == g(q),
    ensures
        run_before(f, p) == run_before(g, p),
    decreases p,
{
    if p > 0 {
        lemma_run_agree(f, g, p - 1);
    }
}

/// Reads bit `p` of a bitmap.
fn test_bit(m: &[u32], p: usize) -> (r: bool)
    requires
        p < 32 * m.len(),
    ensures
        r == has_bit(m@, p as int),
{
    let i = p / 32;
    let k = (p % 32) as u32;
    (m[i] >> k) & 1 == 1
}

/// Length of the run of set bits in `m` that ends just before position `p`.
fn run_length(m: &[u32], p: usize) -> (r: usize)
    requires
        p <= 32 * m.len(),
    ensures
        r == run_before(bits_of(m@), p as int),
{
    let mut j = p;
    while j > 0 && test_bit(m, j - 1)
        invariant
            j <= p <= 32 * m.len(),
            run_before(bits_of(m@), p as int) == (p - j) + run_before(bits_of(m@), j as int),
        decreases j,
    {
        j = j - 1;
    }
    p - j
}

/// Clears the bits of `quote` whose quote is escaped, that is preceded by an odd
/// run of bits of `backslash`.
pub fn unescaped_quotes(quote: &[u32], backslash: &[u32]) -> (r: Vec<u32>)
    requires
        quote.len() == backslash.len(),
        forall|p: int| has_bit(quote@, p) ==> p < usize::MAX,
    ensures
        r.len() == quote.len(),
        forall|p: int|
            #![trigger has_bit(r@, p)]
            0 <= p < 32 * r.len() ==> (has_bit(r@, p) <==> has_bit(quote@, p) && run_before(
                bits_of(backslash@),
                p,
            ) % 2 == 0),
{
    let mut r: Vec<u32> = Vec::with_capacity(quote.len());
    let mut i: usize = 0;
    while i < quote.len()
        invariant
            quote.len() == backslash.len(),
            forall|p: int| has_bit(quote@, p) ==> p < usize::MAX,
            i <= quote.len(),
            r.len() == i,
            forall|p: int|
                #![trigger has_bit(r@, p)]
                0 <= p < 32 * i ==> (has_bit(r@, p) <==> has_bit(quote@, p) && run_before(
                    bits_of(backslash@),
                    p,
                ) % 2 == 0),
        decreases quote.len() - i,
    {
        let q = quote[i];
        let mut w = q;
        let mut rest = q;
        while rest != 0
            invariant
                i < quote.len() == backslash.len(),
                q == quote@[i as int],
                forall|p: int| has_bit(quote@, p) ==> p < usize::MAX,
                forall|j: u32| j < 32 && bit_of(rest, j) ==> bit_of(q, j),
                forall|j: u32|
                    j < 32 ==> (bit_of(w, j) == (bit_of(q, j) && (bit_of(rest, j) || run_before(
                        bits_of(backslash@),
                        32 * i + j,
                    ) % 2 == 0))),
            decreases rest,
        {
            proof {
                lemma_lowest_bit(rest);
            }
            let b = extract(rest);
            let k = rest.trailing_zeros();
            proof {
                lemma_has_bit(quote@, i as int, k as int);
                assert(32 * i + k < 32 * quote.len()) by (nonlinear_arith)
                    requires
                        i < quote.len(),
                        k < 32,
                ;
            }
            let pos = 32 * i + k as usize;
            let run = run_length(backslash, pos);
            let w2 = if run % 2 == 1 {
                w & !b
            } else {
                w
            };
            let rest2 = remove(rest);
            assert forall|j: u32| j < 32 implies bit_of(rest2, j) == (bit_of(rest, j) && j != k) by {
                lemma_bit_ops(rest, !(1u32 << k), j);
                lemma_bit_ops(1u32 << k, 0, j);
                lemma_bit_ops(1u32, k, j);
            }
            assert forall|j: u32| j < 32 implies bit_of(w2, j) == (bit_of(w, j) && !(j == k && run
                % 2 == 1)) by {
                lemma_bit_ops(w, !(1u32 << k), j);
                lemma_bit_ops(1u32 << k, 0, j);
                lemma_bit_ops(1u32, k, j);
            }
            assert(rest2 < rest) by {
                assert(rest != 0 ==> rest & ((rest - 1u32) as u32) < rest) by (bit_vector);
            }
            w = w2;
            rest = rest2;
        }
        let ghost old_r = r@;
        r.push(w);
        assert forall|p: int|
            #![trigger has_bit(r@, p)]
            0 <= p < 32 * (i + 1) implies (has_bit(r@, p) <==> has_bit(quote@, p) && run_before(
            bits_of(backslash@),
            p,
        ) % 2 == 0) by {
            if p < 32 * i {
                lemma_has_bit_push(old_r, w, p);
            } else {
                let j = p - 32 * i;
                lemma_has_bit(r@, i as int, j);
                lemma_has_bit(quote@, i as int, j);
                assert(!bit_of(0u32, j as u32)) by {
                    lemma_bit_ops(0, 0, j as u32);
                }
            }
        }
        i = i + 1;
    }
    r
}


/// Whether an odd number of positions before `p` satisfy `f`.
pub open spec fn parity_before(f: spec_fn(int) -> bool, p: int) -> bool
    decreases p,
{
    if p <= 0 {
        false
    } else {
        parity_before(f, p - 1) != f(p - 1)
    }
}

/// Two predicates that agree below `p` give the same parity before `p`.
pub proof fn lemma_parity_agree(f: spec_fn(int) -> bool, g: spec_fn(int) -> bool, p: int)
    requires
        forall|q: int| 0 <= q < p ==> #[trigger] f(q) == g(q),
    ensures
        parity_before(f, p) == parity_before(g, p),
    decreases p,
{
    if p > 0 {
        lemma_parity_agree(f, g, p - 1);
    }
}

/// Whether an odd number of the bits of `x` below bit `k` are set.
pub open spec fn word_parity(x: u32, k: int) -> bool
    decreases k,
{
    if k <= 0 {
        false
    } else {
        word_parity(x, k - 1) != bit_of(x, (k - 1) as u32)
    }
}

/// Bit `k` of the result is the exclusive or of the bits of `x` from `k` upwards.
pub open spec fn suffix_xor(x: u32) -> u32 {
    let a = x ^ (x >> 1u32);
    let b = a ^ (a >> 2u32);
    let c = b ^ (b >> 4u32);
    let d = c ^ (c >> 8u32);
    d ^ (d >> 16u32)
}

/// Toggling the smear of the lowest bit accounts for that bit in the suffix parities.
proof fn lemma_suffix_xor_step(x: u32)
    requires
        x != 0,
    ensures
        suffix_xor(x) == smear_spec(x) ^ suffix_xor(drop_lowest_spec(x)),
{
    let y = (x & ((x - 1u32) as u32));
    assert(x != 0 ==> y == x & ((x - 1u32) as u32) ==> ({
        let a = x ^ (x >> 1u32);
        let b = a ^ (a >> 2u32);
        let c = b ^ (b >> 4u32);
        let d = c ^ (c >> 8u32);
        d ^ (d >> 16u32)
    }) == (x ^ ((x - 1u32) as u32)) ^ ({
        let a = y ^ (y >> 1u32);
        let b = a ^ (a >> 2u32);
        let c = b ^ (b >> 4u32);
        let d = c ^ (c >> 8u32);
        d ^ (d >> 16u32)
    })) by (bit_vector);
}

/// Bit `k` of `suffix_xor(x)` is the parity of the bits of `x` from `k` upwards.
proof fn lemma_suffix_xor_bits(x: u32, k: int)
    requires
        0 <= k < 32,
    ensures
        bit_of(suffix_xor(x), k as u32) == (word_parity(x, 32) != word_parity(x, k)),
    decreases 32 - k,
{
    let s = suffix_xor(x);
    let kk = k as u32;
    assert(s == suffix_xor(x));
    if k == 31 {
        assert(({
            let a = x ^ (x >> 1u32);
            let b = a ^ (a >> 2u32);
            let c = b ^ (b >> 4u32);
            let d = c ^ (c >> 8u32);
            d ^ (d >> 16u32)
        } >> 31u32) & 1u32 == (x >> 31u32) & 1u32) by (bit_vector);
    } else {
        lemma_suffix_xor_bits(x, k + 1);
        assert(kk < 31 ==> ((({
            let a = x ^ (x >> 1u32);
            let b = a ^ (a >> 2u32);
            let c = b ^ (b >> 4u32);
            let d = c ^ (c >> 8u32);
            d ^ (d >> 16u32)
        } >> kk) & 1u32 == 1u32) == (((({
            let a = x ^ (x >> 1u32);
            let b = a ^ (a >> 2u32);
            let c = b ^ (b >> 4u32);
            let d = c ^ (c >> 8u32);
            d ^ (d >> 16u32)
        } >> ((kk + 1) as u32)) & 1u32 == 1u32)) != ((x >> kk) & 1u32 == 1u32)))) by (bit_vector);
        assert(word_parity(x, k + 1) == (word_parity(x, k) != bit_of(x, kk)));
    }
}

/// The parity before a position inside word `i` is the parity before the word, adjusted by
/// the word's own bits below that position.
proof fn lemma_parity_word(m: Seq<u32>, i: int, k: int)
    requires
        0 <= i < m.len(),
        0 <= k <= 32,
    ensures
        parity_before(bits_of(m), 32 * i + k) == (parity_before(bits_of(m), 32 * i) != word_parity(
            m[i],
            k,
        )),
    decreases k,
{
    if k > 0 {
        lemma_parity_word(m, i, k - 1);
        lemma_has_bit(m, i, k - 1);
    }
}

/// Bit `p` of the result is set when an odd number of bits of `quote` lie below `p` and
/// bit `p` of `quote` is clear: the bytes strictly between an opening quote and its
/// closing quote.
pub fn string_mask(quote: &[u32]) -> (r: Vec<u32>)
    ensures
        r.len() == quote.len(),
        forall|p: int|
            #![trigger has_bit(r@, p)]
            0 <= p < 32 * r.len() ==> (has_bit(r@, p) <==> parity_before(bits_of(quote@), p)
                && !has_bit(quote@, p)),
{
    let mut r: Vec<u32> = Vec::with_capacity(quote.len());
    let mut odd = false;
    let mut i: usize = 0;
    while i < quote.len()
        invariant
            i <= quote.len(),
            r.len() == i,
            odd == parity_before(bits_of(quote@), 32 * i),
            forall|p: int|
                #![trigger has_bit(r@, p)]
                0 <= p < 32 * i ==> (has_bit(r@, p) <==> parity_before(bits_of(quote@), p)
                    && !has_bit(quote@, p)),
        decreases quote.len() - i,
    {
        let q = quote[i];
        let ghost odd0 = odd;
        let mut rest = q;
        let mut w: u32 = 0;
        let ghost sq = suffix_xor(q);
        assert(0u32 ^ sq == sq) by (bit_vector);
        assert(bit_of(0u32, 0) == false) by (bit_vector);
        while rest != 0
            invariant
                w ^ suffix_xor(rest) == suffix_xor(q),
                odd == (odd0 != bit_of(w, 0)),
            decreases rest,
        {
            proof {
                lemma_suffix_xor_step(rest);
                let sm = smear_spec(rest);
                let sr = suffix_xor(drop_lowest_spec(rest));
                assert(rest != 0 ==> ((rest ^ ((rest - 1u32) as u32)) >> 0u32) & 1u32 == 1u32)
                    by (bit_vector);
                assert((w ^ (sm ^ sr)) == ((w ^ sm) ^ sr)) by (bit_vector);
                lemma_bit_ops(w, sm, 0);
                assert(rest != 0 ==> rest & ((rest - 1u32) as u32) < rest) by (bit_vector);
            }
            w = w ^ smear(rest);
            rest = remove(rest);
            odd = !odd;
        }
        proof {
            assert(w ^ suffix_xor(0u32) == w) by (bit_vector);
            lemma_suffix_xor_bits(q, 0);
            lemma_parity_word(quote@, i as int, 32);
        }
        if odd {
            w = !w;
        }
        let ghost parity_word = w;
        w = w & !q;
        let ghost old_r = r@;
        r.push(w);
        assert forall|p: int|
            #![trigger has_bit(r@, p)]
            0 <= p < 32 * (i + 1) implies (has_bit(r@, p) <==> parity_before(bits_of(quote@), p)
            && !has_bit(quote@, p)) by {
            if p < 32 * i {
                lemma_has_bit_push(old_r, w, p);
            } else {
                let j = p - 32 * i;
                lemma_has_bit(r@, i as int, j);
                lemma_has_bit(quote@, i as int, j);
                lemma_suffix_xor_bits(q, j);
                lemma_parity_word(quote@, i as int, j);
                lemma_bit_ops(suffix_xor(q), 0, j as u32);
                lemma_bit_ops(parity_word, !q, j as u32);
                lemma_bit_ops(q, 0, j as u32);
            }
        }
        i = i + 1;
    }
    r
}


/// `m` has one word per lane of an `n`-byte input, and its bits are the positions satisfying `f`.
pub open spec fn marks(m: Seq<u32>, n: int, f: spec_fn(int) -> bool) -> bool {
    &&& m.len() == lanes(n)
    &&& forall|p: int| 0 <= p < 32 * m.len() ==> (#[trigger] has_bit(m, p) <==> f(p))
}

/// The structural quotes of `bytes`.
pub open spec fn quote_at(bytes: Seq<u8>) -> spec_fn(int) -> bool {
    |q: int| structural_quote(bytes, q)
}

/// An odd number of structural quotes lie before `p`: `p` follows an opening quote,
/// up to and including the matching closing quote.
pub open spec fn in_quotes(bytes: Seq<u8>, p: int) -> bool {
    parity_before(quote_at(bytes), p)
}

/// `p` lies strictly between an opening quote and its closing quote.
pub open spec fn in_string(bytes: Seq<u8>, p: int) -> bool {
    in_quotes(bytes, p) && !structural_quote(bytes, p)
}

/// The positions of `bytes` that hold `c` outside every string literal.
pub open spec fn structural(bytes: Seq<u8>, c: u8) -> spec_fn(int) -> bool {
    |q: int| 0 <= q < bytes.len() && bytes[q] == c && !in_quotes(bytes, q)
}

/// The five character bitmaps of one input.
pub struct LiteralChars {
    pub backslash: Vec<u32>,
    pub quote: Vec<u32>,
    pub colon: Vec<u32>,
    pub left_brace: Vec<u32>,
    pub right_brace: Vec<u32>,
}

impl LiteralChars {
    /// Builds the bitmaps of `\`, `"`, `:`, `{` and `}`.
    pub fn build(bytes: &[u8]) -> (r: Self)
        ensures
            marks(r.backslash@, bytes.len() as int, is_byte(bytes@, BACKSLASH)),
            marks(r.quote@, bytes.len() as int, is_byte(bytes@, QUOTE)),
            marks(r.colon@, bytes.len() as int, is_byte(bytes@, COLON)),
            marks(r.left_brace@, bytes.len() as int, is_byte(bytes@, LEFT_BRACE)),
            marks(r.right_brace@, bytes.len() as int, is_byte(bytes@, RIGHT_BRACE)),
    {
        LiteralChars {
            backslash: char_bitmap(bytes, BACKSLASH),
            quote: char_bitmap(bytes, QUOTE),
            colon: char_bitmap(bytes, COLON),
            left_brace: char_bitmap(bytes, LEFT_BRACE),
            right_brace: char_bitmap(bytes, RIGHT_BRACE),
        }
    }
}

/// A bitmap that covers the bytes inside string literals.
pub struct StringMask {
    pub mask: Vec<u32>,
}

impl StringMask {
    /// Builds the mask from a bitmap of structural quotes: bit `p` is set when an odd
    /// number of quotes lie below `p` and `p` is no quote itself, so that the quotes of
    /// a string are outside its mask.
    pub fn build(quote: &[u32]) -> (r: Self)
        ensures
            r.mask.len() == quote.len(),
            forall|p: int|
                0 <= p < 32 * r.mask.len() ==> (#[trigger] has_bit(r.mask@, p) <==> parity_before(
                    bits_of(quote@),
                    p,
                ) && !has_bit(quote@, p)),
    {
        StringMask { mask: string_mask(quote) }
    }

    /// Clears the bits of `bitmap` that the mask covers.
    pub fn apply(&self, bitmap: &[u32]) -> (r: Vec<u32>)
        requires
            bitmap.len() == self.mask.len(),
        ensures
            r.len() == bitmap.len(),
            forall|p: int|
                0 <= p < 32 * r.len() ==> (#[trigger] has_bit(r@, p) <==> has_bit(bitmap@, p)
                    && !has_bit(self.mask@, p)),
    {
        let mut r: Vec<u32> = Vec::with_capacity(bitmap.len());
        let mut i: usize = 0;
        while i < bitmap.len()
            invariant
                bitmap.len() == self.mask.len(),
                i <= bitmap.len(),
                r.len() == i,
                forall|p: int|
                    0 <= p < 32 * i ==> (#[trigger] has_bit(r@, p) <==> has_bit(bitmap@, p)
                        && !has_bit(self.mask@, p)),
            decreases bitmap.len() - i,
        {
            let w = bitmap[i] & !self.mask[i];
            let ghost old_r = r@;
            r.push(w);
            assert forall|p: int| 0 <= p < 32 * (i + 1) implies (#[trigger] has_bit(r@, p)
                <==> has_bit(bitmap@, p) && !has_bit(self.mask@, p)) by {
                if p < 32 * i {
                    lemma_has_bit_push(old_r, w, p);
                } else {
                    let j = p - 32 * i;
                    lemma_has_bit(r@, i as int, j);
                    lemma_has_bit(bitmap@, i as int, j);
                    lemma_has_bit(self.mask@, i as int, j);
                    lemma_bit_ops(bitmap[i as int], !self.mask[i as int], j as u32);
                    lemma_bit_ops(self.mask[i as int], 0, j as u32);
                }
            }
            i = i + 1;
        }
        r
    }
}

/// The bitmaps of the structural quotes, and of the colons and braces outside strings.
pub struct StructuralChars {
    pub quote: Vec<u32>,
    pub colon: Vec<u32>,
    pub left_brace: Vec<u32>,
    pub right_brace: Vec<u32>,
}

impl StructuralChars {
    /// Drops the escaped quotes, then masks the colons and braces that lie in strings.
    pub fn build(bytes: &[u8]) -> (r: Self)
        ensures
            marks(r.quote@, bytes.len() as int, quote_at(bytes@)),
            marks(r.colon@, bytes.len() as int, structural(bytes@, COLON)),
            marks(r.left_brace@, bytes.len() as int, structural(bytes@, LEFT_BRACE)),
            marks(r.right_brace@, bytes.len() as int, structural(bytes@, RIGHT_BRACE)),
    {
        let literals = LiteralChars::build(bytes);
        assert forall|p: int| has_bit(literals.quote@, p) implies p < usize::MAX by {}
        let quote = unescaped_quotes(&literals.quote, &literals.backslash);
        assert forall|p: int| 0 <= p < 32 * quote.len() implies (#[trigger] has_bit(quote@, p)
            <==> quote_at(bytes@)(p)) by {
            assert forall|q: int| 0 <= q < p implies #[trigger] bits_of(literals.backslash@)(q)
                == is_byte(bytes@, BACKSLASH)(q) by {}
            lemma_run_agree(bits_of(literals.backslash@), is_byte(bytes@, BACKSLASH), p);
        }
        let string_mask = StringMask::build(&quote);
        assert forall|p: int| 0 <= p < 32 * quote.len() implies (#[trigger] has_bit(
            string_mask.mask@,
            p,
        ) <==> in_string(bytes@, p)) by {
            assert forall|q: int| 0 <= q < p implies #[trigger] bits_of(quote@)(q) == quote_at(
                bytes@,
            )(q) by {}
            lemma_parity_agree(bits_of(quote@), quote_at(bytes@), p);
        }
        // A quote byte is never a colon or a brace, so leaving the quotes themselves out of
        // the mask changes none of the masked bitmaps.
        assert forall|p: int, c: u8| c != QUOTE && #[trigger] is_byte(bytes@, c)(p) implies !structural_quote(bytes@, p) by {}
        let colon = string_mask.apply(&literals.colon);
        let left_brace = string_mask.apply(&literals.left_brace);
        let right_brace = string_mask.apply(&literals.right_brace);
        StructuralChars { quote, colon, left_brace, right_brace }
    }
}


/// Number of objects open just before position `p`, where `open` marks the `{` and
/// `close` the `}`: a `}` with no open object is ignored, and at one position an
/// opening counts before a closing.
pub open spec fn depth_before(open: spec_fn(int) -> bool, close: spec_fn(int) -> bool, p: int) -> nat
    decreases p,
{
    if p <= 0 {
        0
    } else {
        let d = depth_before(open, close, p - 1);
        let d1 = if open(p - 1) {
            d + 1
        } else {
            d
        };
        if close(p - 1) && d1 > 0 {
            (d1 - 1) as nat
        } else {
            d1
        }
    }
}

/// At most one object opens per position.
pub proof fn lemma_depth_bound(open: spec_fn(int) -> bool, close: spec_fn(int) -> bool, p: int)
    requires
        p >= 0,
    ensures
        depth_before(open, close, p) <= p,
    decreases p,
{
    if p > 0 {
        lemma_depth_bound(open, close, p - 1);
    }
}

/// The depth does not change over positions that hold no brace.
pub proof fn lemma_depth_flat(open: spec_fn(int) -> bool, close: spec_fn(int) -> bool, a: int, b: int)
    requires
        a <= b,
        forall|q: int| a <= q < b ==> !#[trigger] open(q) && !close(q),
    ensures
        depth_before(open, close, b) == depth_before(open, close, a),
    decreases b - a,
{
    if a < b {
        lemma_depth_flat(open, close, a, b - 1);
    }
}

/// Brace predicates that agree below `p` give the same depth at `p`.
pub proof fn lemma_depth_agree(
    open: spec_fn(int) -> bool,
    close: spec_fn(int) -> bool,
    open2: spec_fn(int) -> bool,
    close2: spec_fn(int) -> bool,
    p: int,
)
    requires
        forall|q: int| 0 <= q < p ==> #[trigger] open(q) == open2(q),
        forall|q: int| 0 <= q < p ==> #[trigger] close(q) == close2(q),
    ensures
        depth_before(open, close, p) == depth_before(open2, close2, p),
    decreases p,
{
    if p > 0 {
        lemma_depth_agree(open, close, open2, close2, p - 1);
    }
}

/// The bits of `colon` at the positions where exactly `level` objects are open, the
/// objects being delimited by the bits of `left` and `right`.
pub fn colons_at_depth(colon: &[u32], left: &[u32], right: &[u32], level: usize) -> (r: Vec<u32>)
    requires
        colon.len() == left.len() == right.len(),
        forall|p: int| has_bit(left@, p) ==> p < usize::MAX,
    ensures
        r.len() == colon.len(),
        forall|p: int|
            0 <= p < 32 * r.len() ==> (#[trigger] has_bit(r@, p) <==> has_bit(colon@, p)
                && depth_before(bits_of(left@), bits_of(right@), p) == level),
{
    let ghost open = bits_of(left@);
    let ghost close = bits_of(right@);
    let mut r: Vec<u32> = Vec::with_capacity(colon.len());
    let mut depth: usize = 0;
    let mut i: usize = 0;
    while i < colon.len()
        invariant
            colon.len() == left.len() == right.len(),
            forall|p: int| has_bit(left@, p) ==> p < usize::MAX,
            open == bits_of(left@),
            close == bits_of(right@),
            i <= colon.len(),
            r.len() == i,
            depth == depth_before(open, close, 32 * i),
            forall|p: int|
                0 <= p < 32 * i ==> (#[trigger] has_bit(r@, p) <==> has_bit(colon@, p)
                    && depth_before(open, close, p) == level),
        decreases colon.len() - i,
    {
        let c0 = colon[i];
        let l0 = left[i];
        let r0 = right[i];
        let mut cm = c0;
        let mut lm = l0;
        let mut rm = r0;
        let mut w: u32 = 0;
        let ghost mut t: int = 0;
        let ghost base: int = 32 * i;
        proof {
            assert forall|j: u32| j < 32 implies !bit_of(w, j) by {
                lemma_bit_ops(0, 0, j);
            }
        }
        while (cm | lm | rm) != 0
            invariant
                i < colon.len() == left.len() == right.len(),
                forall|p: int| has_bit(left@, p) ==> p < usize::MAX,
                open == bits_of(left@),
                close == bits_of(right@),
                base == 32 * i,
                c0 == colon@[i as int],
                l0 == left@[i as int],
                r0 == right@[i as int],
                0 <= t <= 32,
                forall|j: u32| j < 32 ==> bit_of(cm, j) == (j >= t && bit_of(c0, j)),
                forall|j: u32| j < 32 ==> bit_of(lm, j) == (j >= t && bit_of(l0, j)),
                forall|j: u32| j < 32 ==> bit_of(rm, j) == (j >= t && bit_of(r0, j)),
                depth == depth_before(open, close, base + t),
                forall|j: u32|
                    j < 32 ==> bit_of(w, j) == (j < t && bit_of(c0, j) && depth_before(
                        open,
                        close,
                        base + j,
                    ) == level),
            decreases 32 - t,
        {
            let events = cm | lm | rm;
            proof {
                lemma_lowest_bit(events);
            }
            let k = events.trailing_zeros();
            proof {
                let kk = k;
                assert forall|j: u32| j < kk implies !bit_of(cm, j) && !bit_of(lm, j) && !bit_of(rm, j) by {
                    lemma_bit_ops(cm | lm, rm, j);
                    lemma_bit_ops(cm, lm, j);
                }
                lemma_bit_ops(cm | lm, rm, kk);
                lemma_bit_ops(cm, lm, kk);
                assert(kk >= t);
                assert forall|q: int| base + t <= q < base + kk implies !#[trigger] open(q) && !close(q) by {
                    lemma_has_bit(left@, i as int, q - base);
                    lemma_has_bit(right@, i as int, q - base);
                    assert(!bit_of(lm, (q - base) as u32));
                    assert(!bit_of(rm, (q - base) as u32));
                }
                lemma_depth_flat(open, close, base + t, base + kk);
                lemma_has_bit(colon@, i as int, kk as int);
                lemma_has_bit(left@, i as int, kk as int);
                lemma_has_bit(right@, i as int, kk as int);
                lemma_depth_bound(open, close, base + kk);
            }
            let bit: u32 = 1u32 << k;
            let ghost w_old = w;
            if (cm >> k) & 1 == 1 {
                if depth == level {
                    w = w | bit;
                }
            }
            if (lm >> k) & 1 == 1 {
                depth = depth + 1;
            }
            if (rm >> k) & 1 == 1 {
                if depth > 0 {
                    depth = depth - 1;
                }
            }
            proof {
                assert forall|j: u32| j < 32 implies bit_of(w, j) == (bit_of(w_old, j) || (j == k
                    && bit_of(cm, k) && depth_before(open, close, base + k) == level)) by {
                    lemma_bit_ops(w_old, bit, j);
                    lemma_bit_ops(1u32, k, j);
                }
            }
            let ghost (cm_old, lm_old, rm_old) = (cm, lm, rm);
            cm = cm & !bit;
            lm = lm & !bit;
            rm = rm & !bit;
            proof {
                assert forall|j: u32| j < 32 implies bit_of(cm, j) == (bit_of(cm_old, j) && j != k)
                    && bit_of(lm, j) == (bit_of(lm_old, j) && j != k) && bit_of(rm, j) == (bit_of(
                    rm_old,
                    j,
                ) && j != k) by {
                    lemma_bit_ops(cm_old, !bit, j);
                    lemma_bit_ops(lm_old, !bit, j);
                    lemma_bit_ops(rm_old, !bit, j);
                    lemma_bit_ops(bit, 0, j);
                    lemma_bit_ops(1u32, k, j);
                }
                t = k + 1;
            }
        }
        proof {
            assert forall|j: u32| j < 32 implies !bit_of(cm, j) && !bit_of(lm, j) && !bit_of(rm, j) by {
                lemma_bit_ops(cm | lm, rm, j);
                lemma_bit_ops(cm, lm, j);
                lemma_bit_ops(0, 0, j);
            }
            assert forall|q: int| base + t <= q < base + 32 implies !#[trigger] open(q) && !close(q) by {
                lemma_has_bit(left@, i as int, q - base);
                lemma_has_bit(right@, i as int, q - base);
                assert(!bit_of(lm, (q - base) as u32));
                assert(!bit_of(rm, (q - base) as u32));
            }
            lemma_depth_flat(open, close, base + t, base + 32);
        }
        let ghost old_r = r@;
        r.push(w);
        assert forall|p: int| 0 <= p < 32 * (i + 1) implies (#[trigger] has_bit(r@, p) <==> has_bit(
            colon@,
            p,
        ) && depth_before(open, close, p) == level) by {
            if p < 32 * i {
                lemma_has_bit_push(old_r, w, p);
            } else {
                let j = p - 32 * i;
                lemma_has_bit(r@, i as int, j);
                lemma_has_bit(colon@, i as int, j);
                assert(!bit_of(cm, j as u32));
            }
        }
        i = i + 1;
    }
    r
}


/// A `}` at `q` closes nothing: no object is open before it and no `{` shares its position.
pub open spec fn unmatched_at(open: spec_fn(int) -> bool, close: spec_fn(int) -> bool, q: int) -> bool {
    close(q) && !open(q) && depth_before(open, close, q) == 0
}

/// Some position before `p` holds a `}` that closes nothing.
pub open spec fn unmatched_before(open: spec_fn(int) -> bool, close: spec_fn(int) -> bool, p: int) -> bool
    decreases p,
{
    if p <= 0 {
        false
    } else {
        unmatched_before(open, close, p - 1) || unmatched_at(open, close, p - 1)
    }
}

/// `unmatched_before` holds exactly when some earlier position is an unmatched `}`.
pub proof fn lemma_unmatched_exists(open: spec_fn(int) -> bool, close: spec_fn(int) -> bool, p: int)
    ensures
        unmatched_before(open, close, p) <==> exists|q: int| 0 <= q < p && #[trigger] unmatched_at(open, close, q),
    decreases p,
{
    if p > 0 {
        lemma_unmatched_exists(open, close, p - 1);
        if unmatched_before(open, close, p) && !unmatched_at(open, close, p - 1) {
            let q = choose|q: int| 0 <= q < p - 1 && #[trigger] unmatched_at(open, close, q);
            assert(0 <= q < p && unmatched_at(open, close, q));
        }
        if exists|q: int| 0 <= q < p && #[trigger] unmatched_at(open, close, q) {
            let q = choose|q: int| 0 <= q < p && #[trigger] unmatched_at(open, close, q);
            if q < p - 1 {
                assert(exists|q2: int| 0 <= q2 < p - 1 && #[trigger] unmatched_at(open, close, q2));
            }
        }
    }
}

/// Over positions without braces nothing becomes unmatched.
pub proof fn lemma_unmatched_flat(open: spec_fn(int) -> bool, close: spec_fn(int) -> bool, a: int, b: int)
    requires
        a <= b,
        forall|q: int| a <= q < b ==> !#[trigger] open(q) && !close(q),
    ensures
        unmatched_before(open, close, b) == unmatched_before(open, close, a),
    decreases b - a,
{
    if a < b {
        lemma_unmatched_flat(open, close, a, b - 1);
    }
}

pub proof fn lemma_unmatched_agree(
    open: spec_fn(int) -> bool,
    close: spec_fn(int) -> bool,
    open2: spec_fn(int) -> bool,
    close2: spec_fn(int) -> bool,
    p: int,
)
    requires
        forall|q: int| 0 <= q < p ==> #[trigger] open(q) == open2(q),
        forall|q: int| 0 <= q < p ==> #[trigger] close(q) == close2(q),
    ensures
        unmatched_before(open, close, p) == unmatched_before(open2, close2, p),
    decreases p,
{
    if p > 0 {
        lemma_unmatched_agree(open, close, open2, close2, p - 1);
        lemma_depth_agree(open, close, open2, close2, p - 1);
    }
}

/// Whether some bit of `right` closes no object opened by an earlier bit of `left`.
pub fn has_unmatched_close(left: &[u32], right: &[u32]) -> (r: bool)
    requires
        left.len() == right.len(),
        forall|p: int| has_bit(left@, p) ==> p < usize::MAX,
    ensures
        r == unmatched_before(bits_of(left@), bits_of(right@), 32 * left.len()),
{
    let ghost open = bits_of(left@);
    let ghost close = bits_of(right@);
    let mut depth: usize = 0;
    let mut unmatched = false;
    let mut i: usize = 0;
    while i < left.len()
        invariant
            left.len() == right.len(),
            forall|p: int| has_bit(left@, p) ==> p < usize::MAX,
            open == bits_of(left@),
            close == bits_of(right@),
            i <= left.len(),
            depth == depth_before(open, close, 32 * i),
            unmatched == unmatched_before(open, close, 32 * i),
        decreases left.len() - i,
    {
        let l0 = left[i];
        let r0 = right[i];
        let mut lm = l0;
        let mut rm = r0;
        let ghost mut t: int = 0;
        let ghost base: int = 32 * i;
        while (lm | rm) != 0
            invariant
                i < left.len() == right.len(),
                forall|p: int| has_bit(left@, p) ==> p < usize::MAX,
                open == bits_of(left@),
                close == bits_of(right@),
                base == 32 * i,
                l0 == left@[i as int],
                r0 == right@[i as int],
                0 <= t <= 32,
                forall|j: u32| j < 32 ==> bit_of(lm, j) == (j >= t && bit_of(l0, j)),
                forall|j: u32| j < 32 ==> bit_of(rm, j) == (j >= t && bit_of(r0, j)),
                depth == depth_before(open, close, base + t),
                unmatched == unmatched_before(open, close, base + t),
            decreases 32 - t,
        {
            let events = lm | rm;
            proof {
                lemma_lowest_bit(events);
            }
            let k = events.trailing_zeros();
            proof {
                let kk = k;
                assert forall|j: u32| j < kk implies !bit_of(lm, j) && !bit_of(rm, j) by {
                    lemma_bit_ops(lm, rm, j);
                }
                lemma_bit_ops(lm, rm, kk);
                assert(kk >= t);
                assert forall|q: int| base + t <= q < base + kk implies !#[trigger] open(q) && !close(q) by {
                    lemma_has_bit(left@, i as int, q - base);
                    lemma_has_bit(right@, i as int, q - base);
                    assert(!bit_of(lm, (q - base) as u32));
                    assert(!bit_of(rm, (q - base) as u32));
                }
                lemma_depth_flat(open, close, base + t, base + kk);
                lemma_unmatched_flat(open, close, base + t, base + kk);
                lemma_has_bit(left@, i as int, kk as int);
                lemma_has_bit(right@, i as int, kk as int);
                lemma_depth_bound(open, close, base + kk);
            }
            let bit: u32 = 1u32 << k;
            if (lm >> k) & 1 == 1 {
                depth = depth + 1;
            }
            if (rm >> k) & 1 == 1 {
                if depth > 0 {
                    depth = depth - 1;
                } else {
                    unmatched = true;
                }
            }
            let ghost (lm_old, rm_old) = (lm, rm);
            lm = lm & !bit;
            rm = rm & !bit;
            proof {
                assert forall|j: u32| j < 32 implies bit_of(lm, j) == (bit_of(lm_old, j) && j != k)
                    && bit_of(rm, j) == (bit_of(rm_old, j) && j != k) by {
                    lemma_bit_ops(lm_old, !bit, j);
                    lemma_bit_ops(rm_old, !bit, j);
                    lemma_bit_ops(bit, 0, j);
                    lemma_bit_ops(1u32, k, j);
                }
                t = k + 1;
            }
        }
        proof {
            assert forall|j: u32| j < 32 implies !bit_of(lm, j) && !bit_of(rm, j) by {
                lemma_bit_ops(lm, rm, j);
                lemma_bit_ops(0, 0, j);
            }
            assert forall|q: int| base + t <= q < base + 32 implies !#[trigger] open(q) && !close(q) by {
                lemma_has_bit(left@, i as int, q - base);
                lemma_has_bit(right@, i as int, q - base);
                assert(!bit_of(lm, (q - base) as u32));
                assert(!bit_of(rm, (q - base) as u32));
            }
            lemma_depth_flat(open, close, base + t, base + 32);
            lemma_unmatched_flat(open, close, base + t, base + 32);
        }
        i = i + 1;
    }
    unmatched
}

/// `bytes` holds a `}` outside strings that closes no object.
pub open spec fn unmatched_close(bytes: Seq<u8>) -> bool {
    exists|p: int| #[trigger] structural(bytes, RIGHT_BRACE)(p) && nest_depth(bytes, p) == 0
}

/// Number of objects open at `p` in `bytes`, counting only braces outside strings.
pub open spec fn nest_depth(bytes: Seq<u8>, p: int) -> nat {
    depth_before(structural(bytes, LEFT_BRACE), structural(bytes, RIGHT_BRACE), p)
}

/// The structural colons of `bytes` at which exactly `depth` objects are open.
pub open spec fn colon_at_depth(bytes: Seq<u8>, depth: nat) -> spec_fn(int) -> bool {
    |q: int| structural(bytes, COLON)(q) && nest_depth(bytes, q) == depth
}

/// One bitmap of colons per nesting level: level `d` holds the structural colons
/// whose innermost enclosing object is `d + 1` objects deep.
pub struct LeveledColons {
    levels: Vec<Vec<u32>>,
    unmatched: bool,
}

impl View for LeveledColons {
    type V = Seq<Seq<u32>>;

    closed spec fn view(&self) -> Seq<Seq<u32>> {
        self.levels@.map_values(|v: Vec<u32>| v@)
    }
}

impl LeveledColons {
    /// Every set bit lies at a position that a `usize` can hold.
    #[verifier::type_invariant]
    spec fn wf(&self) -> bool {
        forall|d: int, p: int| 0 <= d < self@.len() && #[trigger] has_bit(self@[d], p) ==> p < usize::MAX
    }

    /// Level `d` marks the structural colons of `bytes` at depth `d + 1`, for each level.
    pub open spec fn indexes(&self, bytes: Seq<u8>) -> bool {
        forall|d: int|
            0 <= d < self@.len() ==> marks(
                #[trigger] self@[d],
                bytes.len() as int,
                colon_at_depth(bytes, (d + 1) as nat),
            )
    }

    /// Indexes `bytes` for the levels `0 .. nesting`.
    pub fn build(bytes: &[u8], nesting: usize) -> (r: Self)
        ensures
            r@.len() == nesting,
            r.indexes(bytes@),
            r.unmatched_spec() == unmatched_close(bytes@),
    {
        let chars = StructuralChars::build(bytes);
        let ghost n = bytes.len() as int;
        proof {
            assert forall|p: int| has_bit(chars.left_brace@, p) implies p < usize::MAX by {}
            assert forall|p: int| 0 <= p <= 32 * chars.colon.len() implies depth_before(
                bits_of(chars.left_brace@),
                bits_of(chars.right_brace@),
                p,
            ) == nest_depth(bytes@, p) by {
                assert forall|q: int| 0 <= q < p implies #[trigger] bits_of(chars.left_brace@)(q)
                    == structural(bytes@, LEFT_BRACE)(q) by {}
                assert forall|q: int| 0 <= q < p implies #[trigger] bits_of(chars.right_brace@)(q)
                    == structural(bytes@, RIGHT_BRACE)(q) by {}
                lemma_depth_agree(
                    bits_of(chars.left_brace@),
                    bits_of(chars.right_brace@),
                    structural(bytes@, LEFT_BRACE),
                    structural(bytes@, RIGHT_BRACE),
                    p,
                );
            }
        }
        let mut levels: Vec<Vec<u32>> = Vec::with_capacity(nesting);
        let mut d: usize = 0;
        while d < nesting
            invariant
                d <= nesting,
                levels.len() == d,
                forall|p: int| has_bit(chars.left_brace@, p) ==> p < usize::MAX,
                chars.colon.len() == chars.left_brace.len() == chars.right_brace.len() == lanes(n),
                n == bytes.len(),
                marks(chars.colon@, n, structural(bytes@, COLON)),
                forall|p: int| 0 <= p <= 32 * chars.colon.len() ==> depth_before(
                    bits_of(chars.left_brace@),
                    bits_of(chars.right_brace@),
                    p,
                ) == nest_depth(bytes@, p),
                forall|e: int|
                    0 <= e < d ==> marks(
                        #[trigger] levels@[e]@,
                        n,
                        colon_at_depth(bytes@, (e + 1) as nat),
                    ),
            decreases nesting - d,
        {
            let level = colons_at_depth(&chars.colon, &chars.left_brace, &chars.right_brace, d + 1);
            levels.push(level);
            d = d + 1;
        }
        let unmatched = has_unmatched_close(&chars.left_brace, &chars.right_brace);
        proof {
            let open = structural(bytes@, LEFT_BRACE);
            let close = structural(bytes@, RIGHT_BRACE);
            let len = 32 * chars.left_brace.len();
            assert forall|q: int| 0 <= q < len implies #[trigger] bits_of(chars.left_brace@)(q)
                == open(q) by {}
            assert forall|q: int| 0 <= q < len implies #[trigger] bits_of(chars.right_brace@)(q)
                == close(q) by {}
            lemma_unmatched_agree(bits_of(chars.left_brace@), bits_of(chars.right_brace@), open, close, len);
            lemma_unmatched_exists(open, close, len);
            if unmatched {
                let q = choose|q: int| 0 <= q < len && #[trigger] unmatched_at(open, close, q);
                assert(close(q) && nest_depth(bytes@, q) == 0);
            }
            if unmatched_close(bytes@) {
                let q = choose|q: int| #[trigger] structural(bytes@, RIGHT_BRACE)(q) && nest_depth(bytes@, q) == 0;
                assert(q < bytes.len());
                assert(q < len) by (nonlinear_arith)
                    requires
                        q < bytes.len(),
                        chars.left_brace.len() == (bytes.len() + 31) / 32,
                        len == 32 * chars.left_brace.len(),
                ;
                assert(unmatched_at(open, close, q));
            }
        }
        let r = LeveledColons { levels, unmatched };
        proof {
            assert forall|e: int, p: int| 0 <= e < r@.len() && #[trigger] has_bit(r@[e], p) implies p
                < usize::MAX by {
                assert(marks(r.levels@[e]@, n, colon_at_depth(bytes@, (e + 1) as nat)));
            }
        }
        r
    }

    /// Whether the indexed bytes hold a `}` that closes no object.
    pub closed spec fn unmatched_spec(&self) -> bool {
        self.unmatched
    }

    /// Whether the indexed bytes hold a `}` outside strings that closes no object; such a
    /// record is malformed.
    pub fn unmatched(&self) -> (r: bool)
        ensures
            r == self.unmatched_spec(),
    {
        self.unmatched
    }

    /// The byte offsets of the colons of level `level`, in ascending order; none for a
    /// level that was not built.
    pub fn positions(&self, level: usize) -> (r: Vec<usize>)
        ensures
            level >= self@.len() ==> r.len() == 0,
            forall|a: int, b: int| 0 <= a < b < r.len() ==> r[a] < r[b],
            level < self@.len() ==> forall|a: int| 0 <= a < r.len() ==> has_bit(self@[level as int], #[trigger] r[a] as int),
            level < self@.len() ==> forall|p: int| #[trigger] has_bit(self@[level as int], p) ==> r@.contains(p as usize),
    {
        proof {
            use_type_invariant(self);
        }
        let mut pos: Vec<usize> = Vec::new();
        if level >= self.levels.len() {
            return pos;
        }
        let words = &self.levels[level];
        let ghost m = words@;
        assert(m == self@[level as int]);
        let mut i: usize = 0;
        while i < words.len()
            invariant
                self.wf(),
                level < self@.len(),
                m == self@[level as int],
                m == words@,
                i <= words.len(),
                forall|a: int, b: int| 0 <= a < b < pos.len() ==> pos[a] < pos[b],
                forall|a: int| 0 <= a < pos.len() ==> pos[a] < 32 * i,
                forall|a: int| 0 <= a < pos.len() ==> has_bit(m, #[trigger] pos[a] as int),
                forall|p: int| 0 <= p < 32 * i && #[trigger] has_bit(m, p) ==> pos@.contains(p as usize),
            decreases words.len() - i,
        {
            let w0 = words[i];
            let mut colon_mask = w0;
            let ghost mut t: int = 0;
            let ghost base: int = 32 * i;
            while colon_mask > 0
                invariant
                    self.wf(),
                    level < self@.len(),
                    m == self@[level as int],
                    m == words@,
                    i < words.len(),
                    base == 32 * i,
                    w0 == m[i as int],
                    0 <= t <= 32,
                    forall|j: u32| j < 32 ==> bit_of(colon_mask, j) == (j >= t && bit_of(w0, j)),
                    forall|a: int, b: int| 0 <= a < b < pos.len() ==> pos[a] < pos[b],
                    forall|a: int| 0 <= a < pos.len() ==> pos[a] < base + t,
                    forall|a: int| 0 <= a < pos.len() ==> has_bit(m, #[trigger] pos[a] as int),
                    forall|p: int| 0 <= p < base + t && #[trigger] has_bit(m, p) ==> pos@.contains(p as usize),
                decreases 32 - t,
            {
                proof {
                    lemma_lowest_bit(colon_mask);
                }
                let bit_mask = extract(colon_mask);
                let k = colon_mask.trailing_zeros();
                proof {
                    lemma_has_bit(m, i as int, k as int);
                    assert(self.wf());
                    assert(has_bit(self@[level as int], base + k));
                    assert forall|p: int| base + t <= p < base + k implies !has_bit(m, p) by {
                        lemma_has_bit(m, i as int, p - base);
                        assert(!bit_of(colon_mask, (p - base) as u32));
                    }
                }
                let offset = 32 * i + k as usize;
                let ghost old_pos = pos@;
                pos.push(offset);
                proof {
                    assert forall|p: int| 0 <= p < base + k + 1 && #[trigger] has_bit(m, p) implies pos@.contains(p as usize) by {
                        if p < base + t {
                            assert(old_pos.contains(p as usize));
                            let a = choose|a: int| 0 <= a < old_pos.len() && old_pos[a] == p as usize;
                            assert(pos@[a] == p as usize);
                        } else {
                            assert(p == base + k);
                            assert(pos@[old_pos.len() as int] == p as usize);
                        }
                    }
                }
                let ghost old_mask = colon_mask;
                colon_mask = remove(colon_mask);
                proof {
                    assert forall|j: u32| j < 32 implies bit_of(colon_mask, j) == (bit_of(old_mask, j) && j != k) by {
                        lemma_bit_ops(old_mask, !(1u32 << k), j);
                        lemma_bit_ops(1u32 << k, 0, j);
                        lemma_bit_ops(1u32, k, j);
                    }
                    t = k + 1;
                }
            }
            proof {
                assert forall|p: int| base + t <= p < base + 32 implies !has_bit(m, p) by {
                    lemma_has_bit(m, i as int, p - base);
                    lemma_bit_ops(0, 0, (p - base) as u32);
                }
            }
            i = i + 1;
        }
        pos
    }
}

} // verus!
