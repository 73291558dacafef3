//! Simple-8b: up to 240 non-negative integers below 2^60 packed into one
//! 64-bit word.
//!
//! The top four bits of a word select how it is laid out:
//!
//! | selector | 0   | 1   | 2  | 3  | 4  | 5  | 6  | 7  | 8 | 9 | 10 | 11 | 12 | 13 | 14 | 15 |
//! |----------|-----|-----|----|----|----|----|----|----|---|---|----|----|----|----|----|----|
//! | values   | 240 | 120 | 60 | 30 | 20 | 15 | 12 | 10 | 8 | 7 | 6  | 5  | 4  | 3  | 2  | 1  |
//! | bits     | 0   | 0   | 1  | 2  | 3  | 4  | 5  | 6  | 7 | 8 | 10 | 12 | 15 | 20 | 30 | 60 |
//!
//! Selectors 0 and 1 stand for runs of the value 1. For the others, value
//! `k` of the word sits in bits `k * bits .. (k + 1) * bits`.
use vstd::prelude::*;
use crate::CodecError;

verus! {

/// The largest value that can be packed: 2^60 - 1.
pub const MAX_VALUE: u64 = 0x0fff_ffff_ffff_ffff;

/// How many values a word with selector `sel` holds.
pub open spec fn sel_count(sel: int) -> nat {
    if sel == 0 {
        240
    } else if sel == 1 {
        120
    } else if sel == 2 {
        60
    } else if sel == 3 {
        30
    } else if sel == 4 {
        20
    } else if sel == 5 {
        15
    } else if sel == 6 {
        12
    } else if sel == 7 {
        10
    } else if sel == 8 {
        8
    } else if sel == 9 {
        7
    } else if sel == 10 {
        6
    } else if sel == 11 {
        5
    } else if sel == 12 {
        4
    } else if sel == 13 {
        3
    } else if sel == 14 {
        2
    } else {
        1
    }
}

/// How many bits each value takes in a word with selector `sel`.
pub open spec fn sel_bits(sel: int) -> u64 {
    if sel <= 1 {
        0
    } else if sel <= 9 {
        (sel - 1) as u64
    } else if sel == 10 {
        10
    } else if sel == 11 {
        12
    } else if sel == 12 {
        15
    } else if sel == 13 {
        20
    } else if sel == 14 {
        30
    } else {
        60
    }
}

/// The `b` lowest bits set.
pub open spec fn low_mask(b: u64) -> u64 {
    u64::MAX >> ((64 - b) as u64)
}

/// Whether the first values of `s` fill a word with selector `sel`: there
/// are enough of them, and each is 1 (selectors 0 and 1) or fits the width.
pub open spec fn fits(s: Seq<u64>, sel: int) -> bool {
    &&& s.len() >= sel_count(sel)
    &&& forall|k: int|
        0 <= k < sel_count(sel) ==> if sel < 2 {
            #[trigger] s[k] == 1
        } else {
            s[k] <= low_mask(sel_bits(sel))
        }
}

/// The first selector from `from` on that fits the front of `s`, or 16 if
/// none does.
pub open spec fn first_fit(s: Seq<u64>, from: int) -> int
    decreases 16 - from,
{
    if from >= 16 {
        16
    } else if fits(s, from) {
        from
    } else {
        first_fit(s, from + 1)
    }
}

/// The values `vals` side by side, `b` bits apart, the first lowest.
pub open spec fn pack_bits(vals: Seq<u64>, b: u64) -> u64
    decreases vals.len(),
{
    if vals.len() == 0 {
        0
    } else {
        pack_bits(vals.drop_last(), b) | (vals.last() << (((vals.len() - 1) * b) as u64))
    }
}

/// The word with selector `sel` that holds `vals`.
pub open spec fn make_word(sel: int, vals: Seq<u64>) -> u64 {
    if sel < 2 {
        (sel as u64) << 60u64
    } else {
        ((sel as u64) << 60u64) | pack_bits(vals, sel_bits(sel))
    }
}

/// The words that the greedy packing makes of `s`: at each step the first
/// selector that fits the values that are left. `None` when some value is
/// too large for any selector.
pub open spec fn greedy_words(s: Seq<u64>) -> Option<Seq<u64>>
    decreases s.len(),
{
    if s.len() == 0 {
        Some(Seq::empty())
    } else {
        let sel = first_fit(s, 0);
        if !(0 <= sel < 16 && 1 <= sel_count(sel) <= s.len()) {
            // no selector fits the first value
            None
        } else {
            match greedy_words(s.skip(sel_count(sel) as int)) {
                Some(rest) => Some(seq![make_word(sel, s.take(sel_count(sel) as int))] + rest),
                None => None,
            }
        }
    }
}

/// The values that the word `w` holds, in packing order.
pub open spec fn unpack_word(w: u64) -> Seq<u64> {
    let sel = (w >> 60u64) as int;
    if sel < 2 {
        Seq::new(sel_count(sel), |k: int| 1u64)
    } else {
        Seq::new(
            sel_count(sel),
            |k: int| (w >> ((k * sel_bits(sel)) as u64)) & low_mask(sel_bits(sel)),
        )
    }
}

/// The values that the words `ws` hold, in order.
pub open spec fn decode_words(ws: Seq<u64>) -> Seq<u64>
    decreases ws.len(),
{
    if ws.len() == 0 {
        Seq::empty()
    } else {
        decode_words(ws.drop_last()) + unpack_word(ws.last())
    }
}

proof fn lemma_sel_table(sel: int)
    requires
        0 <= sel < 16,
    ensures
        1 <= sel_count(sel) <= 240,
        sel < 2 ==> sel_bits(sel) == 0,
        sel >= 2 ==> 1 <= sel_bits(sel) <= 60,
        sel >= 2 ==> sel_count(sel) * sel_bits(sel) <= 60,
{
    let n = sel_count(sel) as int;
    let b = sel_bits(sel) as int;
    if sel >= 2 {
        assert(n * b <= 60) by (nonlinear_arith)
            requires
                (sel == 2 && n == 60 && b == 1) || (sel == 3 && n == 30 && b == 2) || (sel == 4
                    && n == 20 && b == 3) || (sel == 5 && n == 15 && b == 4) || (sel == 6 && n
                    == 12 && b == 5) || (sel == 7 && n == 10 && b == 6) || (sel == 8 && n == 8
                    && b == 7) || (sel == 9 && n == 7 && b == 8) || (sel == 10 && n == 6 && b
                    == 10) || (sel == 11 && n == 5 && b == 12) || (sel == 12 && n == 4 && b
                    == 15) || (sel == 13 && n == 3 && b == 20) || (sel == 14 && n == 2 && b
                    == 30) || (sel == 15 && n == 1 && b == 60),
        ;
    }
}

/// How many values a word with selector `sel` holds.
fn selector_count(sel: usize) -> (r: usize)
    requires
        sel < 16,
    ensures
        r == sel_count(sel as int),
{
    match sel {
        0 => 240,
        1 => 120,
        2 => 60,
        3 => 30,
        4 => 20,
        5 => 15,
        6 => 12,
        7 => 10,
        8 => 8,
        9 => 7,
        10 => 6,
        11 => 5,
        12 => 4,
        13 => 3,
        14 => 2,
        _ => 1,
    }
}

/// How many bits each value takes in a word with selector `sel`.
fn selector_bits(sel: usize) -> (r: u64)
    requires
        sel < 16,
    ensures
        r == sel_bits(sel as int),
{
    match sel {
        0 | 1 => 0,
        10 => 10,
        11 => 12,
        12 => 15,
        13 => 20,
        14 => 30,
        15 => 60,
        _ => (sel - 1) as u64,
    }
}

/// Whether the values of `src` from `start` on fill a word with selector `sel`.
fn can_pack(src: &[u64], start: usize, sel: usize) -> (r: bool)
    requires
        start <= src.len(),
        sel < 16,
    ensures
        r == fits(src@.skip(start as int), sel as int),
{
    let ghost rest = src@.skip(start as int);
    let n = selector_count(sel);
    if src.len() - start < n {
        return false;
    }
    if sel < 2 {
        let mut k: usize = 0;
        while k < n
            invariant
                rest == src@.skip(start as int),
                start + n <= src.len(),
                n == sel_count(sel as int),
                sel < 2,
                k <= n,
                forall|k2: int| 0 <= k2 < k ==> #[trigger] rest[k2] == 1,
            decreases n - k,
        {
            if src[start + k] != 1 {
                assert(rest[k as int] != 1);
                return false;
            }
            k += 1;
        }
        return true;
    }
    let bits = selector_bits(sel);
    proof {
        lemma_sel_table(sel as int);
    }
    let max: u64 = u64::MAX >> (64 - bits);
    let mut k: usize = 0;
    while k < n
        invariant
            rest == src@.skip(start as int),
            start + n <= src.len(),
            n == sel_count(sel as int),
            2 <= sel < 16,
            bits == sel_bits(sel as int),
            max == low_mask(bits),
            k <= n,
            forall|k2: int| 0 <= k2 < k ==> #[trigger] rest[k2] <= max,
        decreases n - k,
    {
        if src[start + k] > max {
            assert(rest[k as int] > max);
            return false;
        }
        k += 1;
    }
    true
}

/// Packs the `sel_count(sel)` values of `src` from `start` on into one word
/// with selector `sel`.
fn pack(src: &[u64], start: usize, sel: usize) -> (r: u64)
    requires
        2 <= sel < 16,
        start + sel_count(sel as int) <= src.len(),
    ensures
        r == make_word(sel as int, src@.subrange(start as int, start + sel_count(sel as int))),
{
    let n = selector_count(sel);
    let bits = selector_bits(sel);
    proof {
        lemma_sel_table(sel as int);
    }
    let mut w: u64 = 0;
    let mut shift: u64 = 0;
    let mut k: usize = 0;
    while k < n
        invariant
            start + n <= src.len(),
            n == sel_count(sel as int),
            bits == sel_bits(sel as int),
            1 <= bits,
            n * bits <= 60,
            k <= n,
            shift == k * bits,
            w == pack_bits(src@.subrange(start as int, start + k), bits),
        decreases n - k,
    {
        let ghost sub = src@.subrange(start as int, start + k + 1);
        assert(sub.drop_last() =~= src@.subrange(start as int, start + k));
        assert(shift <= 60) by (nonlinear_arith)
            requires
                shift == k * bits,
                k <= n,
                n * bits <= 60,
        ;
        w = w | (src[start + k] << shift);
        assert((k + 1) * bits <= n * bits && (k + 1) * bits == k * bits + bits)
            by (nonlinear_arith)
            requires
                k + 1 <= n,
        ;
        shift = shift + bits;
        k += 1;
    }
    ((sel as u64) << 60u64) | w
}

/// Packs `src` into words, greedily: at each step the first selector that
/// fits the values that are left. Writes the words to the front of `dst` and
/// returns their number, or fails when a value is too large to be packed.
pub fn encode_all_ref(dst: &mut [u64], src: &[u64]) -> (r: Result<usize, CodecError>)
    requires
        old(dst)@.len() >= src@.len(),
    ensures
        final(dst)@.len() == old(dst)@.len(),
        r is Ok <==> greedy_words(src@) is Some,
        r matches Ok(j) ==> j <= src@.len() && greedy_words(src@) == Some(final(dst)@.take(j as int)),
        r is Err ==> r == Err::<usize, CodecError>(CodecError::ValueOutOfBounds),
{
    let mut i: usize = 0;
    let mut j: usize = 0;
    proof {
        assert(src@.skip(0) =~= src@);
        match greedy_words(src@) {
            Some(all) => {
                assert(dst@.take(0) + all =~= all);
            },
            None => {},
        }
    }
    while i < src.len()
        invariant
            dst@.len() == old(dst)@.len(),
            dst@.len() >= src@.len(),
            j <= i <= src@.len(),
            match greedy_words(src@.skip(i as int)) {
                Some(rest) => greedy_words(src@) == Some(dst@.take(j as int) + rest),
                None => greedy_words(src@) is None,
            },
        decreases src@.len() - i,
    {
        let ghost rest = src@.skip(i as int);
        let mut sel: usize = 0;
        while sel < 16 && !can_pack(src, i, sel)
            invariant
                rest == src@.skip(i as int),
                i < src@.len(),
                sel <= 16,
                first_fit(rest, 0) == first_fit(rest, sel as int),
            decreases 16 - sel,
        {
            sel += 1;
        }
        if sel == 16 {
            assert(greedy_words(rest) is None);
            return Err(CodecError::ValueOutOfBounds);
        }
        proof {
            lemma_sel_table(sel as int);
        }
        let n = selector_count(sel);
        let word: u64 = if sel < 2 {
            (sel as u64) << 60u64
        } else {
            pack(src, i, sel)
        };
        let ghost before = dst@;
        dst[j] = word;
        proof {
            let vals = src@.subrange(i as int, i + n);
            assert(rest.take(n as int) =~= vals);
            assert(rest.skip(n as int) =~= src@.skip(i + n));
            assert(word == make_word(sel as int, vals));
            assert(dst@.take(j + 1) =~= before.take(j as int).push(word));
            match greedy_words(src@.skip(i + n)) {
                Some(rest2) => {
                    assert(greedy_words(rest) == Some(seq![word] + rest2));
                    assert(before.take(j as int) + (seq![word] + rest2) =~= dst@.take(j + 1)
                        + rest2);
                },
                None => {},
            }
        }
        i = i + n;
        j = j + 1;
    }
    proof {
        assert(src@.skip(i as int) =~= Seq::<u64>::empty());
        assert(dst@.take(j as int) + Seq::<u64>::empty() =~= dst@.take(j as int));
    }
    Ok(j)
}

proof fn lemma_pack_low(p: u64, v: u64, s: u64, b: u64, t: u64)
    by (bit_vector)
    requires
        1 <= b <= 60,
        s + b <= 60,
        t + b <= s,
        p < (1u64 << s),
        v <= (u64::MAX >> ((64 - b) as u64)),
    ensures
        ((p | (v << s)) >> t) & (u64::MAX >> ((64 - b) as u64)) == (p >> t) & (u64::MAX >> ((64
            - b) as u64)),
{
}

proof fn lemma_pack_top(p: u64, v: u64, s: u64, b: u64)
    by (bit_vector)
    requires
        1 <= b <= 60,
        s + b <= 60,
        p < (1u64 << s),
        v <= (u64::MAX >> ((64 - b) as u64)),
    ensures
        ((p | (v << s)) >> s) & (u64::MAX >> ((64 - b) as u64)) == v,
        (p | (v << s)) < (1u64 << ((s + b) as u64)),
{
}

proof fn lemma_word_fields(p: u64, sel: u64, t: u64, b: u64, nb: u64)
    by (bit_vector)
    requires
        sel < 16,
        nb <= 60,
        p < (1u64 << nb),
        1 <= b <= 60,
        t + b <= 60,
    ensures
        (((sel << 60u64) | p) >> 60u64) == sel,
        (((sel << 60u64) | p) >> t) & (u64::MAX >> ((64 - b) as u64)) == (p >> t) & (u64::MAX
            >> ((64 - b) as u64)),
{
}

/// Values that fit `b` bits each can be read back from their packing.
proof fn lemma_pack_bits(vals: Seq<u64>, b: u64)
    requires
        1 <= b <= 60,
        vals.len() * b <= 60,
        forall|k: int| 0 <= k < vals.len() ==> #[trigger] vals[k] <= low_mask(b),
    ensures
        pack_bits(vals, b) < (1u64 << ((vals.len() * b) as u64)),
        forall|k: int|
            0 <= k < vals.len() ==> (pack_bits(vals, b) >> ((k * b) as u64)) & low_mask(b)
                == #[trigger] vals[k],
    decreases vals.len(),
{
    if vals.len() == 0 {
        assert(0u64 < (1u64 << 0u64)) by (bit_vector);
    } else {
        let m = vals.len() - 1;
        let init = vals.drop_last();
        assert(init.len() * b <= 60) by (nonlinear_arith)
            requires
                init.len() == m,
                vals.len() == m + 1,
                vals.len() * b <= 60,
        ;
        lemma_pack_bits(init, b);
        let p = pack_bits(init, b);
        let s = (m * b) as u64;
        assert(m * b + b == vals.len() * b) by (nonlinear_arith)
            requires
                vals.len() == m + 1,
        ;
        lemma_pack_top(p, vals.last(), s, b);
        assert forall|k: int| 0 <= k < vals.len() implies (pack_bits(vals, b) >> ((k * b) as u64))
            & low_mask(b) == #[trigger] vals[k] by {
            if k < m {
                assert(k * b + b <= m * b) by (nonlinear_arith)
                    requires
                        0 <= k < m,
                        b >= 1,
                ;
                assert(0 <= k * b) by (nonlinear_arith)
                    requires
                        0 <= k,
                ;
                lemma_pack_low(p, vals.last(), s, b, (k * b) as u64);
                assert(init[k] == vals[k]);
            }
        }
    }
}

/// A word made of values that fit its selector unpacks to those values.
pub proof fn lemma_unpack_make_word(sel: int, vals: Seq<u64>)
    requires
        0 <= sel < 16,
        vals.len() == sel_count(sel),
        fits(vals, sel),
    ensures
        unpack_word(make_word(sel, vals)) == vals,
{
    lemma_sel_table(sel);
    let w = make_word(sel, vals);
    if sel < 2 {
        let sl = sel as u64;
        assert(((sl << 60u64) >> 60u64) == sl) by (bit_vector)
            requires
                sl < 16,
        ;
        assert(unpack_word(w) =~= vals);
    } else {
        let b = sel_bits(sel);
        let n = sel_count(sel);
        assert forall|k: int| 0 <= k < vals.len() implies #[trigger] vals[k] <= low_mask(b) by {
        }
        lemma_pack_bits(vals, b);
        let p = pack_bits(vals, b);
        let nb = (vals.len() * b) as u64;
        lemma_word_fields(p, sel as u64, 0, b, nb);
        assert forall|k: int| 0 <= k < n implies (w >> ((k * b) as u64)) & low_mask(b)
            == #[trigger] vals[k] by {
            assert(k * b + b <= n * b && 0 <= k * b) by (nonlinear_arith)
                requires
                    0 <= k < n,
                    b >= 1,
            ;
            lemma_word_fields(p, sel as u64, (k * b) as u64, b, nb);
        }
        assert(unpack_word(w) =~= vals);
    }
}

/// Decoding a run of words decodes each part in turn.
pub proof fn lemma_decode_concat(a: Seq<u64>, b: Seq<u64>)
    ensures
        decode_words(a + b) == decode_words(a) + decode_words(b),
    decreases b.len(),
{
    if b.len() == 0 {
        assert(a + b =~= a);
        assert(decode_words(a) + decode_words(b) =~= decode_words(a));
    } else {
        lemma_decode_concat(a, b.drop_last());
        assert((a + b).drop_last() =~= a + b.drop_last());
        assert(decode_words(a) + decode_words(b.drop_last()) + unpack_word(b.last())
            =~= decode_words(a) + (decode_words(b.drop_last()) + unpack_word(b.last())));
    }
}

proof fn lemma_first_fit_fits(s: Seq<u64>, from: int)
    requires
        0 <= from <= 16,
    ensures
        from <= first_fit(s, from) <= 16,
        first_fit(s, from) < 16 ==> fits(s, first_fit(s, from)),
        forall|sel: int| from <= sel < first_fit(s, from) ==> !fits(s, sel),
    decreases 16 - from,
{
    if from < 16 && !fits(s, from) {
        lemma_first_fit_fits(s, from + 1);
    }
}

/// Decoding the greedy packing of a sequence gives the sequence back.
pub proof fn lemma_simple8b_round_trip(s: Seq<u64>)
    requires
        greedy_words(s) is Some,
    ensures
        decode_words(greedy_words(s).unwrap()) == s,
    decreases s.len(),
{
    if s.len() == 0 {
        assert(decode_words(Seq::<u64>::empty()) =~= s);
    } else {
        let sel = first_fit(s, 0);
        lemma_first_fit_fits(s, 0);
        let n = sel_count(sel) as int;
        let rest = greedy_words(s.skip(n)).unwrap();
        lemma_simple8b_round_trip(s.skip(n));
        let w = make_word(sel, s.take(n));
        assert(fits(s.take(n), sel));
        lemma_unpack_make_word(sel, s.take(n));
        lemma_decode_concat(seq![w], rest);
        assert(seq![w].drop_last() =~= Seq::<u64>::empty());
        assert(seq![w].last() == w);
        assert(decode_words(Seq::<u64>::empty()) =~= Seq::<u64>::empty());
        assert(decode_words(seq![w]) =~= unpack_word(w));
        assert(s.take(n) + s.skip(n) =~= s);
    }
}

/// Every selector accepts a value of 1; selector 15 accepts one value up to
/// `MAX_VALUE`; no selector accepts a first value above it.
proof fn lemma_fits_bounds(s: Seq<u64>)
    requires
        s.len() >= 1,
    ensures
        s[0] <= MAX_VALUE ==> fits(s, 15),
        s[0] > MAX_VALUE ==> forall|sel: int| 0 <= sel < 16 ==> !fits(s, sel),
{
    assert(u64::MAX >> 4u64 == 0x0fff_ffff_ffff_ffffu64) by (bit_vector);
    assert(low_mask(60) == MAX_VALUE);
    if s[0] > MAX_VALUE {
        assert forall|sel: int| 0 <= sel < 16 implies !fits(s, sel) by {
            lemma_sel_table(sel);
            if sel >= 2 {
                let b = sel_bits(sel);
                assert(low_mask(b) <= MAX_VALUE) by (bit_vector)
                    requires
                        1 <= b <= 60,
                ;
            }
        }
    }
}

/// The greedy packing succeeds exactly when every value is at most
/// `MAX_VALUE`.
pub proof fn lemma_greedy_succeeds(s: Seq<u64>)
    ensures
        greedy_words(s) is Some <==> forall|k: int| 0 <= k < s.len() ==> #[trigger] s[k]
            <= MAX_VALUE,
    decreases s.len(),
{
    if s.len() > 0 {
        lemma_first_fit_fits(s, 0);
        lemma_fits_bounds(s);
        let sel = first_fit(s, 0);
        if s[0] > MAX_VALUE {
            assert(sel == 16);
        } else {
            assert(sel < 16);
            lemma_sel_table(sel);
            let n = sel_count(sel) as int;
            lemma_greedy_succeeds(s.skip(n));
            if forall|k: int| 0 <= k < s.len() ==> #[trigger] s[k] <= MAX_VALUE {
                assert forall|k: int| 0 <= k < s.skip(n).len() implies #[trigger] s.skip(n)[k]
                    <= MAX_VALUE by {
                    assert(s.skip(n)[k] == s[k + n]);
                }
            } else {
                let k = choose|k: int| 0 <= k < s.len() && !(#[trigger] s[k] <= MAX_VALUE);
                if k < n {
                    if sel < 2 {
                        assert(s[k] == 1);
                    } else {
                        let b = sel_bits(sel);
                        assert(low_mask(b) <= MAX_VALUE) by (bit_vector)
                            requires
                                1 <= b <= 60,
                        ;
                    }
                } else {
                    assert(s.skip(n)[k - n] == s[k]);
                }
            }
        }
    }
}

/// The eight bytes of `w`, most significant first.
pub open spec fn be_bytes(w: u64) -> Seq<u8> {
    seq![
        (w >> 56u64) as u8,
        (w >> 48u64) as u8,
        (w >> 40u64) as u8,
        (w >> 32u64) as u8,
        (w >> 24u64) as u8,
        (w >> 16u64) as u8,
        (w >> 8u64) as u8,
        w as u8,
    ]
}

/// The big-endian word whose first byte is `b[at]`.
pub open spec fn be_u64(b: Seq<u8>, at: int) -> u64 {
    ((b[at] as u64) << 56u64) | ((b[at + 1] as u64) << 48u64) | ((b[at + 2] as u64) << 40u64) | ((
    b[at + 3] as u64) << 32u64) | ((b[at + 4] as u64) << 24u64) | ((b[at + 5] as u64) << 16u64)
        | ((b[at + 6] as u64) << 8u64) | (b[at + 7] as u64)
}

/// The whole big-endian words of `b`; trailing bytes that do not make a
/// word are ignored.
pub open spec fn be_words(b: Seq<u8>) -> Seq<u64> {
    Seq::new(b.len() / 8, |k: int| be_u64(b, 8 * k))
}

/// The words `ws` written out big-endian, one after another.
pub open spec fn words_bytes(ws: Seq<u64>) -> Seq<u8>
    decreases ws.len(),
{
    if ws.len() == 0 {
        Seq::empty()
    } else {
        words_bytes(ws.drop_last()) + be_bytes(ws.last())
    }
}

/// The values that the bytes `b` hold.
pub open spec fn decode_bytes(b: Seq<u8>) -> Seq<u64> {
    decode_words(be_words(b))
}

pub proof fn lemma_be_round_trip(w: u64)
    ensures
        be_u64(be_bytes(w), 0) == w,
{
    let b = be_bytes(w);
    let (b0, b1, b2, b3, b4, b5, b6, b7) = (b[0], b[1], b[2], b[3], b[4], b[5], b[6], b[7]);
    assert(((b0 as u64) << 56u64) | ((b1 as u64) << 48u64) | ((b2 as u64) << 40u64) | ((
    b3 as u64) << 32u64) | ((b4 as u64) << 24u64) | ((b5 as u64) << 16u64) | ((b6 as u64)
        << 8u64) | (b7 as u64) == w) by (bit_vector)
        requires
            b0 == (w >> 56u64) as u8,
            b1 == (w >> 48u64) as u8,
            b2 == (w >> 40u64) as u8,
            b3 == (w >> 32u64) as u8,
            b4 == (w >> 24u64) as u8,
            b5 == (w >> 16u64) as u8,
            b6 == (w >> 8u64) as u8,
            b7 == w as u8,
    ;
}

/// Reading back the bytes of a run of words gives the words.
pub proof fn lemma_words_bytes_round_trip(ws: Seq<u64>)
    ensures
        words_bytes(ws).len() == 8 * ws.len(),
        be_words(words_bytes(ws)) == ws,
    decreases ws.len(),
{
    if ws.len() > 0 {
        let init = ws.drop_last();
        lemma_words_bytes_round_trip(init);
        let bi = words_bytes(init);
        let b = words_bytes(ws);
        lemma_be_round_trip(ws.last());
        assert forall|k: int| 0 <= k < ws.len() implies be_u64(b, 8 * k) == #[trigger] ws[k] by {
            if k < init.len() {
                assert(be_words(bi)[k] == init[k]);
                assert(be_u64(b, 8 * k) == be_u64(bi, 8 * k));
            } else {
                assert(be_u64(b, 8 * k) == be_u64(be_bytes(ws.last()), 0));
            }
        }
        assert(be_words(b) =~= ws);
    }
}

/// Appends the eight bytes of `w`, most significant first.
pub(crate) fn push_be_u64(buf: &mut Vec<u8>, w: u64)
    ensures
        final(buf)@ == old(buf)@ + be_bytes(w),
{
    buf.push((w >> 56u64) as u8);
    buf.push((w >> 48u64) as u8);
    buf.push((w >> 40u64) as u8);
    buf.push((w >> 32u64) as u8);
    buf.push((w >> 24u64) as u8);
    buf.push((w >> 16u64) as u8);
    buf.push((w >> 8u64) as u8);
    buf.push(w as u8);
    assert(buf@ =~= old(buf)@ + be_bytes(w));
}

/// Reads the big-endian word that starts at `b[at]`.
pub(crate) fn read_be_u64(b: &[u8], at: usize) -> (r: u64)
    requires
        at + 8 <= b@.len(),
    ensures
        r == be_u64(b@, at as int),
{
    ((b[at] as u64) << 56u64) | ((b[at + 1] as u64) << 48u64) | ((b[at + 2] as u64) << 40u64) | ((
    b[at + 3] as u64) << 32u64) | ((b[at + 4] as u64) << 24u64) | ((b[at + 5] as u64) << 16u64)
        | ((b[at + 6] as u64) << 8u64) | (b[at + 7] as u64)
}

/// Appends the values that the word `w` holds.
fn unpack_into(out: &mut Vec<u64>, w: u64)
    ensures
        final(out)@ == old(out)@ + unpack_word(w),
{
    let sel_w: u64 = w >> 60u64;
    assert(sel_w < 16) by (bit_vector)
        requires
            sel_w == w >> 60u64,
    ;
    let sel = sel_w as usize;
    proof {
        lemma_sel_table(sel as int);
    }
    let n = selector_count(sel);
    let ghost start = out@;
    if sel < 2 {
        let mut k: usize = 0;
        while k < n
            invariant
                sel < 2,
                sel == (w >> 60u64),
                n == sel_count(sel as int),
                k <= n,
                out@ =~= start + unpack_word(w).take(k as int),
            decreases n - k,
        {
            out.push(1);
            k += 1;
        }
    } else {
        let bits = selector_bits(sel);
        let mask: u64 = u64::MAX >> (64 - bits);
        let mut shift: u64 = 0;
        let mut k: usize = 0;
        while k < n
            invariant
                2 <= sel < 16,
                sel == (w >> 60u64),
                n == sel_count(sel as int),
                bits == sel_bits(sel as int),
                1 <= bits,
                n * bits <= 60,
                mask == low_mask(bits),
                k <= n,
                shift == k * bits,
                out@ =~= start + unpack_word(w).take(k as int),
            decreases n - k,
        {
            assert(shift <= 60 && (k + 1) * bits == k * bits + bits) by (nonlinear_arith)
                requires
                    shift == k * bits,
                    k < n,
                    n * bits <= 60,
            ;
            out.push((w >> shift) & mask);
            shift = shift + bits;
            k += 1;
        }
    }
    assert(unpack_word(w).take(n as int) =~= unpack_word(w));
}

proof fn lemma_decode_take(ws: Seq<u64>, k: int)
    requires
        0 <= k < ws.len(),
    ensures
        decode_words(ws.take(k + 1)) == decode_words(ws.take(k)) + unpack_word(ws[k]),
{
    assert(ws.take(k + 1).drop_last() =~= ws.take(k));
}

pub(crate) proof fn lemma_decode_prefix(ws: Seq<u64>, k: int)
    requires
        0 <= k <= ws.len(),
    ensures
        decode_words(ws) == decode_words(ws.take(k)) + decode_words(ws.skip(k)),
{
    lemma_decode_concat(ws.take(k), ws.skip(k));
    assert(ws.take(k) + ws.skip(k) =~= ws);
}

/// The number of words, from the `w`-th on, that a reader of `ws` takes to
/// collect `limit` values: it stops once it has them, or when the words run
/// out.
pub open spec fn words_needed(ws: Seq<u64>, limit: nat, w: nat) -> nat
    decreases ws.len() - w,
{
    if w >= ws.len() || decode_words(ws.take(w as int)).len() >= limit {
        w
    } else {
        words_needed(ws, limit, w + 1)
    }
}

/// Walks the words of `b` in order and hands back their values, stopping as
/// soon as `limit` values have been taken: the values (at most `limit`) and
/// the number of words read.
pub fn for_each(b: &[u8], limit: usize) -> (r: (Vec<u64>, usize))
    ensures
        r.1 <= be_words(b@).len(),
        r.1 == words_needed(be_words(b@), limit as nat, 0),
        ({
            let d = decode_words(be_words(b@).take(r.1 as int));
            &&& r.0@ == if d.len() > limit {
                d.take(limit as int)
            } else {
                d
            }
            &&& d.len() >= limit || r.1 == be_words(b@).len()
            &&& r.1 > 0 ==> decode_words(be_words(b@).take(r.1 - 1)).len() < limit
        }),
{
    let ghost ws = be_words(b@);
    let nwords = b.len() / 8;
    let mut out: Vec<u64> = Vec::new();
    let mut k: usize = 0;
    assert(ws.take(0) =~= Seq::<u64>::empty());
    while k < nwords && out.len() < limit
        invariant
            ws == be_words(b@),
            nwords == ws.len(),
            nwords == b@.len() / 8,
            b@.len() <= usize::MAX,
            k <= nwords,
            out@ == decode_words(ws.take(k as int)),
            k > 0 ==> decode_words(ws.take(k - 1)).len() < limit,
            words_needed(ws, limit as nat, 0) == words_needed(ws, limit as nat, k as nat),
        decreases nwords - k,
    {
        assert(8 * k + 8 <= b@.len());
        let w = read_be_u64(b, 8 * k);
        proof {
            lemma_decode_take(ws, k as int);
        }
        unpack_into(&mut out, w);
        k += 1;
    }
    if out.len() > limit {
        out.truncate(limit);
    }
    assert(words_needed(ws, limit as nat, k as nat) == k);
    (out, k)
}

/// Packs `src` greedily into words, or fails when a value is too large to
/// be packed.
pub fn encode_all(src: &[u64]) -> (r: Result<Vec<u64>, CodecError>)
    ensures
        r is Ok <==> greedy_words(src@) is Some,
        r matches Ok(ws) ==> greedy_words(src@) == Some(ws@),
        r is Err ==> r == Err::<Vec<u64>, CodecError>(CodecError::ValueOutOfBounds),
{
    let mut dst: Vec<u64> = vec![0; src.len()];
    let j = encode_all_ref(dst.as_mut_slice(), src)?;
    dst.truncate(j);
    assert(dst@ =~= greedy_words(src@).unwrap());
    Ok(dst)
}

/// Replaces the contents of `dst` with the values that the words `src` hold
/// and returns their number.
pub fn decode_all(dst: &mut Vec<u64>, src: &[u64]) -> (r: Result<usize, CodecError>)
    ensures
        final(dst)@ == decode_words(src@),
        r == Ok::<usize, CodecError>(final(dst)@.len() as usize),
{
    dst.clear();
    let mut k: usize = 0;
    assert(src@.take(0) =~= Seq::<u64>::empty());
    while k < src.len()
        invariant
            k <= src@.len(),
            dst@ == decode_words(src@.take(k as int)),
        decreases src@.len() - k,
    {
        proof {
            lemma_decode_take(src@, k as int);
        }
        unpack_into(dst, src[k]);
        k += 1;
    }
    assert(src@.take(k as int) =~= src@);
    Ok(dst.len())
}

/// The number of values that the words of `b` hold.
pub fn count_bytes(b: &[u8]) -> (r: Result<usize, CodecError>)
    requires
        b@.len() <= usize::MAX / 30,
    ensures
        r == Ok::<usize, CodecError>(decode_bytes(b@).len() as usize),
{
    let ghost ws = be_words(b@);
    let nwords = b.len() / 8;
    let mut count: usize = 0;
    let mut k: usize = 0;
    assert(ws.take(0) =~= Seq::<u64>::empty());
    while k < nwords
        invariant
            ws == be_words(b@),
            nwords == ws.len(),
            nwords == b@.len() / 8,
            nwords <= usize::MAX / 240,
            k <= nwords,
            count == decode_words(ws.take(k as int)).len(),
            count <= 240 * k,
        decreases nwords - k,
    {
        assert(8 * k + 8 <= b@.len());
        let w = read_be_u64(b, 8 * k);
        let sel_w: u64 = w >> 60u64;
        assert(sel_w < 16) by (bit_vector)
            requires
                sel_w == w >> 60u64,
        ;
        proof {
            lemma_decode_take(ws, k as int);
            lemma_sel_table(sel_w as int);
        }
        count = count + selector_count(sel_w as usize);
        k += 1;
    }
    assert(ws.take(k as int) =~= ws);
    Ok(count)
}

/// How many values of `s` lie in `lo..hi`.
pub open spec fn count_between(s: Seq<u64>, lo: u64, hi: u64) -> nat
    decreases s.len(),
{
    if s.len() == 0 {
        0
    } else {
        count_between(s.drop_last(), lo, hi) + if lo <= s.last() && s.last() < hi {
            1nat
        } else {
            0nat
        }
    }
}

/// The values that the words of `b` hold.
fn decode_bytes_all(b: &[u8]) -> (r: Vec<u64>)
    ensures
        r@ == decode_bytes(b@),
{
    let ghost ws = be_words(b@);
    let nwords = b.len() / 8;
    let mut out: Vec<u64> = Vec::new();
    let mut k: usize = 0;
    assert(ws.take(0) =~= Seq::<u64>::empty());
    while k < nwords
        invariant
            ws == be_words(b@),
            nwords == ws.len(),
            nwords == b@.len() / 8,
            b@.len() <= usize::MAX,
            k <= nwords,
            out@ == decode_words(ws.take(k as int)),
        decreases nwords - k,
    {
        assert(8 * k + 8 <= b@.len());
        let w = read_be_u64(b, 8 * k);
        proof {
            lemma_decode_take(ws, k as int);
        }
        unpack_into(&mut out, w);
        k += 1;
    }
    assert(ws.take(k as int) =~= ws);
    out
}

/// The number of values that the words of `b` hold in the range `min..max`.
pub fn count_bytes_between(b: &[u8], min: u64, max: u64) -> (r: Result<usize, CodecError>)
    ensures
        r == Ok::<usize, CodecError>(count_between(decode_bytes(b@), min, max) as usize),
{
    let vals = decode_bytes_all(b);
    let mut count: usize = 0;
    let mut k: usize = 0;
    assert(vals@.take(0) =~= Seq::<u64>::empty());
    while k < vals.len()
        invariant
            k <= vals@.len(),
            count <= k,
            count == count_between(vals@.take(k as int), min, max),
        decreases vals@.len() - k,
    {
        assert(vals@.take(k + 1).drop_last() =~= vals@.take(k as int));
        if min <= vals[k] && vals[k] < max {
            count += 1;
        }
        k += 1;
    }
    assert(vals@.take(k as int) =~= vals@);
    Ok(count)
}

/// Writes the words `ws` out big-endian, one after another.
pub(crate) fn words_to_bytes(ws: &[u64]) -> (r: Vec<u8>)
    ensures
        r@ == words_bytes(ws@),
{
    let mut out: Vec<u8> = Vec::new();
    let mut k: usize = 0;
    assert(ws@.take(0) =~= Seq::<u64>::empty());
    while k < ws.len()
        invariant
            k <= ws@.len(),
            out@ == words_bytes(ws@.take(k as int)),
        decreases ws@.len() - k,
    {
        assert(ws@.take(k + 1).drop_last() =~= ws@.take(k as int));
        push_be_u64(&mut out, ws[k]);
        k += 1;
    }
    assert(ws@.take(k as int) =~= ws@);
    out
}

/// Collects values one at a time and packs them all on request.
pub struct Encoder {
    values: Vec<u64>,
}

impl View for Encoder {
    type V = Seq<u64>;

    closed spec fn view(&self) -> Seq<u64> {
        self.values@
    }
}

impl Encoder {
    /// An encoder that holds no values yet.
    pub fn new() -> (r: Encoder)
        ensures
            r@ == Seq::<u64>::empty(),
    {
        Encoder { values: Vec::new() }
    }

    /// Adds `v` after the values written so far.
    pub fn write(&mut self, v: u64)
        ensures
            final(self)@ == old(self)@.push(v),
    {
        self.values.push(v);
    }

    /// The greedy packing of the values written so far, as big-endian bytes;
    /// fails when a value is too large to be packed.
    pub fn bytes(&self) -> (r: Result<Vec<u8>, CodecError>)
        ensures
            r is Ok <==> greedy_words(self@) is Some,
            r matches Ok(b) ==> b@ == words_bytes(greedy_words(self@).unwrap()),
            r is Err ==> r == Err::<Vec<u8>, CodecError>(CodecError::ValueOutOfBounds),
    {
        let ws = encode_all(self.values.as_slice())?;
        Ok(words_to_bytes(ws.as_slice()))
    }
}

/// Hands out the values that packed bytes hold, one at a time.
pub struct Decoder {
    bytes: Vec<u8>,
    next_word: usize,
    current: Vec<u64>,
    taken: usize,
}

impl Decoder {
    /// All the values that the decoder's bytes hold.
    pub closed spec fn values(&self) -> Seq<u64> {
        decode_bytes(self.bytes@)
    }

    /// The index of the value that `read` returns; -1 before the first
    /// call of `next`.
    pub closed spec fn position(&self) -> int {
        decode_words(be_words(self.bytes@).take(self.next_word as int)).len() - self.current@.len()
            + self.taken - 1
    }

    pub closed spec fn wf(&self) -> bool {
        let ws = be_words(self.bytes@);
        &&& self.next_word <= ws.len()
        &&& self.taken <= self.current@.len()
        &&& self.next_word == 0 ==> self.current@.len() == 0
        &&& self.next_word > 0 ==> self.current@ == unpack_word(ws[self.next_word - 1])
            && self.taken >= 1
    }

    /// A decoder over the words of `b`, placed before the first value.
    pub fn new(b: Vec<u8>) -> (r: Decoder)
        ensures
            r.wf(),
            r.values() == decode_bytes(b@),
            r.position() == -1,
    {
        let r = Decoder { bytes: b, next_word: 0, current: Vec::new(), taken: 0 };
        assert(be_words(r.bytes@).take(0) =~= Seq::<u64>::empty());
        r
    }

    /// Moves to the next value; false when there is none.
    pub fn next(&mut self) -> (r: bool)
        requires
            old(self).wf(),
        ensures
            final(self).wf(),
            final(self).values() == old(self).values(),
            r == (old(self).position() + 1 < old(self).values().len()),
            r ==> final(self).position() == old(self).position() + 1,
            !r ==> final(self).position() == old(self).position(),
    {
        let ghost ws = be_words(self.bytes@);
        proof {
            lemma_decode_prefix(ws, self.next_word as int);
        }
        if self.taken < self.current.len() {
            self.taken = self.taken + 1;
            return true;
        }
        if self.next_word >= self.bytes.len() / 8 {
            assert(ws.take(self.next_word as int) =~= ws);
            return false;
        }
        let w = read_be_u64(self.bytes.as_slice(), 8 * self.next_word);
        proof {
            lemma_decode_take(ws, self.next_word as int);
            lemma_decode_prefix(ws, self.next_word + 1);
            assert((w >> 60u64) < 16) by (bit_vector);
            lemma_sel_table((w >> 60u64) as int);
        }
        let mut current: Vec<u64> = Vec::new();
        unpack_into(&mut current, w);
        self.current = current;
        self.next_word = self.next_word + 1;
        self.taken = 1;
        true
    }

    /// The current value.
    pub fn read(&self) -> (r: u64)
        requires
            self.wf(),
            0 <= self.position() < self.values().len(),
        ensures
            r == self.values()[self.position()],
    {
        let ghost ws = be_words(self.bytes@);
        proof {
            lemma_decode_prefix(ws, self.next_word as int);
            lemma_decode_take(ws, self.next_word - 1);
        }
        self.current[self.taken - 1]
    }
}

/// Values below 2^60 always pack, and reading back the bytes of their
/// packing gives the values.
pub proof fn lemma_packed_bytes_round_trip(s: Seq<u64>)
    requires
        forall|k: int| 0 <= k < s.len() ==> #[trigger] s[k] <= MAX_VALUE,
    ensures
        greedy_words(s) is Some,
        decode_bytes(words_bytes(greedy_words(s).unwrap())) == s,
{
    lemma_greedy_succeeds(s);
    lemma_simple8b_round_trip(s);
    lemma_words_bytes_round_trip(greedy_words(s).unwrap());
}

} // verus!
