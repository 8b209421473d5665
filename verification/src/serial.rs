//! Compact byte framing for LZW token streams.
//!
//! A frame holds the token count in eight little-endian bytes, one byte
//! naming the width every token is stored in (the smallest of 1, 2, 4 or 8
//! bytes that fits the largest token), and then each token in that width.

use vstd::prelude::*;

use crate::errors::CodecError;

verus! {

/// `256 ^ n`, the number of values that fit in `n` bytes.
pub open spec fn pow256(n: nat) -> int
    decreases n,
{
    if n == 0 {
        1
    } else {
        256 * pow256((n - 1) as nat)
    }
}

/// The `n` little-endian bytes of `v` (truncating above `pow256(n)`).
pub open spec fn le_bytes(v: int, n: nat) -> Seq<u8>
    decreases n,
{
    if n == 0 {
        Seq::empty()
    } else {
        seq![(v % 256) as u8] + le_bytes(v / 256, (n - 1) as nat)
    }
}

/// The value read back from little-endian bytes.
pub open spec fn le_value(s: Seq<u8>) -> int
    decreases s.len(),
{
    if s.len() == 0 {
        0
    } else {
        s[0] + 256 * le_value(s.skip(1))
    }
}

/// Whether `w` is a field width the framing understands.
pub open spec fn valid_width(w: u8) -> bool {
    w == 1 || w == 2 || w == 4 || w == 8
}

/// The smallest understood width that fits `val`.
pub open spec fn min_width(val: usize) -> u8 {
    if val <= u8::MAX as usize {
        1
    } else if val <= u16::MAX as usize {
        2
    } else if val <= u32::MAX as usize {
        4
    } else {
        8
    }
}

/// The largest token of `s`, or 0 when `s` is empty.
pub open spec fn max_token(s: Seq<usize>) -> usize
    decreases s.len(),
{
    if s.len() == 0 {
        0
    } else {
        let m = max_token(s.skip(1));
        if s[0] >= m {
            s[0]
        } else {
            m
        }
    }
}

/// The body of a frame: each token in `w` little-endian bytes.
pub open spec fn le_tokens(s: Seq<usize>, w: nat) -> Seq<u8>
    decreases s.len(),
{
    if s.len() == 0 {
        Seq::empty()
    } else {
        le_bytes(s[0] as int, w) + le_tokens(s.skip(1), w)
    }
}

/// A whole frame for the token sequence `s`.
pub open spec fn lzw_frame(s: Seq<usize>) -> Seq<u8> {
    le_bytes(s.len() as int, 8) + seq![min_width(max_token(s))] + le_tokens(
        s,
        min_width(max_token(s)) as nat,
    )
}

/// `n` tokens of width `w` parsed from `s` starting at `pos`, or `None` when
/// the bytes run out or the width is not understood.
pub open spec fn parse_tokens(s: Seq<u8>, pos: int, n: nat, w: u8) -> Option<Seq<usize>>
    decreases n,
{
    if n == 0 {
        Some(Seq::empty())
    } else if pos + w > s.len() {
        None
    } else if !valid_width(w) {
        None
    } else if le_value(s.subrange(pos, pos + w)) > usize::MAX {
        None
    } else {
        let v = le_value(s.subrange(pos, pos + w)) as usize;
        match parse_tokens(s, pos + w, (n - 1) as nat, w) {
            Some(rest) => Some(seq![v] + rest),
            None => None,
        }
    }
}

/// The token sequence encoded by the frame `s`, or `None` when `s` is not a
/// complete frame.
pub open spec fn parse_lzw_frame(s: Seq<u8>) -> Option<Seq<usize>> {
    if s.len() < 9 {
        None
    } else if le_value(s.take(8)) > usize::MAX {
        None
    } else {
        let n = le_value(s.take(8));
        parse_tokens(s, 9, n as nat, s[8])
    }
}

/// The minimum number of bytes needed to store `val`.
pub fn min_size(val: usize) -> (r: u8)
    ensures
        r == min_width(val),
        valid_width(r),
{
    if val <= u8::MAX as usize {
        1
    } else if val <= u16::MAX as usize {
        2
    } else if val <= u32::MAX as usize {
        4
    } else {
        8
    }
}

/// Appends `value` to `out` as `num_bytes` little-endian bytes, truncating
/// if the value does not fit.
pub fn serialize_usize(value: usize, out: &mut Vec<u8>, num_bytes: u8)
    requires
        valid_width(num_bytes),
    ensures
        final(out)@ == old(out)@ + le_bytes(value as int, num_bytes as nat),
{
    let ghost out0 = out@;
    let mut v: usize = value;
    let mut k: u8 = 0;
    while k < num_bytes
        invariant
            k <= num_bytes,
            out0 + le_bytes(value as int, num_bytes as nat) =~= out@ + le_bytes(
                v as int,
                (num_bytes - k) as nat,
            ),
        decreases num_bytes - k,
    {
        let b: u8 = (v % 256) as u8;
        let ghost v_pre = v as int;
        let ghost rem = (num_bytes - k) as nat;
        out.push(b);
        v = v / 256;
        k = k + 1;
        proof {
            assert(le_bytes(v_pre, rem) == seq![(v_pre % 256) as u8] + le_bytes(
                v_pre / 256,
                (rem - 1) as nat,
            ));
            assert(out0 + le_bytes(value as int, num_bytes as nat) =~= out@ + le_bytes(
                v as int,
                (num_bytes - k) as nat,
            ));
        }
    }
    proof {
        assert(le_bytes(v as int, 0) =~= Seq::<u8>::empty());
        assert(out@ + Seq::<u8>::empty() =~= out@);
    }
}

/// Reads `num_bytes` little-endian bytes from `state` at `pos`, returning the
/// value (reduced into `usize` range) and the position after it.
pub fn deserialize_usize(state: &[u8], pos: usize, num_bytes: u8) -> (r: Result<
    (usize, usize),
    CodecError,
>)
    ensures
        match r {
            Ok((v, p2)) => {
                &&& pos + num_bytes <= state@.len()
                &&& valid_width(num_bytes)
                &&& p2 == pos + num_bytes
                &&& v == le_value(state@.subrange(pos as int, pos + num_bytes))
            },
            Err(e) => {
                &&& (pos + num_bytes > state@.len() || !valid_width(num_bytes) || le_value(
                    state@.subrange(pos as int, pos + num_bytes),
                ) > usize::MAX)
                &&& (e == CodecError::UnexpectedEnd <==> pos + num_bytes > state@.len())
                &&& (e == CodecError::InvalidWidth <==> (pos + num_bytes <= state@.len()
                    && !valid_width(num_bytes)))
                &&& (e == CodecError::ValueOverflow <==> (pos + num_bytes <= state@.len()
                    && valid_width(num_bytes) && le_value(
                    state@.subrange(pos as int, pos + num_bytes),
                ) > usize::MAX))
            },
        },
{
    if num_bytes as usize > state.len() || pos > state.len() - num_bytes as usize {
        return Err(CodecError::UnexpectedEnd);
    }
    if !(num_bytes == 1 || num_bytes == 2 || num_bytes == 4 || num_bytes == 8) {
        return Err(CodecError::InvalidWidth);
    }
    let ghost window = state@.subrange(pos as int, pos + num_bytes);
    let mut acc: u64 = 0;
    let mut k: u8 = num_bytes;
    // Accumulate from the most significant byte down so each step is a
    // multiply-by-256 and add.
    while k > 0
        invariant
            k <= num_bytes,
            num_bytes <= 8,
            pos + num_bytes <= state@.len(),
            state@.len() <= usize::MAX,
            window == state@.subrange(pos as int, pos + num_bytes),
            acc < pow256((num_bytes - k) as nat),
            acc == le_value(window.skip(k as int)),
        decreases k,
    {
        proof {
            lemma_pow256_bounds(8);
            lemma_pow256_le((num_bytes - k) as nat, 7);
            reveal_with_fuel(pow256, 9);
            assert(acc * 256 + 255 < 0x1_0000_0000_0000_0000) by (nonlinear_arith)
                requires acc < 0x100_0000_0000_0000;
            assert(window.skip(k - 1)[0] == state@[pos + k - 1]);
            assert(window.skip(k - 1).skip(1) =~= window.skip(k as int));
        }
        k = k - 1;
        acc = acc * 256 + state[pos + k as usize] as u64;
        proof {
            assert(acc < pow256((num_bytes - k) as nat)) by (nonlinear_arith)
                requires
                    acc <= (pow256((num_bytes - k - 1) as nat) - 1) * 256 + 255,
                    pow256((num_bytes - k) as nat) == 256 * pow256((num_bytes - k - 1) as nat);
        }
    }
    proof {
        assert(window.skip(0) =~= window);
        lemma_le_value_nonneg(window);
    }
    if acc > usize::MAX as u64 {
        return Err(CodecError::ValueOverflow);
    }
    let v: usize = acc as usize;
    Ok((v, pos + num_bytes as usize))
}

/// `le_value` is never negative.
proof fn lemma_le_value_nonneg(s: Seq<u8>)
    ensures
        0 <= le_value(s),
    decreases s.len(),
{
    if s.len() > 0 {
        lemma_le_value_nonneg(s.skip(1));
    }
}

/// `pow256` is monotone in its exponent.
proof fn lemma_pow256_le(a: nat, b: nat)
    requires
        a <= b,
    ensures
        pow256(a) <= pow256(b),
    decreases b,
{
    if a < b {
        lemma_pow256_le(a, (b - 1) as nat);
        lemma_pow256_bounds(b);
        assert(pow256(b) == 256 * pow256((b - 1) as nat));
    }
}

/// `pow256` grows monotonically and stays positive up to `n`.
proof fn lemma_pow256_bounds(n: nat)
    ensures
        forall|m: nat| m <= n ==> #[trigger] pow256(m) >= 1,
        forall|m: nat| 0 < m <= n ==> #[trigger] pow256(m) >= 256 * pow256((m - 1) as nat),
    decreases n,
{
    if n == 0 {
        assert(pow256(0) == 1);
    } else {
        lemma_pow256_bounds((n - 1) as nat);
        assert(pow256(n) == 256 * pow256((n - 1) as nat));
        assert forall|m: nat| m <= n implies #[trigger] pow256(m) >= 1 by {
            if m == n {
                assert(pow256((n - 1) as nat) >= 1);
            }
        }
    }
}

/// Reads one byte from `state` at `pos`.
pub fn deserialize_byte(state: &[u8], pos: usize) -> (r: Result<(u8, usize), CodecError>)
    ensures
        match r {
            Ok((b, p2)) => pos < state@.len() && b == state@[pos as int] && p2 == pos + 1,
            Err(e) => pos >= state@.len() && e == CodecError::UnexpectedEnd,
        },
{
    if pos < state.len() {
        Ok((state[pos], pos + 1))
    } else {
        Err(CodecError::UnexpectedEnd)
    }
}

/// Serializes a token stream into a frame of bytes.
pub fn serialize_lzw(value: &[usize]) -> (out: Vec<u8>)
    ensures
        out@ == lzw_frame(value@),
{
    let mut max: usize = 0;
    let mut t: usize = 0;
    while t < value.len()
        invariant
            t <= value@.len(),
            max == max_token(value@.take(t as int)),
        decreases value@.len() - t,
    {
        let ghost pre = value@.take(t as int);
        if value[t] > max {
            max = value[t];
        }
        t = t + 1;
        proof {
            lemma_max_token_push(pre, value@[t - 1]);
            assert(value@.take(t as int) =~= pre.push(value@[t - 1]));
        }
    }
    proof {
        assert(value@.take(value@.len() as int) =~= value@);
    }
    let width = min_size(max);

    let mut out: Vec<u8> = Vec::new();
    serialize_usize(value.len(), &mut out, 8);
    out.push(width);
    proof {
        assert(Seq::<u8>::empty() + le_bytes(value@.len() as int, 8) =~= le_bytes(
            value@.len() as int,
            8,
        ));
    }
    let ghost header = out@;
    let mut t: usize = 0;
    while t < value.len()
        invariant
            t <= value@.len(),
            valid_width(width),
            out@ =~= header + le_tokens(value@.take(t as int), width as nat),
        decreases value@.len() - t,
    {
        let ghost pre = value@.take(t as int);
        serialize_usize(value[t], &mut out, width);
        t = t + 1;
        proof {
            assert(value@.take(t as int) =~= pre.push(value@[t - 1]));
            lemma_le_tokens_push(pre, value@[t - 1], width as nat);
        }
    }
    proof {
        assert(value@.take(value@.len() as int) =~= value@);
        assert(out@ =~= lzw_frame(value@));
    }
    out
}

/// Appending a token extends `max_token` by a running maximum.
proof fn lemma_max_token_push(s: Seq<usize>, v: usize)
    ensures
        max_token(s.push(v)) == if v >= max_token(s) {
            v
        } else {
            max_token(s)
        },
    decreases s.len(),
{
    if s.len() == 0 {
        assert(s.push(v)[0] == v);
        assert(s.push(v).skip(1) =~= Seq::<usize>::empty());
        assert(max_token(Seq::<usize>::empty()) == 0);
    } else {
        assert(s.push(v)[0] == s[0]);
        assert(s.push(v).skip(1) =~= s.skip(1).push(v));
        lemma_max_token_push(s.skip(1), v);
        assert(max_token(s) == if s[0] >= max_token(s.skip(1)) { s[0] } else { max_token(s.skip(1)) });
    }
    assert(s.push(v).len() == s.len() + 1);
    assert(max_token(s.push(v)) == if s.push(v)[0] >= max_token(s.push(v).skip(1)) {
        s.push(v)[0]
    } else {
        max_token(s.push(v).skip(1))
    });
}

/// Appending a token extends `le_tokens` by that token's bytes.
proof fn lemma_le_tokens_push(s: Seq<usize>, v: usize, w: nat)
    ensures
        le_tokens(s.push(v), w) =~= le_tokens(s, w) + le_bytes(v as int, w),
    decreases s.len(),
{
    assert(s.push(v).len() == s.len() + 1);
    assert(le_tokens(s.push(v), w) == le_bytes(s.push(v)[0] as int, w) + le_tokens(
        s.push(v).skip(1),
        w,
    ));
    if s.len() == 0 {
        assert(s.push(v).skip(1) =~= Seq::<usize>::empty());
        assert(s.push(v)[0] == v);
        assert(le_tokens(Seq::<usize>::empty(), w) == Seq::<u8>::empty());
    } else {
        assert(s.push(v)[0] == s[0]);
        assert(s.push(v).skip(1) =~= s.skip(1).push(v));
        lemma_le_tokens_push(s.skip(1), v, w);
        assert(le_tokens(s, w) == le_bytes(s[0] as int, w) + le_tokens(s.skip(1), w));
    }
}

/// Deserializes a frame of bytes back into a token stream.
pub fn deserialize_lzw(state: &[u8]) -> (r: Result<Vec<usize>, CodecError>)
    ensures
        match r {
            Ok(out) => parse_lzw_frame(state@) == Some(out@),
            Err(e) => {
                &&& parse_lzw_frame(state@) is None
                &&& (e == CodecError::UnexpectedEnd || e == CodecError::InvalidWidth || e
                    == CodecError::ValueOverflow)
            },
        },
{
    let (n, pos) = match deserialize_usize(state, 0, 8) {
        Ok(p) => p,
        Err(e) => {
            proof {
                assert(state@.subrange(0, 8) =~= state@.take(8));
            }
            return Err(e);
        },
    };
    proof {
        assert(state@.subrange(0, 8) =~= state@.take(8));
    }
    let (width, mut pos) = match deserialize_byte(state, pos) {
        Ok(p) => p,
        Err(e) => {
            return Err(e);
        },
    };

    let total: usize = state.len();
    proof {
        assert(state@.len() == total as int);
    }
    let mut out: Vec<usize> = Vec::new();
    proof {
        match parse_tokens(state@, 9, n as nat, width) {
            Some(rest) => {
                assert(out@ + rest =~= rest);
            },
            None => {},
        }
    }
    let mut t: usize = 0;
    while t < n
        invariant
            t <= n,
            pos == 9 + t * width,
            pos <= state@.len(),
            9 <= state@.len(),
            state@.len() <= usize::MAX,
            width == state@[8],
            n == le_value(state@.take(8)),
            out@.len() == t,
            parse_tokens(state@, 9, n as nat, width) == match parse_tokens(
                state@,
                pos as int,
                (n - t) as nat,
                width,
            ) {
                Some(rest) => Some(out@ + rest),
                None => None::<Seq<usize>>,
            },
        decreases n - t,
    {
        let (v, pos2) = match deserialize_usize(state, pos, width) {
            Ok(p) => p,
            Err(e) => {
                proof {
                    assert(parse_tokens(state@, pos as int, (n - t) as nat, width) is None);
                }
                return Err(e);
            },
        };
        let ghost out_pre = out@;
        out.push(v);
        pos = pos2;
        t = t + 1;
        proof {
            assert(pos == 9 + (t - 1) * width + width);
            assert((t - 1) * width + width == t * width) by (nonlinear_arith);
            match parse_tokens(state@, pos as int, (n - t) as nat, width) {
                Some(rest) => {
                    assert(out@ + rest =~= out_pre + (seq![v] + rest));
                },
                None => {},
            }
        }
    }
    proof {
        match parse_tokens(state@, pos as int, 0, width) {
            Some(rest) => {
                assert(rest =~= Seq::<usize>::empty());
                assert(out@ + rest =~= out@);
            },
            None => {},
        }
    }
    Ok(out)
}

/// `le_value` inverts `le_bytes` below `pow256(n)`.
proof fn lemma_le_round_trip(v: int, n: nat)
    requires
        0 <= v < pow256(n),
    ensures
        le_value(le_bytes(v, n)) == v,
    decreases n,
{
    if n == 0 {
    } else {
        let s = le_bytes(v, n);
        assert(s.skip(1) =~= le_bytes(v / 256, (n - 1) as nat));
        lemma_pow256_bounds(n);
        assert(v / 256 < pow256((n - 1) as nat)) by {
            if v / 256 >= pow256((n - 1) as nat) {
                assert(v >= 256 * pow256((n - 1) as nat));
            }
        }
        lemma_le_round_trip(v / 256, (n - 1) as nat);
        assert(s[0] == (v % 256) as u8);
        assert(le_value(s) == v % 256 + 256 * (v / 256));
    }
}

/// Law: parsing a serialized frame returns exactly the original tokens.
pub proof fn lemma_lzw_frame_round_trip(tokens: Seq<usize>)
    requires
        tokens.len() <= usize::MAX,
    ensures
        parse_lzw_frame(lzw_frame(tokens)) == Some(tokens),
{
    let w = min_width(max_token(tokens));
    let frame = lzw_frame(tokens);
    let header = le_bytes(tokens.len() as int, 8) + seq![w];
    lemma_le_bytes_len(tokens.len() as int, 8);
    assert(frame =~= header + le_tokens(tokens, w as nat));
    lemma_le_tokens_len(tokens, w as nat);
    assert(frame.take(8) =~= le_bytes(tokens.len() as int, 8));
    lemma_pow256_usize();
    lemma_pow256_bounds(8);
    lemma_le_round_trip(tokens.len() as int, 8);
    assert(frame[8] == w);
    lemma_max_token_bound(tokens);
    assert forall|t: int| 0 <= t < tokens.len() implies (tokens[t] as int) < pow256(w as nat) by {
        lemma_pow256_min_width_monotone(tokens[t], max_token(tokens));
    }
    lemma_parse_le_tokens(tokens, frame, 9, w);
}

/// Every token is bounded by the sequence's largest token.
proof fn lemma_max_token_bound(s: Seq<usize>)
    ensures
        forall|t: int| 0 <= t < s.len() ==> s[t] <= max_token(s),
    decreases s.len(),
{
    if s.len() > 0 {
        lemma_max_token_bound(s.skip(1));
        assert forall|t: int| 0 <= t < s.len() implies s[t] <= max_token(s) by {
            if t >= 1 {
                assert(s[t] == s.skip(1)[t - 1]);
            }
        }
    }
}

/// A value below another stays below the other's chosen width bound.
proof fn lemma_pow256_min_width_monotone(v: usize, m: usize)
    requires
        v <= m,
    ensures
        (v as int) < pow256(min_width(m) as nat),
{
    lemma_pow256_usize();
    if min_width(v) == min_width(m) {
    } else {
        reveal_with_fuel(pow256, 9);
    }
}

/// `le_tokens` produces `w` bytes per token.
proof fn lemma_le_tokens_len(s: Seq<usize>, w: nat)
    ensures
        le_tokens(s, w).len() == s.len() * w,
    decreases s.len(),
{
    if s.len() == 0 {
    } else {
        lemma_le_tokens_len(s.skip(1), w);
        lemma_le_bytes_len(s[0] as int, w);
        assert(s.len() * w == (s.len() - 1) * w + w) by (nonlinear_arith);
    }
}

/// `le_bytes` produces exactly `n` bytes.
proof fn lemma_le_bytes_len(v: int, n: nat)
    ensures
        le_bytes(v, n).len() == n,
    decreases n,
{
    if n > 0 {
        lemma_le_bytes_len(v / 256, (n - 1) as nat);
    }
}

/// Tokens framed at positions `pos..` of `s` parse back to themselves when
/// each token fits the chosen width.
proof fn lemma_parse_le_tokens(tokens: Seq<usize>, s: Seq<u8>, pos: int, w: u8)
    requires
        valid_width(w),
        0 <= pos,
        pos + tokens.len() * w <= s.len(),
        forall|t: int| 0 <= t < tokens.len() ==> (tokens[t] as int) < pow256(w as nat),
        s.subrange(pos, pos + tokens.len() * (w as int)) =~= le_tokens(tokens, w as nat),
    ensures
        parse_tokens(s, pos, tokens.len(), w) == Some(tokens),
    decreases tokens.len(),
{
    if tokens.len() == 0 {
        assert(parse_tokens(s, pos, 0, w) == Some(Seq::<usize>::empty()));
        assert(tokens =~= Seq::<usize>::empty());
    } else {
        let n = tokens.len();
        lemma_le_tokens_len(tokens, w as nat);
        lemma_le_tokens_len(tokens.skip(1), w as nat);
        lemma_le_bytes_len(tokens[0] as int, w as nat);
        assert(n * (w as int) == (n - 1) * (w as int) + w) by (nonlinear_arith);
        assert((n - 1) * (w as int) >= 0) by (nonlinear_arith)
            requires
                n >= 1,
                w >= 1,
        ;
        let whole = s.subrange(pos, pos + n * (w as int));
        assert(le_tokens(tokens, w as nat) == le_bytes(tokens[0] as int, w as nat) + le_tokens(
            tokens.skip(1),
            w as nat,
        ));
        assert(s.subrange(pos, pos + w) =~= whole.take(w as int));
        assert(whole.take(w as int) =~= le_bytes(tokens[0] as int, w as nat));
        lemma_le_round_trip(tokens[0] as int, w as nat);
        lemma_pow256_usize();
        assert(s.subrange(pos + w, pos + n * (w as int)) =~= whole.skip(w as int));
        assert(whole.skip(w as int) =~= le_tokens(tokens.skip(1), w as nat));
        lemma_parse_le_tokens(tokens.skip(1), s, pos + w, w);
        assert(parse_tokens(s, pos, n, w) == Some(seq![tokens[0]] + tokens.skip(1)));
        assert(seq![tokens[0]] + tokens.skip(1) =~= tokens);
    }
}

/// Every `usize` is below `pow256(8)`, and below `pow256(min_width)` of any
/// value at least as large.
proof fn lemma_pow256_usize()
    ensures
        usize::MAX < pow256(8),
        forall|m: usize| (m as int) < pow256(#[trigger] min_width(m) as nat),
{
    reveal_with_fuel(pow256, 9);
    assert(pow256(8) == 0x1_0000_0000_0000_0000);
    assert(pow256(4) == 0x1_0000_0000);
    assert(pow256(2) == 0x1_0000);
    assert(pow256(1) == 0x100);
    assert(usize::MAX as int + 1 <= 0x1_0000_0000_0000_0000);
    assert forall|m: usize| (m as int) < pow256(#[trigger] min_width(m) as nat) by {
        if m <= u8::MAX as usize {
        } else if m <= u16::MAX as usize {
        } else if m <= u32::MAX as usize {
        }
    }
}

} // verus!
