//! LZ77: a sliding-window substitution codec.
//!
//! The encoder walks the input keeping a cursor `i`; at each step it searches
//! the window of up to `max_offset` already-consumed symbols for the longest
//! run (capped at `max_length`) matching the text at `i`, preferring the
//! nearest candidate on ties, and emits a `(offset, length, next symbol)`
//! entry. The decoder replays each entry against the output it has already
//! produced, so copies may overlap their own destination.

use vstd::prelude::*;

use crate::errors::CodecError;

verus! {

/// One LZ77 entry: copy `length` symbols from `offset` positions back in the
/// decoded output, then append `next_char` if present. `next_char` is absent
/// only when a match runs exactly to the end of the input; a literal is
/// `(0, 0, Some(symbol))`.
#[derive(Clone, Copy, Debug)]
pub struct LZ77entry {
    pub offset: usize,
    pub length: usize,
    pub next_char: Option<u8>,
}

/// Whether an entry can be replayed against `out_len` already-decoded
/// symbols: a copy must start inside the existing output.
pub open spec fn lz77_entry_valid(out_len: nat, e: LZ77entry) -> bool {
    e.length == 0 || (1 <= e.offset && e.offset <= out_len)
}

/// `out` extended by `len` symbols copied one at a time from position
/// `start`; the source may overlap the copied extension.
pub open spec fn lz77_copy(out: Seq<u8>, start: int, len: nat) -> Seq<u8>
    decreases len,
{
    if len == 0 {
        out
    } else {
        lz77_copy(out.push(out[start]), start + 1, (len - 1) as nat)
    }
}

/// `out` extended by replaying one entry.
pub open spec fn lz77_decode_entry(out: Seq<u8>, e: LZ77entry) -> Seq<u8> {
    let copied = lz77_copy(out, out.len() - e.offset, e.length as nat);
    match e.next_char {
        Some(c) => copied.push(c),
        None => copied,
    }
}

/// The output after replaying every entry on top of `out`, or `None` when
/// some entry reaches outside the output decoded before it.
pub open spec fn lz77_decode_from(entries: Seq<LZ77entry>, out: Seq<u8>) -> Option<Seq<u8>>
    decreases entries.len(),
{
    if entries.len() == 0 {
        Some(out)
    } else if !lz77_entry_valid(out.len(), entries[0]) {
        None
    } else {
        lz77_decode_from(entries.skip(1), lz77_decode_entry(out, entries[0]))
    }
}

/// The symbol sequence a stream of entries decodes to, if it is valid.
pub open spec fn lz77_decode_spec(entries: Seq<LZ77entry>) -> Option<Seq<u8>> {
    lz77_decode_from(entries, Seq::empty())
}

/// Length of the common run of `input` read from `j` and from `i`, capped at
/// `cap` and never reading past the end.
pub open spec fn match_len_at(input: Seq<u8>, j: int, i: int, cap: nat) -> int
    decreases cap,
{
    if cap == 0 || i >= input.len() || input[j] != input[i] {
        0
    } else {
        1 + match_len_at(input, j + 1, i + 1, (cap - 1) as nat)
    }
}

/// The `(offset, length)` of the best match for position `i`, scanning
/// candidate starts `j` downward to `lo` and keeping the accumulated best
/// `(best_off, best_len)` unless a strictly longer match appears; the scan
/// starts at the nearest candidate, so ties favor the smallest offset.
pub open spec fn best_match_scan(
    input: Seq<u8>,
    i: int,
    lo: int,
    j: int,
    cap: nat,
    best_off: int,
    best_len: int,
) -> (int, int)
    decreases j - lo + 1,
{
    if j < lo {
        (best_off, best_len)
    } else {
        let k = match_len_at(input, j, i, cap);
        if k > best_len {
            best_match_scan(input, i, lo, j - 1, cap, i - j, k)
        } else {
            best_match_scan(input, i, lo, j - 1, cap, best_off, best_len)
        }
    }
}

/// The match search window's lower bound for position `i`.
pub open spec fn window_lo(i: int, max_offset: nat) -> int {
    if i >= max_offset {
        i - max_offset
    } else {
        0
    }
}

/// The `(offset, length)` the encoder picks at position `i`.
pub open spec fn lz77_best(input: Seq<u8>, i: int, max_offset: nat, max_length: nat) -> (
    int,
    int,
) {
    best_match_scan(input, i, window_lo(i, max_offset), i - 1, max_length, 0, 0)
}

/// The entry the encoder emits at position `i`.
pub open spec fn lz77_step(input: Seq<u8>, i: int, max_offset: nat, max_length: nat) -> LZ77entry {
    let b = lz77_best(input, i, max_offset, max_length);
    if b.1 > 0 {
        LZ77entry {
            offset: b.0 as usize,
            length: b.1 as usize,
            next_char: if i + b.1 < input.len() {
                Some(input[i + b.1])
            } else {
                None
            },
        }
    } else {
        LZ77entry { offset: 0, length: 0, next_char: Some(input[i]) }
    }
}

/// How far the cursor advances after emitting `e`.
pub open spec fn lz77_advance(e: LZ77entry) -> int {
    e.length + (if e.next_char is Some {
        1int
    } else {
        0int
    })
}

/// The entries emitted from cursor position `i` to the end of the input.
pub open spec fn lz77_encode_from(input: Seq<u8>, i: int, max_offset: nat, max_length: nat) -> Seq<
    LZ77entry,
>
    decreases input.len() - i,
{
    if i < 0 || i >= input.len() {
        Seq::empty()
    } else {
        let b = lz77_best(input, i, max_offset, max_length);
        let adv: int = if b.1 > 0 {
            if i + b.1 < input.len() {
                b.1 + 1
            } else {
                b.1
            }
        } else {
            1
        };
        let i2 = if i + adv <= input.len() {
            i + adv
        } else {
            input.len() as int
        };
        seq![lz77_step(input, i, max_offset, max_length)] + lz77_encode_from(
            input,
            i2,
            max_offset,
            max_length,
        )
    }
}

/// The entry stream the encoder produces for `input`.
pub open spec fn lz77_encode_spec(input: Seq<u8>, max_offset: nat, max_length: nat) -> Seq<
    LZ77entry,
> {
    lz77_encode_from(input, 0, max_offset, max_length)
}

/// A positive match length reported by `match_len_at` means the two runs
/// agree symbol for symbol and stay inside the input.
proof fn lemma_match_len_at_props(input: Seq<u8>, j: int, i: int, cap: nat)
    requires
        0 <= j <= i <= input.len(),
    ensures
        0 <= match_len_at(input, j, i, cap) <= cap,
        i + match_len_at(input, j, i, cap) <= input.len(),
        forall|t: int|
            0 <= t < match_len_at(input, j, i, cap) ==> #[trigger] input[j + t] == input[i + t],
    decreases cap,
{
    if cap == 0 || i >= input.len() || input[j] != input[i] {
    } else {
        lemma_match_len_at_props(input, j + 1, i + 1, (cap - 1) as nat);
        let k = match_len_at(input, j, i, cap);
        assert forall|t: int| 0 <= t < k implies #[trigger] input[j + t] == input[i + t] by {
            if t > 0 {
                assert(input[(j + 1) + (t - 1)] == input[(i + 1) + (t - 1)]);
            }
        }
    }
}

/// What the scan's result means: a zero-length result is the zero pair, and a
/// positive one names a candidate inside the window whose match length it is.
proof fn lemma_best_match_scan_props(
    input: Seq<u8>,
    i: int,
    lo: int,
    j: int,
    cap: nat,
    best_off: int,
    best_len: int,
)
    requires
        0 <= lo,
        j < i <= input.len(),
        0 <= best_len,
        best_len == 0 ==> best_off == 0,
        best_len > 0 ==> lo <= i - best_off < i && best_len == match_len_at(
            input,
            i - best_off,
            i,
            cap,
        ),
    ensures
        ({
            let b = best_match_scan(input, i, lo, j, cap, best_off, best_len);
            &&& (b.1 == 0 ==> b == (0int, 0int))
            &&& (b.1 > 0 ==> lo <= i - b.0 < i && b.1 == match_len_at(input, i - b.0, i, cap))
            &&& b.1 >= best_len
        }),
    decreases j - lo + 1,
{
    if j < lo {
    } else {
        lemma_match_len_at_props(input, j, i, cap);
        let k = match_len_at(input, j, i, cap);
        if k > best_len {
            lemma_best_match_scan_props(input, i, lo, j - 1, cap, i - j, k);
        } else {
            lemma_best_match_scan_props(input, i, lo, j - 1, cap, best_off, best_len);
        }
    }
}

/// Copying a run that matches the text at the output's end reproduces the
/// next `len` input symbols.
proof fn lemma_lz77_copy_matches(input: Seq<u8>, s: int, m: int, len: nat)
    requires
        0 <= s < m <= input.len(),
        m + len <= input.len(),
        forall|t: int| 0 <= t < len ==> #[trigger] input[s + t] == input[m + t],
    ensures
        lz77_copy(input.take(m), s, len) == input.take(m + len),
    decreases len,
{
    if len == 0 {
        assert(input.take(m) =~= input.take(m + 0));
    } else {
        assert(input.take(m)[s] == input[s]);
        assert(input[s] == input[m]);
        assert(input.take(m).push(input[s]) =~= input.take(m + 1));
        assert forall|t: int| 0 <= t < len - 1 implies #[trigger] input[(s + 1) + t] == input[(m + 1)
            + t] by {
            assert(input[s + (t + 1)] == input[m + (t + 1)]);
        }
        lemma_lz77_copy_matches(input, s + 1, m + 1, (len - 1) as nat);
    }
}

/// Law: replaying the encoder's entries from any cursor position on top of
/// the already-encoded prefix reproduces the whole input.
proof fn lemma_lz77_round_trip_from(input: Seq<u8>, i: int, max_offset: nat, max_length: nat)
    requires
        0 <= i <= input.len(),
        input.len() <= usize::MAX,
    ensures
        lz77_decode_from(lz77_encode_from(input, i, max_offset, max_length), input.take(i))
            == Some(input),
    decreases input.len() - i,
{
    if i >= input.len() {
        assert(input.take(i) =~= input);
    } else {
        let lo = window_lo(i, max_offset);
        let b = lz77_best(input, i, max_offset, max_length);
        lemma_best_match_scan_props(input, i, lo, i - 1, max_length, 0, 0);
        let e = lz77_step(input, i, max_offset, max_length);
        let out = input.take(i);
        assert(out.len() == i);
        let adv: int = if b.1 > 0 {
            if i + b.1 < input.len() {
                b.1 + 1
            } else {
                b.1
            }
        } else {
            1
        };
        if b.1 > 0 {
            let j = i - b.0;
            lemma_match_len_at_props(input, j, i, max_length);
            assert(i + b.1 <= input.len());
        }
        assert(i + adv <= input.len());
        let i2 = i + adv;
        let entries = lz77_encode_from(input, i, max_offset, max_length);
        let rest = lz77_encode_from(input, i2, max_offset, max_length);
        assert(entries == seq![e] + rest);
        assert(entries[0] == e);
        assert(entries.skip(1) =~= rest);
        if b.1 > 0 {
            let j = i - b.0;
            assert(e.offset == b.0 && e.length == b.1);
            assert(lz77_entry_valid(out.len() as nat, e));
            lemma_lz77_copy_matches(input, j, i, b.1 as nat);
            assert(lz77_copy(out, out.len() - e.offset, e.length as nat) == input.take(i + b.1));
            if i + b.1 < input.len() {
                assert(input.take(i + b.1).push(input[i + b.1]) =~= input.take(i2));
                assert(lz77_decode_entry(out, e) == input.take(i2));
            } else {
                assert(lz77_decode_entry(out, e) == input.take(i2));
            }
        } else {
            assert(e.offset == 0 && e.length == 0);
            assert(lz77_entry_valid(out.len() as nat, e));
            assert(lz77_copy(out, out.len() - 0, 0) == out);
            assert(out.push(input[i]) =~= input.take(i + 1));
            assert(lz77_decode_entry(out, e) == input.take(i2));
        }
        lemma_lz77_round_trip_from(input, i2, max_offset, max_length);
        assert(lz77_decode_from(entries, out) == lz77_decode_from(rest, input.take(i2)));
    }
}

/// Law: for every input and parameter choice, decoding the encoder's entry
/// stream reproduces the input exactly.
pub proof fn lemma_lz77_round_trip(input: Seq<u8>, max_offset: nat, max_length: nat)
    requires
        input.len() <= usize::MAX,
    ensures
        lz77_decode_spec(lz77_encode_spec(input, max_offset, max_length)) == Some(input),
{
    lemma_lz77_round_trip_from(input, 0, max_offset, max_length);
    assert(input.take(0) =~= Seq::<u8>::empty());
}

/// Encodes `input` into LZ77 entries, searching matches at most `max_offset`
/// back and at most `max_length` long.
pub fn lz77_encode(input: &[u8], max_offset: usize, max_length: usize) -> (out: Vec<LZ77entry>)
    ensures
        out@ == lz77_encode_spec(input@, max_offset as nat, max_length as nat),
        lz77_decode_spec(out@) == Some(input@),
{
    let ghost mo = max_offset as nat;
    let ghost ml = max_length as nat;
    let mut out: Vec<LZ77entry> = Vec::new();
    let total: usize = input.len();
    proof {
        assert(input@.len() == total as int);
    }
    let mut i: usize = 0;
    while i < total
        invariant
            i <= input@.len(),
            input@.len() <= usize::MAX,
            lz77_encode_from(input@, 0, mo, ml) =~= out@ + lz77_encode_from(input@, i as int, mo, ml),
        decreases input@.len() - i,
    {
        let ghost i0 = i as int;
        let lo: usize = if i >= max_offset {
            i - max_offset
        } else {
            0
        };
        let mut best_off: usize = 0;
        let mut best_len: usize = 0;
        let mut j: usize = i;
        while j > lo
            invariant
                lo <= j <= i,
                i < input@.len() <= usize::MAX,
                best_len == 0 ==> best_off == 0,
                best_len > 0 ==> lo <= i - best_off < i && best_len == match_len_at(
                    input@,
                    i - best_off,
                    i0,
                    ml,
                ),
                best_len <= max_length,
                i + best_len <= input@.len(),
                best_match_scan(input@, i0, lo as int, j - 1, ml, best_off as int, best_len as int)
                    == best_match_scan(input@, i0, lo as int, i - 1, ml, 0, 0),
            decreases j,
        {
            j = j - 1;
            // Extend the candidate match at `j` symbol by symbol.
            let mut k: usize = 0;
            while k < max_length && i + k < input.len() && input[j + k] == input[i + k]
                invariant
                    j < i < input@.len() <= usize::MAX,
                    k <= max_length,
                    i + k <= input@.len(),
                    match_len_at(input@, j as int, i0, ml) == k + match_len_at(
                        input@,
                        j + k,
                        i + k,
                        (ml - k) as nat,
                    ),
                decreases max_length - k,
            {
                k = k + 1;
            }
            proof {
                assert(match_len_at(input@, j + k, i + k, (ml - k) as nat) == 0);
                assert(match_len_at(input@, j as int, i0, ml) == k as int);
            }
            if k > best_len {
                best_off = i - j;
                best_len = k;
            }
        }
        let ghost b = lz77_best(input@, i0, mo, ml);
        proof {
            assert(window_lo(i0, mo) == lo as int);
            assert(b == (best_off as int, best_len as int));
        }
        let entry = if best_len > 0 {
            let next_char = if i + best_len < input.len() {
                Some(input[i + best_len])
            } else {
                None
            };
            LZ77entry { offset: best_off, length: best_len, next_char }
        } else {
            LZ77entry { offset: 0, length: 0, next_char: Some(input[i]) }
        };
        proof {
            assert(entry == lz77_step(input@, i0, mo, ml));
        }
        let ghost out_pre = out@;
        out.push(entry);
        if best_len > 0 {
            if i + best_len < input.len() {
                i = i + best_len + 1;
            } else {
                i = i + best_len;
            }
        } else {
            i = i + 1;
        }
        proof {
            assert(i as int == if i0 + lz77_advance(entry) <= input@.len() {
                i0 + lz77_advance(entry)
            } else {
                input@.len() as int
            });
            assert(lz77_encode_from(input@, i0, mo, ml) =~= seq![entry] + lz77_encode_from(
                input@,
                i as int,
                mo,
                ml,
            ));
            assert(out@ + lz77_encode_from(input@, i as int, mo, ml) =~= out_pre + (seq![entry]
                + lz77_encode_from(input@, i as int, mo, ml)));
        }
    }
    proof {
        assert(lz77_encode_from(input@, input@.len() as int, mo, ml) =~= Seq::<LZ77entry>::empty());
        assert(out@ + Seq::<LZ77entry>::empty() =~= out@);
        lemma_lz77_round_trip(input@, mo, ml);
    }
    out
}

/// Decodes a stream of LZ77 entries.
///
/// Returns the decoded symbols exactly when every entry's copy stays inside
/// the output decoded before it; otherwise returns
/// `Err(CodecError::OffsetOutOfRange)`.
pub fn lz77_decode(input: &[LZ77entry]) -> (r: Result<Vec<u8>, CodecError>)
    ensures
        match r {
            Ok(out) => lz77_decode_spec(input@) == Some(out@),
            Err(e) => lz77_decode_spec(input@) is None && e == CodecError::OffsetOutOfRange,
        },
{
    let mut out: Vec<u8> = Vec::new();
    proof {
        assert(input@.skip(0) =~= input@);
    }
    let mut idx: usize = 0;
    while idx < input.len()
        invariant
            idx <= input@.len(),
            lz77_decode_spec(input@) == lz77_decode_from(input@.skip(idx as int), out@),
        decreases input@.len() - idx,
    {
        let ghost rest = input@.skip(idx as int);
        let e = input[idx];
        proof {
            assert(rest[0] == e);
        }
        if e.length > 0 && (e.offset == 0 || e.offset > out.len()) {
            return Err(CodecError::OffsetOutOfRange);
        }
        let ghost out0 = out@;
        let ghost start = out0.len() - e.offset;
        let mut t: usize = 0;
        while t < e.length
            invariant
                t <= e.length,
                e.length > 0 ==> 1 <= e.offset <= out0.len(),
                out@.len() == out0.len() + t,
                lz77_copy(out0, start, e.length as nat) == lz77_copy(
                    out@,
                    start + t,
                    (e.length - t) as nat,
                ),
            decreases e.length - t,
        {
            let cur = out.len();
            proof {
                assert(cur - e.offset == start + t);
            }
            let c = out[cur - e.offset];
            out.push(c);
            t = t + 1;
        }
        proof {
            assert(lz77_copy(out@, start + t, 0) == out@);
        }
        if let Some(c) = e.next_char {
            out.push(c);
        }
        proof {
            assert(out@ == lz77_decode_entry(out0, e));
            assert(rest.skip(1) =~= input@.skip(idx + 1));
        }
        idx = idx + 1;
    }
    proof {
        assert(input@.skip(input@.len() as int) =~= Seq::<LZ77entry>::empty());
    }
    Ok(out)
}

} // verus!
