//! The compound pipeline: BWT, then move-to-front over the full byte
//! alphabet, then LZW over the same alphabet.
//!
//! The transform stage clusters repeated contexts and turns them into small
//! indices, which LZW then compresses. Decoding runs the three stages in
//! reverse; the BWT primary index must be carried alongside the tokens.

use vstd::prelude::*;

use crate::bwt::bwt_decode_spec;
use crate::bwt::bwt_output;
use crate::bwt::bwt_ranks;
use crate::bwt::decode_bwt;
use crate::bwt::encode_bwt;
use crate::bwt::lemma_bwt_round_trip;
use crate::errors::CodecError;
use crate::lzw::lzw_decode;
use crate::lzw::lzw_decode_spec;
use crate::lzw::lzw_encode;
use crate::lzw::lzw_encode_spec;
use crate::lzw::lemma_lzw_encode_total;
use crate::lzw::lemma_lzw_init_dict_contains;
use crate::lzw::lemma_lzw_round_trip;
use crate::lzw::lemma_lzw_zero_lookahead;
use crate::lzw::lzw_init_dict;
use crate::lzw::lzw_contains;
use crate::mtf::decode_move_to_front;
use crate::mtf::encode_move_to_front;
use crate::mtf::lemma_mtf_encode_props;
use crate::mtf::lemma_mtf_round_trip;
use crate::mtf::mtf_decode_spec;
use crate::mtf::mtf_encode_spec;

verus! {

/// The full byte alphabet in value order, used both as the move-to-front
/// ordering and as LZW's initial dictionary.
pub open spec fn byte_alphabet_spec() -> Seq<u8> {
    Seq::new(256, |k: int| k as u8)
}

/// The byte alphabet holds every byte.
pub proof fn lemma_byte_alphabet_complete()
    ensures
        byte_alphabet_spec().len() == 256,
        forall|c: u8| byte_alphabet_spec().contains(c),
{
    assert forall|c: u8| byte_alphabet_spec().contains(c) by {
        assert(byte_alphabet_spec()[c as int] == c);
    }
}

/// Move-to-front indices narrowed to bytes; sound because the 256-symbol
/// ordering keeps every emitted index below 256.
pub open spec fn indices_to_bytes(s: Seq<usize>) -> Seq<u8> {
    s.map_values(|x: usize| x as u8)
}

/// Bytes widened back to move-to-front indices.
pub open spec fn bytes_to_indices(s: Seq<u8>) -> Seq<usize> {
    s.map_values(|x: u8| x as usize)
}

/// The token stream of the whole pipeline: BWT, move-to-front, LZW.
pub open spec fn stack_tokens_spec(input: Seq<u8>, max_lookahead: nat) -> Option<Seq<usize>> {
    match mtf_encode_spec(bwt_output(input), byte_alphabet_spec()) {
        None => None,
        Some(p) => lzw_encode_spec(indices_to_bytes(p.0), byte_alphabet_spec(), max_lookahead),
    }
}

/// The bytes the pipeline's decoder recovers from a token stream and a
/// primary index: LZW, move-to-front, then BWT, each stage reversed.
pub open spec fn stack_decode_spec(tokens: Seq<usize>, index: int) -> Option<Seq<u8>> {
    match lzw_decode_spec(tokens, byte_alphabet_spec()) {
        None => None,
        Some(bytes) => match mtf_decode_spec(bytes_to_indices(bytes), byte_alphabet_spec()) {
            None => None,
            Some(p) => if p.0.len() > 0 && index >= p.0.len() {
                None
            } else {
                Some(bwt_decode_spec(p.0, index))
            },
        },
    }
}

/// Law: the decompression stages invert the compression stages exactly, down
/// to the transform: decoding the pipeline's tokens recovers precisely the
/// inverse-BWT walk applied to the transform the encoder produced.
pub proof fn lemma_stack_recovers_transform(input: Seq<u8>, max_lookahead: nat, index: int)
    requires
        max_lookahead >= 1,
        input.len() + 256 <= usize::MAX,
        input.len() > 0 ==> 0 <= index < input.len(),
        input.len() == 0 ==> index == 0,
    ensures
        stack_tokens_spec(input, max_lookahead) is Some,
        stack_decode_spec(stack_tokens_spec(input, max_lookahead)->Some_0, index) == Some(
            bwt_decode_spec(bwt_output(input), index),
        ),
{
    let alphabet = byte_alphabet_spec();
    let transformed = bwt_output(input);
    lemma_byte_alphabet_complete();
    lemma_mtf_encode_props(transformed, alphabet);
    let p = mtf_encode_spec(transformed, alphabet)->Some_0;
    let bytes = indices_to_bytes(p.0);
    assert(bytes.len() == input.len());

    // LZW succeeds: the alphabet holds a singleton for every byte.
    assert forall|t: int| 0 <= t < bytes.len() implies lzw_contains(
        lzw_init_dict(alphabet),
        seq![#[trigger] bytes[t]],
    ) by {
        lemma_lzw_init_dict_contains(alphabet, bytes[t]);
    }
    lemma_lzw_encode_total(bytes, 0, lzw_init_dict(alphabet), max_lookahead);
    let toks = lzw_encode_spec(bytes, alphabet, max_lookahead)->Some_0;
    lemma_lzw_round_trip(bytes, alphabet, max_lookahead);
    assert(lzw_decode_spec(toks, alphabet) == Some(bytes));

    // Narrowing the indices to bytes and back is the identity: every emitted
    // index is below the 256-symbol ordering's length.
    assert(bytes_to_indices(bytes) =~= p.0) by {
        assert forall|t: int| 0 <= t < p.0.len() implies bytes_to_indices(bytes)[t] == p.0[t] by {
            assert((p.0[t] as int) < 256);
            assert(bytes[t] == p.0[t] as u8);
        }
    }
    lemma_mtf_round_trip(transformed, alphabet);
    assert(mtf_decode_spec(p.0, alphabet) == Some((transformed, p.1)));
    assert(transformed.len() == input.len());
}

/// Law: compressing and decompressing any byte buffer through the whole
/// pipeline — with the primary index the encoder reports — yields the
/// original bytes exactly.
pub proof fn lemma_stack_round_trip(input: Seq<u8>, max_lookahead: nat, index: int)
    requires
        max_lookahead >= 1,
        input.len() + 256 <= usize::MAX,
        input.len() > 0 ==> 0 <= index < input.len() && bwt_ranks(input)[index] == 0,
        input.len() == 0 ==> index == 0,
    ensures
        stack_tokens_spec(input, max_lookahead) is Some,
        stack_decode_spec(stack_tokens_spec(input, max_lookahead)->Some_0, index) == Some(input),
{
    lemma_stack_recovers_transform(input, max_lookahead, index);
    if input.len() > 0 {
        lemma_bwt_round_trip(input, index);
    } else {
        assert(bwt_decode_spec(bwt_output(input), index) =~= input);
    }
}

/// The full byte alphabet as a vector.
pub fn byte_alphabet() -> (r: Vec<u8>)
    ensures
        r@ == byte_alphabet_spec(),
{
    let mut r: Vec<u8> = Vec::new();
    let mut k: usize = 0;
    while k < 256
        invariant
            k <= 256,
            r@.len() == k,
            forall|u: int| 0 <= u < k ==> r@[u] == u as u8,
        decreases 256 - k,
    {
        r.push(k as u8);
        k = k + 1;
    }
    proof {
        assert(r@ =~= byte_alphabet_spec());
    }
    r
}

/// Compresses `input` through the whole pipeline, returning the LZW tokens
/// and the BWT primary index needed for decompression.
///
/// Succeeds whenever `max_lookahead` is at least one; a zero lookahead stops
/// LZW from matching even a single symbol, which is reported as
/// `Err(CodecError::SymbolNotInAlphabet)` on nonempty input.
pub fn encode_stack(input: &[u8], max_lookahead: usize) -> (r: Result<
    (Vec<usize>, usize),
    CodecError,
>)
    requires
        input@.len() + 256 <= usize::MAX,
    ensures
        match r {
            Ok((toks, index)) => {
                &&& stack_tokens_spec(input@, max_lookahead as nat) == Some(toks@)
                &&& stack_decode_spec(toks@, index as int) == Some(input@)
                &&& input@.len() > 0 ==> {
                    &&& index < input@.len()
                    &&& bwt_ranks(input@)[index as int] == 0
                }
                &&& input@.len() == 0 ==> index == 0
            },
            Err(e) => {
                &&& stack_tokens_spec(input@, max_lookahead as nat) is None
                &&& e == CodecError::SymbolNotInAlphabet
            },
        },
        max_lookahead >= 1 ==> r is Ok,
{
    let (transformed, index) = encode_bwt(input);
    let mut ordering = byte_alphabet();
    proof {
        lemma_byte_alphabet_complete();
    }
    let mtf = match encode_move_to_front(transformed.as_slice(), &mut ordering) {
        Ok(m) => m,
        Err(_) => {
            // Unreachable: the byte alphabet holds every symbol the
            // transform stage can produce.
            proof {
                assert(false);
            }
            return Err(CodecError::SymbolNotInAlphabet);
        },
    };
    proof {
        lemma_mtf_encode_props(transformed@, byte_alphabet_spec());
    }
    let ghost p = mtf_encode_spec(transformed@, byte_alphabet_spec())->Some_0;

    // Each index is below 256, so it narrows to a byte without loss.
    let mut mtf_bytes: Vec<u8> = Vec::new();
    let mut t: usize = 0;
    while t < mtf.len()
        invariant
            t <= mtf@.len(),
            mtf@ == p.0,
            forall|u: int| 0 <= u < p.0.len() ==> (#[trigger] p.0[u] as int) < 256,
            mtf_bytes@ =~= indices_to_bytes(mtf@.take(t as int)),
        decreases mtf@.len() - t,
    {
        let idx = mtf[t];
        mtf_bytes.push(idx as u8);
        t = t + 1;
        proof {
            assert(mtf@.take(t as int) =~= mtf@.take(t - 1).push(mtf@[t - 1]));
            assert(indices_to_bytes(mtf@.take(t as int)) =~= indices_to_bytes(
                mtf@.take(t - 1),
            ).push(mtf@[t - 1] as u8));
        }
    }
    proof {
        assert(mtf@.take(mtf@.len() as int) =~= mtf@);
    }

    let alphabet = byte_alphabet();
    let tokens_result = lzw_encode(mtf_bytes.as_slice(), alphabet.as_slice(), max_lookahead);
    let tokens = match tokens_result {
        Ok(toks) => toks,
        Err(e) => {
            proof {
                if max_lookahead >= 1 {
                    assert forall|u: int| 0 <= u < mtf_bytes@.len() implies byte_alphabet_spec().contains(
                        #[trigger] mtf_bytes@[u],
                    ) by {}
                    assert(false);
                }
            }
            return Err(e);
        },
    };
    proof {
        if max_lookahead >= 1 {
            lemma_stack_round_trip(input@, max_lookahead as nat, index as int);
        } else {
            // A zero lookahead only succeeds on empty input, whose token
            // stream is empty and decodes to the empty text.
            assert(input@.len() == 0) by {
                if input@.len() > 0 {
                    assert(mtf_bytes@.len() == input@.len());
                    assert(lzw_encode_spec(mtf_bytes@, byte_alphabet_spec(), 0) is Some);
                    assert(false) by {
                        lemma_lzw_zero_lookahead(mtf_bytes@, byte_alphabet_spec());
                    }
                }
            }
            assert(tokens@.len() == 0) by {
                assert(mtf_bytes@.len() == 0);
            }
            assert(stack_decode_spec(tokens@, index as int) == Some(input@)) by {
                assert(bwt_decode_spec(Seq::<u8>::empty(), index as int) =~= input@);
            }
        }
    }
    Ok((tokens, index))
}

/// Decompresses a pipeline token stream with the BWT primary `index`.
///
/// Returns the original bytes exactly when every token is valid and the
/// index lies inside the recovered text; the stage that rejects its input
/// names the error: `IndexOutOfRange` from LZW, move-to-front or the BWT
/// walk.
pub fn decode_stack(tokens: &[usize], index: usize) -> (r: Result<Vec<u8>, CodecError>)
    ensures
        match r {
            Ok(out) => stack_decode_spec(tokens@, index as int) == Some(out@),
            Err(e) => stack_decode_spec(tokens@, index as int) is None,
        },
{
    let alphabet = byte_alphabet();
    let bytes = match lzw_decode(tokens, alphabet.as_slice()) {
        Ok(b) => b,
        Err(e) => {
            return Err(e);
        },
    };

    let mut mtf_indices: Vec<usize> = Vec::new();
    let mut t: usize = 0;
    while t < bytes.len()
        invariant
            t <= bytes@.len(),
            mtf_indices@ =~= bytes_to_indices(bytes@.take(t as int)),
        decreases bytes@.len() - t,
    {
        let b = bytes[t];
        mtf_indices.push(b as usize);
        t = t + 1;
        proof {
            assert(bytes@.take(t as int) =~= bytes@.take(t - 1).push(bytes@[t - 1]));
            assert(bytes_to_indices(bytes@.take(t as int)) =~= bytes_to_indices(
                bytes@.take(t - 1),
            ).push(bytes@[t - 1] as usize));
        }
    }
    proof {
        assert(bytes@.take(bytes@.len() as int) =~= bytes@);
    }

    let mut ordering = byte_alphabet();
    let transformed = match decode_move_to_front(mtf_indices.as_slice(), &mut ordering) {
        Ok(tr) => tr,
        Err(e) => {
            return Err(e);
        },
    };
    match decode_bwt(transformed.as_slice(), index) {
        Ok(out) => Ok(out),
        Err(e) => Err(e),
    }
}

} // verus!
