//! Move-to-front transform.
//!
//! A caller-owned `ordering` of distinct symbols is mutated in place: each
//! encoded symbol is replaced by its current index in the ordering and then
//! moved to the front, so recently seen symbols map to small indices.

use vstd::prelude::*;

use crate::errors::CodecError;

verus! {

/// Index of the first occurrence of `x` in `s`; meaningful only when
/// `s.contains(x)`.
pub open spec fn first_index_of(s: Seq<u8>, x: u8) -> int
    decreases s.len(),
{
    if s.len() == 0 {
        0
    } else if s[0] == x {
        0
    } else {
        1 + first_index_of(s.skip(1), x)
    }
}

proof fn lemma_first_index_of(s: Seq<u8>, x: u8)
    requires
        s.contains(x),
    ensures
        0 <= first_index_of(s, x) < s.len(),
        s[first_index_of(s, x)] == x,
        forall|j: int| 0 <= j < first_index_of(s, x) ==> s[j] != x,
    decreases s.len(),
{
    if s[0] == x {
    } else {
        let w = choose|w: int| 0 <= w < s.len() && s[w] == x;
        assert(s.skip(1)[w - 1] == x);
        assert(s.skip(1).contains(x));
        lemma_first_index_of(s.skip(1), x);
        let f = first_index_of(s.skip(1), x);
        assert(s[1 + f] == s.skip(1)[f]);
        assert forall|j: int| 0 <= j < 1 + f implies s[j] != x by {
            if j >= 1 {
                assert(s[j] == s.skip(1)[j - 1]);
            }
        }
    }
}

/// The first occurrence index is pinned by any witness of a first occurrence.
proof fn lemma_first_index_of_witness(s: Seq<u8>, x: u8, i: int)
    requires
        0 <= i < s.len(),
        s[i] == x,
        forall|j: int| 0 <= j < i ==> s[j] != x,
    ensures
        first_index_of(s, x) == i,
{
    assert(s.contains(x));
    lemma_first_index_of(s, x);
    let f = first_index_of(s, x);
    if f < i {
        assert(s[f] != x);
    }
    if i < f {
        assert(s[i] != x);
    }
}

/// The ordering after one move-to-front step on position `i`.
pub open spec fn move_to_front(ord: Seq<u8>, i: int) -> Seq<u8> {
    seq![ord[i]] + ord.take(i) + ord.skip(i + 1)
}

/// One move-to-front step permutes the ordering: length and membership are
/// preserved.
proof fn lemma_move_to_front_permutes(ord: Seq<u8>, i: int)
    requires
        0 <= i < ord.len(),
    ensures
        move_to_front(ord, i).len() == ord.len(),
        forall|x: u8| move_to_front(ord, i).contains(x) <==> ord.contains(x),
{
    let m = move_to_front(ord, i);
    assert forall|x: u8| m.contains(x) implies ord.contains(x) by {
        let j = choose|j: int| 0 <= j < m.len() && m[j] == x;
        if j == 0 {
            assert(ord[i] == x);
        } else if j <= i {
            assert(ord[j - 1] == x);
        } else {
            assert(ord[j] == x);
        }
    }
    assert forall|x: u8| ord.contains(x) implies m.contains(x) by {
        let j = choose|j: int| 0 <= j < ord.len() && ord[j] == x;
        if j == i {
            assert(m[0] == x);
        } else if j < i {
            assert(m[j + 1] == x);
        } else {
            assert(m[j] == x);
        }
    }
}

/// The sequence of emitted indices and the final ordering of a move-to-front
/// encode, or `None` when some input symbol is missing from the ordering.
pub open spec fn mtf_encode_spec(input: Seq<u8>, ord: Seq<u8>) -> Option<(Seq<usize>, Seq<u8>)>
    decreases input.len(),
{
    if input.len() == 0 {
        Some((Seq::empty(), ord))
    } else if !ord.contains(input[0]) {
        None
    } else {
        let i = first_index_of(ord, input[0]);
        match mtf_encode_spec(input.skip(1), move_to_front(ord, i)) {
            Some(p) => Some((seq![i as usize] + p.0, p.1)),
            None => None,
        }
    }
}

/// The sequence of decoded symbols and the final ordering of a move-to-front
/// decode, or `None` when some index lies outside the ordering.
pub open spec fn mtf_decode_spec(indices: Seq<usize>, ord: Seq<u8>) -> Option<(Seq<u8>, Seq<u8>)>
    decreases indices.len(),
{
    if indices.len() == 0 {
        Some((Seq::empty(), ord))
    } else if indices[0] >= ord.len() {
        None
    } else {
        let el = ord[indices[0] as int];
        match mtf_decode_spec(indices.skip(1), move_to_front(ord, indices[0] as int)) {
            Some(p) => Some((seq![el] + p.0, p.1)),
            None => None,
        }
    }
}

/// Position of the first occurrence of `x` in `ordering`, if any.
fn find_symbol(ordering: &Vec<u8>, x: u8) -> (r: Option<usize>)
    ensures
        match r {
            Some(i) => i < ordering@.len() && ordering@[i as int] == x && forall|j: int|
                0 <= j < i ==> ordering@[j] != x,
            None => !ordering@.contains(x),
        },
{
    let mut i: usize = 0;
    while i < ordering.len()
        invariant
            i <= ordering@.len(),
            forall|j: int| 0 <= j < i ==> ordering@[j] != x,
        decreases ordering@.len() - i,
    {
        if ordering[i] == x {
            return Some(i);
        }
        i = i + 1;
    }
    None
}

/// Moves `ordering[idx]` to the front, shifting the prefix back by one.
fn move_index_to_front(ordering: &mut Vec<u8>, idx: usize)
    requires
        idx < old(ordering)@.len(),
    ensures
        final(ordering)@ == move_to_front(old(ordering)@, idx as int),
{
    let el = ordering[idx];
    ordering.remove(idx);
    ordering.insert(0, el);
    proof {
        assert(ordering@ =~= move_to_front(old(ordering)@, idx as int));
    }
}

/// Encodes `input` by move-to-front over the caller-owned `ordering`,
/// mutating the ordering in place.
///
/// Returns the emitted indices exactly when every input symbol occurs in the
/// ordering; otherwise returns `Err(CodecError::SymbolNotInAlphabet)` and
/// leaves the ordering unchanged.
pub fn encode_move_to_front(input: &[u8], ordering: &mut Vec<u8>) -> (r: Result<
    Vec<usize>,
    CodecError,
>)
    ensures
        match r {
            Ok(out) => mtf_encode_spec(input@, old(ordering)@) == Some((out@, final(ordering)@)),
            Err(e) => {
                &&& e == CodecError::SymbolNotInAlphabet
                &&& final(ordering)@ == old(ordering)@
                &&& exists|t: int| 0 <= t < input@.len() && !old(ordering)@.contains(input@[t])
            },
        },
{
    let ghost ord0 = ordering@;
    // A move-to-front step never changes which symbols the ordering holds, so
    // membership can be checked up front, before any mutation.
    let mut t: usize = 0;
    while t < input.len()
        invariant
            t <= input@.len(),
            ordering@ == ord0,
            forall|tt: int| 0 <= tt < t ==> ord0.contains(input@[tt]),
        decreases input@.len() - t,
    {
        if find_symbol(ordering, input[t]).is_none() {
            return Err(CodecError::SymbolNotInAlphabet);
        }
        proof {
            assert(ord0.contains(input@[t as int]));
        }
        t = t + 1;
    }

    let mut out: Vec<usize> = Vec::new();
    proof {
        assert(input@.skip(0) =~= input@);
        match mtf_encode_spec(input@, ord0) {
            Some(p) => {
                assert(out@ + p.0 =~= p.0);
                assert((out@ + p.0, p.1) == p);
            },
            None => {},
        }
    }
    let mut t: usize = 0;
    while t < input.len()
        invariant
            t <= input@.len(),
            ordering@.len() == ord0.len(),
            forall|x: u8| ordering@.contains(x) <==> ord0.contains(x),
            forall|tt: int| 0 <= tt < input@.len() ==> ord0.contains(input@[tt]),
            mtf_encode_spec(input@, ord0) == match mtf_encode_spec(
                input@.skip(t as int),
                ordering@,
            ) {
                Some(p) => Some::<(Seq<usize>, Seq<u8>)>((out@ + p.0, p.1)),
                None => None::<(Seq<usize>, Seq<u8>)>,
            },
        decreases input@.len() - t,
    {
        let ghost cur = ordering@;
        let ghost rest = input@.skip(t as int);
        proof {
            assert(rest[0] == input@[t as int]);
            assert(cur.contains(input@[t as int]));
        }
        let idx = match find_symbol(ordering, input[t]) {
            Some(idx) => idx,
            None => {
                // Unreachable: the membership pass found every input symbol,
                // and a move-to-front step never changes membership.
                proof {
                    assert(false);
                }
                return Err(CodecError::SymbolNotInAlphabet);
            },
        };
        proof {
            lemma_first_index_of_witness(cur, input@[t as int], idx as int);
            lemma_move_to_front_permutes(cur, idx as int);
        }
        let ghost out_pre = out@;
        out.push(idx);
        move_index_to_front(ordering, idx);
        proof {
            assert(rest.skip(1) =~= input@.skip(t + 1));
            match mtf_encode_spec(input@.skip(t + 1), ordering@) {
                Some(p) => {
                    assert(out@ + p.0 =~= out_pre + (seq![idx] + p.0));
                },
                None => {},
            }
        }
        t = t + 1;
    }
    proof {
        assert(input@.skip(input@.len() as int) =~= Seq::<u8>::empty());
        let p = mtf_encode_spec(input@, ord0)->Some_0;
        assert(out@ + Seq::<usize>::empty() =~= out@);
    }
    Ok(out)
}

/// Decodes move-to-front `input` indices over the caller-owned `ordering`,
/// mutating the ordering in place.
///
/// Returns the decoded symbols exactly when every index is within the
/// ordering's bounds; otherwise returns `Err(CodecError::IndexOutOfRange)`
/// and leaves the ordering unchanged.
pub fn decode_move_to_front(input: &[usize], ordering: &mut Vec<u8>) -> (r: Result<
    Vec<u8>,
    CodecError,
>)
    ensures
        match r {
            Ok(out) => mtf_decode_spec(input@, old(ordering)@) == Some((out@, final(ordering)@)),
            Err(e) => {
                &&& e == CodecError::IndexOutOfRange
                &&& final(ordering)@ == old(ordering)@
                &&& exists|t: int| 0 <= t < input@.len() && input@[t] >= old(ordering)@.len()
            },
        },
{
    let ghost ord0 = ordering@;
    // A move-to-front step never changes the ordering's length, so bounds can
    // be checked up front, before any mutation.
    let mut t: usize = 0;
    while t < input.len()
        invariant
            t <= input@.len(),
            ordering@ == ord0,
            forall|tt: int| 0 <= tt < t ==> input@[tt] < ord0.len(),
        decreases input@.len() - t,
    {
        if input[t] >= ordering.len() {
            return Err(CodecError::IndexOutOfRange);
        }
        t = t + 1;
    }

    let mut out: Vec<u8> = Vec::new();
    proof {
        assert(input@.skip(0) =~= input@);
        match mtf_decode_spec(input@, ord0) {
            Some(p) => {
                assert(out@ + p.0 =~= p.0);
                assert((out@ + p.0, p.1) == p);
            },
            None => {},
        }
    }
    let mut t: usize = 0;
    while t < input.len()
        invariant
            t <= input@.len(),
            ordering@.len() == ord0.len(),
            forall|tt: int| 0 <= tt < input@.len() ==> input@[tt] < ord0.len(),
            mtf_decode_spec(input@, ord0) == match mtf_decode_spec(
                input@.skip(t as int),
                ordering@,
            ) {
                Some(p) => Some::<(Seq<u8>, Seq<u8>)>((out@ + p.0, p.1)),
                None => None::<(Seq<u8>, Seq<u8>)>,
            },
        decreases input@.len() - t,
    {
        let ghost cur = ordering@;
        let ghost rest = input@.skip(t as int);
        proof {
            assert(rest[0] == input@[t as int]);
        }
        let idx = input[t];
        let el = ordering[idx];
        let ghost out_pre = out@;
        out.push(el);
        move_index_to_front(ordering, idx);
        proof {
            assert(rest.skip(1) =~= input@.skip(t + 1));
            match mtf_decode_spec(input@.skip(t + 1), ordering@) {
                Some(p) => {
                    assert(out@ + p.0 =~= out_pre + (seq![el] + p.0));
                },
                None => {},
            }
        }
        t = t + 1;
    }
    proof {
        assert(input@.skip(input@.len() as int) =~= Seq::<usize>::empty());
        assert(out@ + Seq::<u8>::empty() =~= out@);
    }
    Ok(out)
}

/// Shape of an encode: it succeeds whenever the ordering holds every input
/// symbol, emits one index per input symbol, each within the ordering's
/// bounds, and permutes but never resizes the ordering.
pub proof fn lemma_mtf_encode_props(input: Seq<u8>, ord: Seq<u8>)
    ensures
        (forall|t: int| 0 <= t < input.len() ==> ord.contains(#[trigger] input[t]))
            ==> mtf_encode_spec(input, ord) is Some,
        mtf_encode_spec(input, ord) matches Some(p) ==> {
            &&& p.0.len() == input.len()
            &&& p.1.len() == ord.len()
            &&& forall|t: int| 0 <= t < p.0.len() ==> (#[trigger] p.0[t] as int) < ord.len()
        },
    decreases input.len(),
{
    if input.len() == 0 {
    } else if !ord.contains(input[0]) {
    } else {
        lemma_first_index_of(ord, input[0]);
        let i = first_index_of(ord, input[0]);
        let ord2 = move_to_front(ord, i);
        lemma_move_to_front_permutes(ord, i);
        lemma_mtf_encode_props(input.skip(1), ord2);
        assert forall|t: int|
            0 <= t < input.len() && ord.contains(#[trigger] input[t]) implies ord2.contains(
            input[t],
        ) by {}
        if forall|t: int| 0 <= t < input.len() ==> ord.contains(#[trigger] input[t]) {
            assert forall|t: int| 0 <= t < input.skip(1).len() implies ord2.contains(
                #[trigger] input.skip(1)[t],
            ) by {
                assert(input.skip(1)[t] == input[t + 1]);
                assert(ord.contains(input[t + 1]));
            }
            assert(mtf_encode_spec(input.skip(1), ord2) is Some);
        }
        match mtf_encode_spec(input, ord) {
            Some(p) => {
                let rest = mtf_encode_spec(input.skip(1), ord2)->Some_0;
                assert(p.0 == seq![i as usize] + rest.0);
                assert forall|t: int| 0 <= t < p.0.len() implies (#[trigger] p.0[t] as int)
                    < ord.len() by {
                    if t > 0 {
                        assert(p.0[t] == rest.0[t - 1]);
                    }
                }
            },
            None => {},
        }
    }
}

/// Law: decoding the emitted indices with an identically initialized ordering
/// reproduces the input, and both the encoder's and the decoder's orderings
/// end in the same final state.
pub proof fn lemma_mtf_round_trip(input: Seq<u8>, ord: Seq<u8>)
    requires
        ord.len() <= usize::MAX,
        mtf_encode_spec(input, ord) is Some,
    ensures
        ({
            let p = mtf_encode_spec(input, ord)->Some_0;
            mtf_decode_spec(p.0, ord) == Some((input, p.1))
        }),
    decreases input.len(),
{
    if input.len() == 0 {
        let p = mtf_encode_spec(input, ord)->Some_0;
        assert(p.0.len() == 0);
        assert(mtf_decode_spec(p.0, ord) == Some((Seq::<u8>::empty(), ord)));
        assert(input =~= Seq::<u8>::empty());
    } else {
        lemma_first_index_of(ord, input[0]);
        let i = first_index_of(ord, input[0]);
        let ord2 = move_to_front(ord, i);
        lemma_move_to_front_permutes(ord, i);
        let p_rest = mtf_encode_spec(input.skip(1), ord2)->Some_0;
        lemma_mtf_round_trip(input.skip(1), ord2);
        let p = mtf_encode_spec(input, ord)->Some_0;
        assert(p.0 == seq![i as usize] + p_rest.0);
        assert(p.0[0] == i as usize);
        assert((i as usize) < ord.len());
        assert(p.0.skip(1) =~= p_rest.0);
        assert(ord[(i as usize) as int] == input[0]);
        let d = mtf_decode_spec(p.0, ord);
        assert(d == Some((seq![input[0]] + input.skip(1), p.1)));
        assert(seq![input[0]] + input.skip(1) =~= input);
    }
}

} // verus!
