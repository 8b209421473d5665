//! LZW: an LZ78 variant seeded with a fixed initial alphabet.
//!
//! The dictionary starts with one single-symbol run per alphabet member and
//! grows by at most one entry per emitted token; tokens are bare dictionary
//! indices. The decoder rebuilds the same dictionary without seeing the
//! input: it peeks at the following token, and when that token is the one
//! index not yet assigned — the classic case of a run extended by its own
//! first symbol — it extends the current run with its own first symbol.

use vstd::prelude::*;

use crate::errors::CodecError;

verus! {

/// The seeded dictionary: one single-symbol run per alphabet member.
pub open spec fn lzw_init_dict(initial: Seq<u8>) -> Seq<Seq<u8>> {
    Seq::new(initial.len(), |k: int| seq![initial[k]])
}

/// Whether the dictionary holds run `s`.
pub open spec fn lzw_contains(dict: Seq<Seq<u8>>, s: Seq<u8>) -> bool {
    exists|k: int| 0 <= k < dict.len() && dict[k] == s
}

/// The dictionary with `s` appended, unless it is already present: a run is
/// never stored twice.
pub open spec fn lzw_insert_novel(dict: Seq<Seq<u8>>, s: Seq<u8>) -> Seq<Seq<u8>> {
    if lzw_contains(dict, s) {
        dict
    } else {
        dict.push(s)
    }
}

/// Every run in the dictionary is nonempty. This holds of every dictionary
/// the codec builds: the seeds are single symbols and each grown run extends
/// an existing one.
pub open spec fn lzw_dict_nonempty(dict: Seq<Seq<u8>>) -> bool {
    forall|k: int| 0 <= k < dict.len() ==> dict[k].len() >= 1
}

/// Whether dictionary run `entry` is usable as the match at position `i`:
/// nonempty, within the lookahead, and equal to the input there.
pub open spec fn lzw_matches(input: Seq<u8>, i: int, entry: Seq<u8>, max_lookahead: nat) -> bool {
    &&& 1 <= entry.len() <= max_lookahead
    &&& i + entry.len() <= input.len()
    &&& entry == input.subrange(i, i + entry.len())
}

/// The index of the longest usable dictionary run, scanning indices upward
/// from `idx` with the best-so-far `best`; only a strictly longer run
/// replaces it, so ties keep the lowest (oldest) index.
pub open spec fn lzw_best_scan(
    input: Seq<u8>,
    i: int,
    dict: Seq<Seq<u8>>,
    idx: int,
    max_lookahead: nat,
    best: Option<int>,
) -> Option<int>
    decreases dict.len() - idx,
{
    if idx < 0 || idx >= dict.len() {
        best
    } else {
        let better = if lzw_matches(input, i, dict[idx], max_lookahead) && (match best {
            None => true,
            Some(b) => dict[idx].len() > dict[b].len(),
        }) {
            Some(idx)
        } else {
            best
        };
        lzw_best_scan(input, i, dict, idx + 1, max_lookahead, better)
    }
}

/// The match the encoder picks at position `i`, if any.
pub open spec fn lzw_best(input: Seq<u8>, i: int, dict: Seq<Seq<u8>>, max_lookahead: nat) -> Option<
    int,
> {
    lzw_best_scan(input, i, dict, 0, max_lookahead, None)
}

/// The tokens emitted from cursor position `i` with the dictionary built so
/// far, or `None` when no dictionary run matches even a single symbol.
pub open spec fn lzw_encode_from(input: Seq<u8>, i: int, dict: Seq<Seq<u8>>, max_lookahead: nat) -> Option<
    Seq<usize>,
>
    decreases input.len() - i,
{
    if i < 0 || i >= input.len() {
        Some(Seq::empty())
    } else {
        match lzw_best(input, i, dict, max_lookahead) {
            None => None,
            Some(idx) => {
                let adv = if dict[idx].len() >= 1 {
                    dict[idx].len() as int
                } else {
                    1
                };
                let i2 = if i + adv <= input.len() {
                    i + adv
                } else {
                    input.len() as int
                };
                let dict2 = if i2 < input.len() {
                    lzw_insert_novel(dict, dict[idx].push(input[i2]))
                } else {
                    dict
                };
                match lzw_encode_from(input, i2, dict2, max_lookahead) {
                    None => None,
                    Some(rest) => Some(seq![idx as usize] + rest),
                }
            },
        }
    }
}

/// The token stream the encoder produces for `input` over `initial`.
pub open spec fn lzw_encode_spec(input: Seq<u8>, initial: Seq<u8>, max_lookahead: nat) -> Option<
    Seq<usize>,
> {
    lzw_encode_from(input, 0, lzw_init_dict(initial), max_lookahead)
}

/// The dictionary after the decoder's growth step: the decoded run extended
/// by the first symbol of the next token's run, or by its own first symbol
/// when the next token is the index about to be assigned.
pub open spec fn lzw_grow(dict: Seq<Seq<u8>>, entry: Seq<u8>, next_tok: int) -> Seq<Seq<u8>> {
    let c = if 0 <= next_tok < dict.len() {
        dict[next_tok][0]
    } else {
        entry[0]
    };
    lzw_insert_novel(dict, entry.push(c))
}

/// The symbols decoded from `tokens` with the dictionary built so far, or
/// `None` when a token lies outside the dictionary at its time.
pub open spec fn lzw_decode_from(tokens: Seq<usize>, dict: Seq<Seq<u8>>) -> Option<Seq<u8>>
    decreases tokens.len(),
{
    if tokens.len() == 0 {
        Some(Seq::empty())
    } else if tokens[0] >= dict.len() {
        None
    } else {
        let entry = dict[tokens[0] as int];
        let dict2 = if tokens.len() > 1 {
            lzw_grow(dict, entry, tokens[1] as int)
        } else {
            dict
        };
        match lzw_decode_from(tokens.skip(1), dict2) {
            None => None,
            Some(rest) => Some(entry + rest),
        }
    }
}

/// The symbol sequence a token stream decodes to over `initial`.
pub open spec fn lzw_decode_spec(tokens: Seq<usize>, initial: Seq<u8>) -> Option<Seq<u8>> {
    lzw_decode_from(tokens, lzw_init_dict(initial))
}

/// What the scan's result means: a returned index names a usable run, and
/// the scan returns one whenever any run is usable.
proof fn lemma_lzw_best_scan_props(
    input: Seq<u8>,
    i: int,
    dict: Seq<Seq<u8>>,
    idx: int,
    max_lookahead: nat,
    best: Option<int>,
)
    requires
        0 <= idx,
        best matches Some(b) ==> 0 <= b < dict.len() && lzw_matches(
            input,
            i,
            dict[b],
            max_lookahead,
        ),
    ensures
        ({
            let r = lzw_best_scan(input, i, dict, idx, max_lookahead, best);
            &&& (r matches Some(b) ==> 0 <= b < dict.len() && lzw_matches(
                input,
                i,
                dict[b],
                max_lookahead,
            ))
            &&& ((best is Some || exists|k: int|
                idx <= k < dict.len() && lzw_matches(input, i, #[trigger] dict[k], max_lookahead))
                ==> r is Some)
        }),
    decreases dict.len() - idx,
{
    if idx < dict.len() {
        let better = if lzw_matches(input, i, dict[idx], max_lookahead) && (match best {
            None => true,
            Some(b) => dict[idx].len() > dict[b].len(),
        }) {
            Some(idx)
        } else {
            best
        };
        lemma_lzw_best_scan_props(input, i, dict, idx + 1, max_lookahead, better);
        if best is None && !lzw_matches(input, i, dict[idx], max_lookahead) {
            if exists|k: int|
                idx <= k < dict.len() && lzw_matches(input, i, #[trigger] dict[k], max_lookahead) {
                let k = choose|k: int|
                    idx <= k < dict.len() && lzw_matches(input, i, #[trigger] dict[k], max_lookahead);
                assert(idx + 1 <= k < dict.len() && lzw_matches(input, i, dict[k], max_lookahead));
            }
        }
    }
}

/// A singleton run is in the seeded dictionary exactly when the alphabet
/// holds its symbol.
pub proof fn lemma_lzw_init_dict_contains(initial: Seq<u8>, c: u8)
    ensures
        lzw_contains(lzw_init_dict(initial), seq![c]) <==> initial.contains(c),
{
    let dict = lzw_init_dict(initial);
    if initial.contains(c) {
        let k = choose|k: int| 0 <= k < initial.len() && initial[k] == c;
        assert(dict[k] == seq![c]);
    }
    if lzw_contains(dict, seq![c]) {
        let k = choose|k: int| 0 <= k < dict.len() && dict[k] == seq![c];
        assert(dict[k] == seq![initial[k]]);
        assert(seq![initial[k]][0] == initial[k]);
        assert(seq![c][0] == c);
        assert(initial[k] == c);
    }
}

/// Encoding succeeds from any position once the dictionary holds a singleton
/// for every remaining input symbol: the dictionary only ever grows.
pub proof fn lemma_lzw_encode_total(input: Seq<u8>, i: int, dict: Seq<Seq<u8>>, max_lookahead: nat)
    requires
        0 <= i,
        max_lookahead >= 1,
        forall|t: int| i <= t < input.len() ==> lzw_contains(dict, seq![#[trigger] input[t]]),
    ensures
        lzw_encode_from(input, i, dict, max_lookahead) is Some,
    decreases input.len() - i,
{
    if i < input.len() {
        let single = seq![input[i]];
        let k = choose|k: int| 0 <= k < dict.len() && dict[k] == single;
        assert(input.subrange(i, i + 1) =~= single);
        assert(lzw_matches(input, i, dict[k], max_lookahead));
        lemma_lzw_best_scan_props(input, i, dict, 0, max_lookahead, None);
        let idx = lzw_best(input, i, dict, max_lookahead)->Some_0;
        let adv = if dict[idx].len() >= 1 {
            dict[idx].len() as int
        } else {
            1
        };
        let i2 = if i + adv <= input.len() {
            i + adv
        } else {
            input.len() as int
        };
        let dict2 = if i2 < input.len() {
            lzw_insert_novel(dict, dict[idx].push(input[i2]))
        } else {
            dict
        };
        assert forall|t: int| i2 <= t < input.len() implies lzw_contains(
            dict2,
            seq![#[trigger] input[t]],
        ) by {
            assert(lzw_contains(dict, seq![input[t]]));
            let w = choose|w: int| 0 <= w < dict.len() && dict[w] == seq![input[t]];
            assert(dict2[w] == seq![input[t]]) by {
                if !lzw_contains(dict, dict[idx].push(input[i2 as int])) && i2 < input.len() {
                    assert(dict2 == dict.push(dict[idx].push(input[i2 as int])));
                }
            }
        }
        lemma_lzw_encode_total(input, i2, dict2, max_lookahead);
    }
}

/// Law: whenever encoding succeeds, decoding its tokens against the same
/// seeded dictionary reproduces the remaining input. The decoder's dictionary
/// stays in lockstep with the encoder's: the peeked token's run starts with
/// exactly the symbol the encoder appended, also in the one case where that
/// token names the run being inserted.
proof fn lemma_lzw_round_trip_from(input: Seq<u8>, i: int, dict: Seq<Seq<u8>>, max_lookahead: nat)
    requires
        0 <= i <= input.len(),
        input.len() <= usize::MAX,
        dict.len() + (input.len() - i) <= usize::MAX,
        lzw_dict_nonempty(dict),
        lzw_encode_from(input, i, dict, max_lookahead) is Some,
    ensures
        lzw_decode_from(lzw_encode_from(input, i, dict, max_lookahead)->Some_0, dict) == Some(
            input.skip(i),
        ),
    decreases input.len() - i,
{
    if i >= input.len() {
        assert(input.skip(i) =~= Seq::<u8>::empty());
    } else {
        lemma_lzw_best_scan_props(input, i, dict, 0, max_lookahead, None);
        let idx = lzw_best(input, i, dict, max_lookahead)->Some_0;
        let entry = dict[idx];
        assert(lzw_matches(input, i, entry, max_lookahead));
        let ln = entry.len() as int;
        let i2 = i + ln;
        assert(i2 <= input.len());
        let dict2 = if i2 < input.len() {
            lzw_insert_novel(dict, entry.push(input[i2]))
        } else {
            dict
        };
        let toks = lzw_encode_from(input, i, dict, max_lookahead)->Some_0;
        let rest = lzw_encode_from(input, i2, dict2, max_lookahead)->Some_0;
        assert(toks == seq![idx as usize] + rest);
        assert(toks[0] == idx as usize);
        assert(toks.skip(1) =~= rest);
        assert(lzw_dict_nonempty(dict2)) by {
            if i2 < input.len() && !lzw_contains(dict, entry.push(input[i2 as int])) {
                assert(dict2 == dict.push(entry.push(input[i2 as int])));
            }
        }
        lemma_lzw_round_trip_from(input, i2, dict2, max_lookahead);
        assert(lzw_decode_from(rest, dict2) == Some(input.skip(i2)));

        // The decoder sees `entry` for the first token.
        assert((idx as usize) as int == idx);
        assert(toks[0] < dict.len());
        if rest.len() == 0 {
            // Final token: no growth on either side.
            assert(i2 >= input.len()) by {
                if i2 < input.len() {
                    assert(lzw_encode_from(input, i2, dict2, max_lookahead)->Some_0.len() >= 1);
                }
            }
            assert(toks.len() == 1);
            assert(lzw_decode_from(toks, dict) == Some(entry + input.skip(i2)));
            assert(entry + input.skip(i2) =~= input.skip(i));
        } else {
            assert(toks.len() > 1);
            assert(i2 < input.len()) by {
                if i2 >= input.len() {
                    assert(lzw_encode_from(input, i2, dict2, max_lookahead)->Some_0.len() == 0);
                }
            }
            let cand = entry.push(input[i2]);
            // The next token's run in the encoder's grown dictionary starts
            // at position i2 of the input.
            lemma_lzw_best_scan_props(input, i2, dict2, 0, max_lookahead, None);
            let idx2 = lzw_best(input, i2, dict2, max_lookahead)->Some_0;
            assert(rest[0] == idx2 as usize);
            assert(toks[1] == idx2 as usize);
            assert(lzw_matches(input, i2, dict2[idx2], max_lookahead));
            assert(dict2[idx2][0] == input[i2]) by {
                assert(dict2[idx2] == input.subrange(i2, i2 + dict2[idx2].len()));
                assert(input.subrange(i2, i2 + dict2[idx2].len())[0] == input[i2]);
            }
            assert((idx2 as usize) as int == idx2) by {
                assert(idx2 < dict2.len() <= dict.len() + 1);
            }
            // The decoder computes the same growth symbol.
            let c = if 0 <= toks[1] < dict.len() {
                dict[toks[1] as int][0]
            } else {
                entry[0]
            };
            if idx2 < dict.len() {
                assert(dict2[idx2] == dict[idx2]) by {
                    if !lzw_contains(dict, cand) {
                        assert(dict2 == dict.push(cand));
                    }
                }
                assert(c == input[i2]);
            } else {
                // The peeked token names the entry just inserted: its run is
                // `entry + entry[0]`, so the growth symbol is entry's own
                // first symbol.
                assert(idx2 == dict.len());
                assert(!lzw_contains(dict, cand) && dict2 == dict.push(cand)) by {
                    if lzw_contains(dict, cand) {
                        assert(dict2 == dict);
                    }
                }
                assert(dict2[idx2] == cand);
                assert(cand[0] == entry[0]);
                assert(entry[0] == input[i]) by {
                    assert(entry == input.subrange(i, i + entry.len()));
                    assert(input.subrange(i, i + entry.len())[0] == input[i]);
                }
                assert(input[i2] == cand[0]);
                assert(c == entry[0]);
                assert(c == input[i2]);
            }
            assert(lzw_grow(dict, entry, toks[1] as int) == lzw_insert_novel(dict, entry.push(c)));
            assert(entry.push(c) == cand);
            assert(lzw_grow(dict, entry, toks[1] as int) == dict2);
            assert(lzw_decode_from(toks, dict) == Some(entry + input.skip(i2)));
            assert(entry + input.skip(i2) =~= input.skip(i));
        }
    }
}

/// Law: decoding an encoded token stream over the same initial alphabet
/// reproduces the input exactly.
pub proof fn lemma_lzw_round_trip(input: Seq<u8>, initial: Seq<u8>, max_lookahead: nat)
    requires
        input.len() <= usize::MAX,
        initial.len() + input.len() <= usize::MAX,
        lzw_encode_spec(input, initial, max_lookahead) is Some,
    ensures
        lzw_decode_spec(lzw_encode_spec(input, initial, max_lookahead)->Some_0, initial) == Some(
            input,
        ),
{
    let dict = lzw_init_dict(initial);
    assert(lzw_dict_nonempty(dict));
    lemma_lzw_round_trip_from(input, 0, dict, max_lookahead);
    assert(input.skip(0) =~= input);
}

/// A zero lookahead admits no match at all, so encoding any nonempty input
/// fails.
pub proof fn lemma_lzw_zero_lookahead(input: Seq<u8>, initial: Seq<u8>)
    requires
        input.len() > 0,
    ensures
        lzw_encode_spec(input, initial, 0) is None,
{
    let dict = lzw_init_dict(initial);
    lemma_lzw_best_scan_props(input, 0, dict, 0, 0, None);
    match lzw_best(input, 0, dict, 0) {
        Some(idx) => {
            assert(lzw_matches(input, 0, dict[idx], 0));
            assert(false);
        },
        None => {},
    }
}

/// Law: the dictionary grows monotonically, by at most one run per token,
/// and an insert never disturbs existing runs.
pub proof fn lemma_lzw_dict_growth(dict: Seq<Seq<u8>>, s: Seq<u8>)
    ensures
        dict.len() <= lzw_insert_novel(dict, s).len() <= dict.len() + 1,
        forall|k: int| 0 <= k < dict.len() ==> #[trigger] lzw_insert_novel(dict, s)[k] == dict[k],
{
}

/// The sequences held by an executable dictionary.
pub open spec fn lzw_dict_view(d: Seq<Vec<u8>>) -> Seq<Seq<u8>> {
    d.map_values(|v: Vec<u8>| v@)
}

/// Whether the two vectors hold the same bytes.
fn bytes_equal(a: &Vec<u8>, b: &Vec<u8>) -> (r: bool)
    ensures
        r == (a@ == b@),
{
    if a.len() != b.len() {
        proof {
            assert(a@ != b@);
        }
        return false;
    }
    let mut t: usize = 0;
    while t < a.len()
        invariant
            t <= a@.len(),
            a@.len() == b@.len(),
            forall|u: int| 0 <= u < t ==> a@[u] == b@[u],
        decreases a@.len() - t,
    {
        if a[t] != b[t] {
            return false;
        }
        t = t + 1;
    }
    proof {
        assert(a@ =~= b@);
    }
    true
}

/// Whether the dictionary already holds `entry`.
fn dict_contains(dictionary: &Vec<Vec<u8>>, entry: &Vec<u8>) -> (r: bool)
    ensures
        r == lzw_contains(lzw_dict_view(dictionary@), entry@),
{
    let ghost dictv = lzw_dict_view(dictionary@);
    let mut k: usize = 0;
    while k < dictionary.len()
        invariant
            k <= dictionary@.len(),
            forall|u: int| 0 <= u < k ==> dictv[u] != entry@,
        decreases dictionary@.len() - k,
    {
        if bytes_equal(&dictionary[k], entry) {
            proof {
                assert(dictv[k as int] == entry@);
            }
            return true;
        }
        k = k + 1;
    }
    false
}

/// Whether `entry` equals the input at positions `i..i + entry.len()`.
fn prefix_matches_at(input: &[u8], i: usize, entry: &Vec<u8>) -> (r: bool)
    requires
        i + entry@.len() <= input@.len(),
    ensures
        r == (entry@ == input@.subrange(i as int, i + entry@.len())),
{
    let in_len = input.len();
    proof {
        assert(input@.len() == in_len as int);
    }
    let mut t: usize = 0;
    while t < entry.len()
        invariant
            t <= entry@.len(),
            forall|u: int| 0 <= u < t ==> entry@[u] == input@[i + u],
        decreases entry@.len() - t,
    {
        if entry[t] != input[i + t] {
            proof {
                assert(entry@[t as int] != input@.subrange(i as int, i + entry@.len())[t as int]);
            }
            return false;
        }
        t = t + 1;
    }
    proof {
        assert(entry@ =~= input@.subrange(i as int, i + entry@.len()));
    }
    true
}

/// The seeded dictionary as a vector of single-symbol runs.
fn build_init_dict(initial: &[u8]) -> (dictionary: Vec<Vec<u8>>)
    ensures
        lzw_dict_view(dictionary@) == lzw_init_dict(initial@),
{
    let mut dictionary: Vec<Vec<u8>> = Vec::new();
    let mut k: usize = 0;
    while k < initial.len()
        invariant
            k <= initial@.len(),
            dictionary@.len() == k,
            forall|u: int| 0 <= u < k ==> lzw_dict_view(dictionary@)[u] == seq![initial@[u]],
        decreases initial@.len() - k,
    {
        let mut single: Vec<u8> = Vec::new();
        single.push(initial[k]);
        proof {
            assert(single@ =~= seq![initial@[k as int]]);
        }
        let ghost d_pre = dictionary@;
        dictionary.push(single);
        k = k + 1;
        proof {
            assert forall|u: int| 0 <= u < k implies lzw_dict_view(dictionary@)[u] == seq![
                initial@[u],
            ] by {
                if u < k - 1 {
                    assert(dictionary@[u] == d_pre[u]);
                    assert(lzw_dict_view(d_pre)[u] == seq![initial@[u]]);
                } else {
                    assert(dictionary@[u] == single);
                }
            }
        }
    }
    proof {
        assert(lzw_dict_view(dictionary@) =~= lzw_init_dict(initial@));
    }
    dictionary
}

/// Encodes `input` into LZW tokens over the alphabet `initial`, matching
/// dictionary runs of at most `max_lookahead` symbols.
///
/// Returns the token stream exactly when the encoder's search succeeds at
/// every position, which is owed whenever the alphabet covers every input
/// symbol and the lookahead is at least one; otherwise returns
/// `Err(CodecError::SymbolNotInAlphabet)`.
pub fn lzw_encode(input: &[u8], initial: &[u8], max_lookahead: usize) -> (r: Result<
    Vec<usize>,
    CodecError,
>)
    requires
        initial@.len() + input@.len() <= usize::MAX,
    ensures
        match r {
            Ok(out) => {
                &&& lzw_encode_spec(input@, initial@, max_lookahead as nat) == Some(out@)
                &&& lzw_decode_spec(out@, initial@) == Some(input@)
            },
            Err(e) => {
                &&& lzw_encode_spec(input@, initial@, max_lookahead as nat) is None
                &&& e == CodecError::SymbolNotInAlphabet
            },
        },
        input@.len() == 0 || (max_lookahead >= 1 && forall|t: int|
            0 <= t < input@.len() ==> initial@.contains(#[trigger] input@[t])) ==> r is Ok,
{
    let ghost la = max_lookahead as nat;
    let mut dictionary: Vec<Vec<u8>> = build_init_dict(initial);
    let mut out: Vec<usize> = Vec::new();
    let in_len = input.len();
    proof {
        assert(input@.len() == in_len as int);
        match lzw_encode_from(input@, 0, lzw_dict_view(dictionary@), la) {
            Some(rest) => {
                assert(out@ + rest =~= rest);
            },
            None => {},
        }
        assert forall|t: int|
            0 <= t < input@.len() && initial@.contains(#[trigger] input@[t]) implies lzw_contains(
            lzw_dict_view(dictionary@),
            seq![input@[t]],
        ) by {
            lemma_lzw_init_dict_contains(initial@, input@[t]);
        }
    }
    let mut i: usize = 0;
    while i < in_len
        invariant
            i <= input@.len(),
            in_len == input@.len(),
            lzw_dict_nonempty(lzw_dict_view(dictionary@)),
            lzw_encode_spec(input@, initial@, la) == match lzw_encode_from(
                input@,
                i as int,
                lzw_dict_view(dictionary@),
                la,
            ) {
                Some(rest) => Some(out@ + rest),
                None => None::<Seq<usize>>,
            },
            forall|t: int|
                0 <= t < input@.len() && initial@.contains(#[trigger] input@[t]) ==> lzw_contains(
                    lzw_dict_view(dictionary@),
                    seq![input@[t]],
                ),
        decreases input@.len() - i,
    {
        let ghost dictv = lzw_dict_view(dictionary@);
        let mut best: Option<usize> = None;
        let mut idx: usize = 0;
        while idx < dictionary.len()
            invariant
                idx <= dictionary@.len(),
                dictv == lzw_dict_view(dictionary@),
                match best {
                    Some(b) => b < dictionary@.len() && lzw_matches(
                        input@,
                        i as int,
                        dictv[b as int],
                        la,
                    ),
                    None => true,
                },
                lzw_best_scan(
                    input@,
                    i as int,
                    dictv,
                    idx as int,
                    la,
                    match best {
                        Some(b) => Some(b as int),
                        None => None::<int>,
                    },
                ) == lzw_best(input@, i as int, dictv, la),
            decreases dictionary@.len() - idx,
        {
            let entry_len = dictionary[idx].len();
            let usable = 1 <= entry_len && entry_len <= max_lookahead && entry_len <= in_len - i
                && prefix_matches_at(input, i, &dictionary[idx]);
            proof {
                assert(usable == lzw_matches(input@, i as int, dictv[idx as int], la));
            }
            if usable {
                let replace = match best {
                    None => true,
                    Some(b) => entry_len > dictionary[b].len(),
                };
                if replace {
                    best = Some(idx);
                }
            }
            idx = idx + 1;
        }
        let b = match best {
            Some(b) => b,
            None => {
                proof {
                    if initial@.contains(input@[i as int]) {
                        assert(lzw_contains(dictv, seq![input@[i as int]]));
                        let k = choose|k: int| 0 <= k < dictv.len() && dictv[k] == seq![
                            input@[i as int],
                        ];
                        if max_lookahead >= 1 {
                            assert(input@.subrange(i as int, i + 1) =~= seq![input@[i as int]]);
                            assert(lzw_matches(input@, i as int, dictv[k], la));
                            lemma_lzw_best_scan_props(input@, i as int, dictv, 0, la, None);
                            assert(false);
                        }
                    }
                }
                return Err(CodecError::SymbolNotInAlphabet);
            },
        };
        let blen = dictionary[b].len();
        let ghost out_pre = out@;
        let ghost i0 = i as int;
        out.push(b);
        i = i + blen;
        if i < in_len {
            let mut cand = dictionary[b].clone();
            proof {
                assert(cand@ =~= dictv[b as int]);
            }
            cand.push(input[i]);
            proof {
                assert(cand@ == dictv[b as int].push(input@[i as int]));
            }
            if !dict_contains(&dictionary, &cand) {
                dictionary.push(cand);
                proof {
                    assert(lzw_dict_view(dictionary@) =~= lzw_insert_novel(
                        dictv,
                        dictv[b as int].push(input@[i as int]),
                    ));
                }
            } else {
                proof {
                    assert(lzw_dict_view(dictionary@) =~= lzw_insert_novel(
                        dictv,
                        dictv[b as int].push(input@[i as int]),
                    ));
                }
            }
        }
        proof {
            assert(lzw_dict_nonempty(lzw_dict_view(dictionary@))) by {
                assert forall|k: int|
                    0 <= k < lzw_dict_view(dictionary@).len() implies lzw_dict_view(
                    dictionary@,
                )[k].len() >= 1 by {
                    if k < dictv.len() {
                        assert(lzw_dict_view(dictionary@)[k] == dictv[k]);
                    }
                }
            }
            assert forall|t: int|
                0 <= t < input@.len() && initial@.contains(#[trigger] input@[t]) implies lzw_contains(
                lzw_dict_view(dictionary@),
                seq![input@[t]],
            ) by {
                assert(lzw_contains(dictv, seq![input@[t]]));
                let w = choose|w: int| 0 <= w < dictv.len() && dictv[w] == seq![input@[t]];
                assert(lzw_dict_view(dictionary@)[w] == seq![input@[t]]);
            }
            match lzw_encode_from(input@, i as int, lzw_dict_view(dictionary@), la) {
                Some(rest) => {
                    assert(out@ + rest =~= out_pre + (seq![b] + rest));
                },
                None => {},
            }
        }
    }
    proof {
        let p = lzw_encode_from(input@, in_len as int, lzw_dict_view(dictionary@), la);
        assert(p == Some(Seq::<usize>::empty()));
        assert(out@ + Seq::<usize>::empty() =~= out@);
        lemma_lzw_round_trip(input@, initial@, la);
    }
    Ok(out)
}

/// Decodes a stream of LZW tokens over the alphabet `initial`.
///
/// Returns the decoded symbols exactly when every token names a dictionary
/// run built before it; otherwise returns `Err(CodecError::IndexOutOfRange)`.
pub fn lzw_decode(input: &[usize], initial: &[u8]) -> (r: Result<Vec<u8>, CodecError>)
    ensures
        match r {
            Ok(out) => lzw_decode_spec(input@, initial@) == Some(out@),
            Err(e) => lzw_decode_spec(input@, initial@) is None && e == CodecError::IndexOutOfRange,
        },
{
    let mut dictionary: Vec<Vec<u8>> = build_init_dict(initial);
    let mut out: Vec<u8> = Vec::new();
    let in_len = input.len();
    proof {
        assert(input@.len() == in_len as int);
        assert(input@.skip(0) =~= input@);
        match lzw_decode_from(input@, lzw_dict_view(dictionary@)) {
            Some(rest) => {
                assert(out@ + rest =~= rest);
            },
            None => {},
        }
    }
    let mut t: usize = 0;
    while t < in_len
        invariant
            t <= input@.len(),
            in_len == input@.len(),
            lzw_dict_nonempty(lzw_dict_view(dictionary@)),
            lzw_decode_spec(input@, initial@) == match lzw_decode_from(
                input@.skip(t as int),
                lzw_dict_view(dictionary@),
            ) {
                Some(rest) => Some(out@ + rest),
                None => None::<Seq<u8>>,
            },
        decreases input@.len() - t,
    {
        let ghost dictv = lzw_dict_view(dictionary@);
        let ghost toks = input@.skip(t as int);
        proof {
            assert(toks[0] == input@[t as int]);
        }
        let tok = input[t];
        if tok >= dictionary.len() {
            return Err(CodecError::IndexOutOfRange);
        }
        let entry = dictionary[tok].clone();
        proof {
            assert(entry@ =~= dictv[tok as int]);
        }
        let ghost out_pre = out@;
        let mut u: usize = 0;
        while u < entry.len()
            invariant
                u <= entry@.len(),
                out@ =~= out_pre + entry@.take(u as int),
            decreases entry@.len() - u,
        {
            let c = entry[u];
            out.push(c);
            u = u + 1;
            proof {
                assert(entry@.take(u as int) =~= entry@.take(u - 1).push(entry@[u - 1]));
            }
        }
        proof {
            assert(entry@.take(entry@.len() as int) =~= entry@);
            assert(out@ =~= out_pre + entry@);
        }
        if t + 1 < in_len {
            let next_tok = input[t + 1];
            let c: u8 = if next_tok < dictionary.len() {
                dictionary[next_tok][0]
            } else {
                entry[0]
            };
            let mut cand = entry;
            cand.push(c);
            proof {
                assert(cand@ == dictv[tok as int].push(c));
                assert(toks[1] == input@[t + 1]);
                assert(cand@ == dictv[tok as int].push(
                    if 0 <= toks[1] < dictv.len() {
                        dictv[toks[1] as int][0]
                    } else {
                        dictv[tok as int][0]
                    },
                ));
            }
            if !dict_contains(&dictionary, &cand) {
                dictionary.push(cand);
            }
            proof {
                assert(lzw_dict_view(dictionary@) =~= lzw_grow(dictv, dictv[tok as int], toks[1] as int));
            }
        }
        proof {
            assert(lzw_dict_nonempty(lzw_dict_view(dictionary@))) by {
                assert forall|k: int|
                    0 <= k < lzw_dict_view(dictionary@).len() implies lzw_dict_view(
                    dictionary@,
                )[k].len() >= 1 by {
                    if k < dictv.len() {
                        assert(lzw_dict_view(dictionary@)[k] == dictv[k]);
                    }
                }
            }
            assert(toks.skip(1) =~= input@.skip(t + 1));
            match lzw_decode_from(input@.skip(t + 1), lzw_dict_view(dictionary@)) {
                Some(rest) => {
                    assert(out@ + rest =~= out_pre + (dictv[tok as int] + rest));
                },
                None => {},
            }
        }
        t = t + 1;
    }
    proof {
        assert(input@.skip(input@.len() as int) =~= Seq::<usize>::empty());
        assert(out@ + Seq::<u8>::empty() =~= out@);
    }
    Ok(out)
}

} // verus!
