//! LZ78: an incremental-dictionary substitution codec.
//!
//! The encoder scans a dictionary of previously resolved symbol runs for the
//! longest entry matching the text at the cursor (ties broken by the lowest,
//! oldest index), emits a `(dictionary index, next symbol)` pair, and inserts
//! the pair's resolution back into the dictionary. The dictionary has a
//! caller-chosen capacity; once full, slot 0 is overwritten — oldest by
//! insertion order, not least recently used — so the decoder must be given
//! the same capacity to keep its dictionary in lockstep.

use vstd::prelude::*;

use crate::errors::CodecError;

verus! {

/// One LZ78 entry: the resolution of the dictionary entry at `index` (empty
/// when `index` is absent) followed by `next_char` if present.
#[derive(Clone, Copy, Debug)]
pub struct LZ78entry {
    pub index: Option<usize>,
    pub next_char: Option<u8>,
}

/// The sequences held by an executable dictionary.
pub open spec fn dict_view(d: Seq<Vec<u8>>) -> Seq<Seq<u8>> {
    d.map_values(|v: Vec<u8>| v@)
}

/// The symbol run an entry stands for, given the dictionary built so far.
pub open spec fn lz78_resolve_spec(dict: Seq<Seq<u8>>, e: LZ78entry) -> Seq<u8> {
    let base = match e.index {
        Some(i) => dict[i as int],
        None => Seq::empty(),
    };
    match e.next_char {
        Some(c) => base.push(c),
        None => base,
    }
}

/// Whether an entry's index refers inside a dictionary of `dict_len` entries.
pub open spec fn lz78_entry_valid(dict_len: nat, e: LZ78entry) -> bool {
    e.index is Some ==> (e.index->Some_0 as int) < dict_len
}

/// The dictionary after inserting one resolved run: append while below
/// capacity, overwrite slot 0 once full.
pub open spec fn lz78_dict_insert(dict: Seq<Seq<u8>>, cap: nat, s: Seq<u8>) -> Seq<Seq<u8>> {
    if dict.len() == cap {
        dict.update(0, s)
    } else {
        dict.push(s)
    }
}

/// Law: an insert never grows the dictionary beyond its configured capacity.
pub proof fn lemma_lz78_dict_bounded(dict: Seq<Seq<u8>>, cap: nat, s: Seq<u8>)
    requires
        dict.len() <= cap,
        1 <= cap,
    ensures
        lz78_dict_insert(dict, cap, s).len() <= cap,
{
}

/// Whether dictionary entry `entry` is usable as the match at position `i`:
/// within the lookahead, leaving room for a trailing symbol, and equal to the
/// input there.
pub open spec fn lz78_matches(input: Seq<u8>, i: int, entry: Seq<u8>, lookahead_max: nat) -> bool {
    &&& entry.len() <= lookahead_max
    &&& i + entry.len() + 1 <= input.len()
    &&& entry == input.subrange(i, i + entry.len())
}

/// The index of the longest usable dictionary entry, scanning indices upward
/// from `idx` with the best-so-far `best`; only a strictly longer entry
/// replaces it, so ties keep the lowest (oldest) index.
pub open spec fn lz78_best_scan(
    input: Seq<u8>,
    i: int,
    dict: Seq<Seq<u8>>,
    idx: int,
    lookahead_max: nat,
    best: Option<int>,
) -> Option<int>
    decreases dict.len() - idx,
{
    if idx < 0 || idx >= dict.len() {
        best
    } else {
        let better = if lz78_matches(input, i, dict[idx], lookahead_max) && (match best {
            None => true,
            Some(b) => dict[idx].len() > dict[b].len(),
        }) {
            Some(idx)
        } else {
            best
        };
        lz78_best_scan(input, i, dict, idx + 1, lookahead_max, better)
    }
}

/// The match the encoder picks at position `i`.
pub open spec fn lz78_best(input: Seq<u8>, i: int, dict: Seq<Seq<u8>>, lookahead_max: nat) -> Option<
    int,
> {
    lz78_best_scan(input, i, dict, 0, lookahead_max, None)
}

/// The entry the encoder emits at position `i`.
pub open spec fn lz78_step(input: Seq<u8>, i: int, dict: Seq<Seq<u8>>, lookahead_max: nat) -> LZ78entry {
    match lz78_best(input, i, dict, lookahead_max) {
        Some(idx) => LZ78entry {
            index: Some(idx as usize),
            next_char: Some(input[i + dict[idx].len()]),
        },
        None => LZ78entry { index: None, next_char: Some(input[i]) },
    }
}

/// The entries emitted from cursor position `i`, with the dictionary built up
/// so far.
pub open spec fn lz78_encode_from(
    input: Seq<u8>,
    i: int,
    dict: Seq<Seq<u8>>,
    lookahead_max: nat,
    cap: nat,
) -> Seq<LZ78entry>
    decreases input.len() - i,
{
    if i < 0 || i >= input.len() {
        Seq::empty()
    } else {
        let best = lz78_best(input, i, dict, lookahead_max);
        let e = lz78_step(input, i, dict, lookahead_max);
        let adv: int = match best {
            Some(idx) => dict[idx].len() as int + 1,
            None => 1,
        };
        let i2 = if i + adv <= input.len() {
            i + adv
        } else {
            input.len() as int
        };
        seq![e] + lz78_encode_from(
            input,
            i2,
            lz78_dict_insert(dict, cap, lz78_resolve_spec(dict, e)),
            lookahead_max,
            cap,
        )
    }
}

/// The entry stream the encoder produces for `input`.
pub open spec fn lz78_encode_spec(input: Seq<u8>, lookahead_max: nat, cap: nat) -> Seq<LZ78entry> {
    lz78_encode_from(input, 0, Seq::empty(), lookahead_max, cap)
}

/// The output after resolving every entry against the dictionary built so
/// far, inserting each resolution under the same capacity rule the encoder
/// used, or `None` when an index lies outside the dictionary.
pub open spec fn lz78_decode_from(
    entries: Seq<LZ78entry>,
    dict: Seq<Seq<u8>>,
    out: Seq<u8>,
    cap: nat,
) -> Option<Seq<u8>>
    decreases entries.len(),
{
    if entries.len() == 0 {
        Some(out)
    } else if !lz78_entry_valid(dict.len(), entries[0]) {
        None
    } else {
        let r = lz78_resolve_spec(dict, entries[0]);
        lz78_decode_from(entries.skip(1), lz78_dict_insert(dict, cap, r), out + r, cap)
    }
}

/// The symbol sequence a stream of entries decodes to under capacity `cap`.
pub open spec fn lz78_decode_spec(entries: Seq<LZ78entry>, cap: nat) -> Option<Seq<u8>> {
    lz78_decode_from(entries, Seq::empty(), Seq::empty(), cap)
}

/// What the scan's result means: a returned index names a usable entry.
proof fn lemma_lz78_best_scan_props(
    input: Seq<u8>,
    i: int,
    dict: Seq<Seq<u8>>,
    idx: int,
    lookahead_max: nat,
    best: Option<int>,
)
    requires
        0 <= idx,
        best matches Some(b) ==> 0 <= b < dict.len() && lz78_matches(
            input,
            i,
            dict[b],
            lookahead_max,
        ),
    ensures
        ({
            let r = lz78_best_scan(input, i, dict, idx, lookahead_max, best);
            r matches Some(b) ==> 0 <= b < dict.len() && lz78_matches(
                input,
                i,
                dict[b],
                lookahead_max,
            )
        }),
    decreases dict.len() - idx,
{
    if idx < dict.len() {
        let better = if lz78_matches(input, i, dict[idx], lookahead_max) && (match best {
            None => true,
            Some(b) => dict[idx].len() > dict[b].len(),
        }) {
            Some(idx)
        } else {
            best
        };
        lemma_lz78_best_scan_props(input, i, dict, idx + 1, lookahead_max, better);
    }
}

/// Law: replaying the encoder's entries from any cursor position, against the
/// same dictionary state, reproduces the whole input: the two dictionaries
/// stay in lockstep even across slot-0 overwrites, because each entry is
/// resolved against the dictionary as it stood when the entry was emitted.
proof fn lemma_lz78_round_trip_from(
    input: Seq<u8>,
    i: int,
    dict: Seq<Seq<u8>>,
    lookahead_max: nat,
    cap: nat,
)
    requires
        0 <= i <= input.len(),
        input.len() <= usize::MAX,
        dict.len() <= cap <= usize::MAX,
        i < input.len() ==> cap >= 1,
    ensures
        lz78_decode_from(
            lz78_encode_from(input, i, dict, lookahead_max, cap),
            dict,
            input.take(i),
            cap,
        ) == Some(input),
    decreases input.len() - i,
{
    if i >= input.len() {
        assert(input.take(i) =~= input);
    } else {
        let best = lz78_best(input, i, dict, lookahead_max);
        lemma_lz78_best_scan_props(input, i, dict, 0, lookahead_max, None);
        let e = lz78_step(input, i, dict, lookahead_max);
        let r = lz78_resolve_spec(dict, e);
        let out = input.take(i);
        let adv: int = match best {
            Some(idx) => dict[idx].len() as int + 1,
            None => 1,
        };
        let i2 = i + adv;
        match best {
            Some(idx) => {
                assert(lz78_matches(input, i, dict[idx], lookahead_max));
                assert(i + adv <= input.len());
                assert(e.index == Some(idx as usize));
                assert((idx as usize) as int == idx);
                assert(lz78_entry_valid(dict.len(), e));
                assert(r == dict[idx].push(input[i + dict[idx].len()]));
                assert(r =~= input.subrange(i, i2));
            },
            None => {
                assert(lz78_entry_valid(dict.len(), e));
                assert(r == Seq::<u8>::empty().push(input[i]));
                assert(r =~= input.subrange(i, i2));
            },
        }
        assert(out + r =~= input.take(i2));
        let dict2 = lz78_dict_insert(dict, cap, r);
        assert(dict2.len() <= cap) by {
            if dict.len() == cap {
                assert(dict2 =~= dict.update(0, r));
            }
        }
        let entries = lz78_encode_from(input, i, dict, lookahead_max, cap);
        let rest = lz78_encode_from(input, i2, dict2, lookahead_max, cap);
        assert(entries == seq![e] + rest);
        assert(entries[0] == e);
        assert(entries.skip(1) =~= rest);
        lemma_lz78_round_trip_from(input, i2, dict2, lookahead_max, cap);
        assert(lz78_decode_from(entries, dict, out, cap) == lz78_decode_from(
            rest,
            dict2,
            input.take(i2),
            cap,
        ));
    }
}

/// Law: for every input, decoding the encoder's entry stream with the same
/// capacity reproduces the input exactly.
pub proof fn lemma_lz78_round_trip(input: Seq<u8>, lookahead_max: nat, cap: nat)
    requires
        input.len() <= usize::MAX,
        cap <= usize::MAX,
        input.len() > 0 ==> cap >= 1,
    ensures
        lz78_decode_spec(lz78_encode_spec(input, lookahead_max, cap), cap) == Some(input),
{
    lemma_lz78_round_trip_from(input, 0, Seq::empty(), lookahead_max, cap);
    assert(input.take(0) =~= Seq::<u8>::empty());
}

impl LZ78entry {
    /// The symbol run this entry stands for, read from the dictionary built
    /// so far.
    pub fn resolve(&self, dictionary: &Vec<Vec<u8>>) -> (r: Vec<u8>)
        requires
            lz78_entry_valid(dictionary@.len(), *self),
        ensures
            r@ == lz78_resolve_spec(dict_view(dictionary@), *self),
    {
        let mut res: Vec<u8> = match self.index {
            Some(i) => {
                let c = dictionary[i].clone();
                proof {
                    assert(c@ =~= dictionary@[self.index->Some_0 as int]@);
                }
                c
            },
            None => Vec::new(),
        };
        if let Some(c) = self.next_char {
            res.push(c);
        }
        res
    }
}

/// Whether `entry` equals the input at positions `i..i + entry.len()`.
fn prefix_matches(input: &[u8], i: usize, entry: &Vec<u8>) -> (r: bool)
    requires
        i + entry@.len() <= input@.len(),
    ensures
        r == (entry@ == input@.subrange(i as int, i + entry@.len())),
{
    let in_len = input.len();
    proof {
        assert(input@.len() == in_len as int);
    }
    let mut t: usize = 0;
    while t < entry.len()
        invariant
            t <= entry@.len(),
            forall|u: int| 0 <= u < t ==> entry@[u] == input@[i + u],
        decreases entry@.len() - t,
    {
        if entry[t] != input[i + t] {
            proof {
                assert(entry@[t as int] != input@.subrange(i as int, i + entry@.len())[t as int]);
            }
            return false;
        }
        t = t + 1;
    }
    proof {
        assert(entry@ =~= input@.subrange(i as int, i + entry@.len()));
    }
    true
}

/// Encodes `input` into LZ78 entries, matching dictionary entries of at most
/// `lookahead_max` symbols against a dictionary of at most
/// `max_dictionary_size` runs.
pub fn lz78_encode(input: &[u8], lookahead_max: usize, max_dictionary_size: usize) -> (out: Vec<
    LZ78entry,
>)
    requires
        input@.len() > 0 ==> max_dictionary_size >= 1,
    ensures
        out@ == lz78_encode_spec(input@, lookahead_max as nat, max_dictionary_size as nat),
        lz78_decode_spec(out@, max_dictionary_size as nat) == Some(input@),
{
    let ghost la = lookahead_max as nat;
    let ghost cap = max_dictionary_size as nat;
    let mut out: Vec<LZ78entry> = Vec::new();
    let mut dictionary: Vec<Vec<u8>> = Vec::new();
    proof {
        assert(dict_view(dictionary@) =~= Seq::<Seq<u8>>::empty());
        assert(out@ + lz78_encode_from(input@, 0, dict_view(dictionary@), la, cap)
            =~= lz78_encode_spec(input@, la, cap));
    }
    let mut i: usize = 0;
    while i < input.len()
        invariant
            i <= input@.len(),
            dictionary@.len() <= max_dictionary_size,
            lz78_encode_spec(input@, la, cap) =~= out@ + lz78_encode_from(
                input@,
                i as int,
                dict_view(dictionary@),
                la,
                cap,
            ),
        decreases input@.len() - i,
    {
        let ghost dictv = dict_view(dictionary@);
        let mut best: Option<usize> = None;
        let mut idx: usize = 0;
        while idx < dictionary.len()
            invariant
                idx <= dictionary@.len(),
                match best {
                    Some(b) => b < dictionary@.len() && lz78_matches(input@, i as int, dictv[b as int], la),
                    None => true,
                },
                lz78_best_scan(
                    input@,
                    i as int,
                    dictv,
                    idx as int,
                    la,
                    match best {
                        Some(b) => Some(b as int),
                        None => None::<int>,
                    },
                ) == lz78_best(input@, i as int, dictv, la),
            decreases dictionary@.len() - idx,
        {
            let entry_len = dictionary[idx].len();
            let usable = entry_len <= lookahead_max && entry_len < input.len() - i
                && prefix_matches(input, i, &dictionary[idx]);
            proof {
                assert(usable == lz78_matches(input@, i as int, dictv[idx as int], la));
            }
            if usable {
                let replace = match best {
                    None => true,
                    Some(b) => entry_len > dictionary[b].len(),
                };
                if replace {
                    best = Some(idx);
                }
            }
            idx = idx + 1;
        }
        let ghost beste = lz78_best(input@, i as int, dictv, la);
        proof {
            assert(beste == match best {
                Some(b) => Some(b as int),
                None => None::<int>,
            });
        }
        let entry = match best {
            Some(b) => {
                let blen = dictionary[b].len();
                LZ78entry { index: Some(b), next_char: Some(input[i + blen]) }
            },
            None => LZ78entry { index: None, next_char: Some(input[i]) },
        };
        proof {
            assert(entry == lz78_step(input@, i as int, dictv, la));
            assert(lz78_entry_valid(dictionary@.len(), entry));
        }
        let new_dict_entry = entry.resolve(&dictionary);
        let new_len = new_dict_entry.len();
        let ghost out_pre = out@;
        let ghost i0 = i as int;
        if dictionary.len() == max_dictionary_size {
            dictionary.set(0, new_dict_entry);
            proof {
                assert(dict_view(dictionary@) =~= lz78_dict_insert(
                    dictv,
                    cap,
                    lz78_resolve_spec(dictv, entry),
                ));
            }
        } else {
            dictionary.push(new_dict_entry);
            proof {
                assert(dict_view(dictionary@) =~= lz78_dict_insert(
                    dictv,
                    cap,
                    lz78_resolve_spec(dictv, entry),
                ));
            }
        }
        out.push(entry);
        match best {
            Some(b) => {
                let ghost blen = dictv[b as int].len();
                i = i + new_len;
                proof {
                    assert(new_len == blen + 1);
                    assert(i as int == i0 + blen + 1);
                }
            },
            None => {
                i = i + 1;
            },
        }
        proof {
            assert(lz78_encode_from(input@, i0, dictv, la, cap) =~= seq![entry]
                + lz78_encode_from(input@, i as int, dict_view(dictionary@), la, cap));
            assert(out@ + lz78_encode_from(input@, i as int, dict_view(dictionary@), la, cap)
                =~= out_pre + (seq![entry] + lz78_encode_from(
                input@,
                i as int,
                dict_view(dictionary@),
                la,
                cap,
            )));
        }
    }
    proof {
        assert(lz78_encode_from(input@, input@.len() as int, dict_view(dictionary@), la, cap)
            =~= Seq::<LZ78entry>::empty());
        assert(out@ + Seq::<LZ78entry>::empty() =~= out@);
        lemma_lz78_round_trip(input@, la, cap);
    }
    out
}

/// Decodes a stream of LZ78 entries under the same dictionary capacity the
/// encoder used.
///
/// Returns the decoded symbols exactly when every entry's index refers to a
/// dictionary entry built before it; otherwise returns
/// `Err(CodecError::IndexOutOfRange)`.
pub fn lz78_decode(input: &[LZ78entry], max_dictionary_size: usize) -> (r: Result<
    Vec<u8>,
    CodecError,
>)
    requires
        input@.len() > 0 ==> max_dictionary_size >= 1,
    ensures
        match r {
            Ok(out) => lz78_decode_spec(input@, max_dictionary_size as nat) == Some(out@),
            Err(e) => lz78_decode_spec(input@, max_dictionary_size as nat) is None && e
                == CodecError::IndexOutOfRange,
        },
{
    let ghost cap = max_dictionary_size as nat;
    let mut out: Vec<u8> = Vec::new();
    let mut dictionary: Vec<Vec<u8>> = Vec::new();
    proof {
        assert(input@.skip(0) =~= input@);
        assert(dict_view(dictionary@) =~= Seq::<Seq<u8>>::empty());
        assert(out@ =~= Seq::<u8>::empty());
    }
    let mut idx: usize = 0;
    while idx < input.len()
        invariant
            idx <= input@.len(),
            dictionary@.len() <= max_dictionary_size,
            lz78_decode_spec(input@, cap) == lz78_decode_from(
                input@.skip(idx as int),
                dict_view(dictionary@),
                out@,
                cap,
            ),
        decreases input@.len() - idx,
    {
        let ghost rest = input@.skip(idx as int);
        let ghost dictv = dict_view(dictionary@);
        let e = input[idx];
        proof {
            assert(rest[0] == e);
        }
        if let Some(i) = e.index {
            if i >= dictionary.len() {
                return Err(CodecError::IndexOutOfRange);
            }
        }
        let resolved = e.resolve(&dictionary);
        let ghost out_pre = out@;
        let mut t: usize = 0;
        while t < resolved.len()
            invariant
                t <= resolved@.len(),
                out@ =~= out_pre + resolved@.take(t as int),
            decreases resolved@.len() - t,
        {
            let c = resolved[t];
            out.push(c);
            t = t + 1;
            proof {
                assert(resolved@.take(t as int) =~= resolved@.take(t - 1).push(resolved@[t - 1]));
            }
        }
        proof {
            assert(resolved@.take(resolved@.len() as int) =~= resolved@);
            assert(out@ =~= out_pre + resolved@);
        }
        if dictionary.len() == max_dictionary_size {
            dictionary.set(0, resolved);
        } else {
            dictionary.push(resolved);
        }
        proof {
            assert(dict_view(dictionary@) =~= lz78_dict_insert(dictv, cap, lz78_resolve_spec(dictv, e)));
            assert(rest.skip(1) =~= input@.skip(idx + 1));
        }
        idx = idx + 1;
    }
    proof {
        assert(input@.skip(input@.len() as int) =~= Seq::<LZ78entry>::empty());
    }
    Ok(out)
}

} // verus!
