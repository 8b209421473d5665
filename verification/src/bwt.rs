//! Burrows-Wheeler transform.
//!
//! Encoding sorts all cyclic rotations of the input lexicographically (ties
//! between equal rotations keep the smaller start index, as a stable sort
//! does), outputs the last symbol of each sorted rotation, and reports the
//! rank of the rotation that starts at position 0 — the primary index needed
//! for inversion. Decoding sorts the `(position, symbol)` pairs of the
//! transformed text stably by symbol to recover the successor table, then
//! walks it from the primary index for one step per symbol.

use vstd::prelude::*;

use crate::errors::CodecError;

verus! {

/// The cyclic rotation of `input` starting at position `j`.
pub open spec fn rotation(input: Seq<u8>, j: int) -> Seq<u8> {
    input.skip(j) + input.take(j)
}

/// Strict lexicographic order on byte sequences; a proper prefix precedes
/// its extensions.
pub open spec fn lex_lt(a: Seq<u8>, b: Seq<u8>) -> bool
    decreases a.len(),
{
    if b.len() == 0 {
        false
    } else if a.len() == 0 {
        true
    } else if a[0] < b[0] {
        true
    } else if a[0] > b[0] {
        false
    } else {
        lex_lt(a.skip(1), b.skip(1))
    }
}

/// The strict total order the rotation sort uses: by rotation text, with
/// equal rotations ordered by start index, which is what a stable sort of
/// the rotation starts `0..n` produces.
pub open spec fn rot_lt(input: Seq<u8>, a: int, b: int) -> bool {
    ||| lex_lt(rotation(input, a), rotation(input, b))
    ||| (rotation(input, a) == rotation(input, b) && a < b)
}

/// `s` with start index `j` inserted before the first entry it precedes.
pub open spec fn rot_insert(input: Seq<u8>, s: Seq<usize>, j: usize) -> Seq<usize>
    decreases s.len(),
{
    if s.len() == 0 {
        seq![j]
    } else if rot_lt(input, j as int, s[0] as int) {
        seq![j] + s
    } else {
        seq![s[0]] + rot_insert(input, s.skip(1), j)
    }
}

/// The rotation starts `0..m` in sorted order.
pub open spec fn rot_sorted_upto(input: Seq<u8>, m: nat) -> Seq<usize>
    decreases m,
{
    if m == 0 {
        Seq::empty()
    } else {
        rot_insert(input, rot_sorted_upto(input, (m - 1) as nat), (m - 1) as usize)
    }
}

/// The rotation starts of `input` sorted lexicographically.
pub open spec fn bwt_ranks(input: Seq<u8>) -> Seq<usize> {
    rot_sorted_upto(input, input.len())
}

/// The last symbol of the rotation starting at `j`: the symbol just before
/// `j` in the original text, cyclically.
pub open spec fn rot_last(input: Seq<u8>, j: int) -> u8 {
    if j == 0 {
        input[input.len() - 1]
    } else {
        input[j - 1]
    }
}

/// The transformed text: the last symbol of each sorted rotation.
pub open spec fn bwt_output(input: Seq<u8>) -> Seq<u8> {
    Seq::new(input.len(), |r: int| rot_last(input, bwt_ranks(input)[r] as int))
}

/// The stable order of the decoder's `(position, symbol)` pairs: by symbol,
/// ties by original position.
pub open spec fn pair_lt(p: (usize, u8), q: (usize, u8)) -> bool {
    p.1 < q.1 || (p.1 == q.1 && p.0 < q.0)
}

/// `s` with pair `p` inserted before the first entry it precedes.
pub open spec fn pair_insert(s: Seq<(usize, u8)>, p: (usize, u8)) -> Seq<(usize, u8)>
    decreases s.len(),
{
    if s.len() == 0 {
        seq![p]
    } else if pair_lt(p, s[0]) {
        seq![p] + s
    } else {
        seq![s[0]] + pair_insert(s.skip(1), p)
    }
}

/// The pairs `(k, input[k])` for `k < m`, sorted stably by symbol.
pub open spec fn pair_sorted_upto(input: Seq<u8>, m: nat) -> Seq<(usize, u8)>
    decreases m,
{
    if m == 0 {
        Seq::empty()
    } else {
        pair_insert(pair_sorted_upto(input, (m - 1) as nat), ((m - 1) as usize, input[m - 1]))
    }
}

/// The decoder's successor table for the transformed text `input`.
pub open spec fn bwt_table(input: Seq<u8>) -> Seq<(usize, u8)> {
    pair_sorted_upto(input, input.len())
}

/// The symbols emitted by walking the successor table from `start` for
/// `steps` steps.
pub open spec fn bwt_walk(table: Seq<(usize, u8)>, start: int, steps: nat) -> Seq<u8>
    decreases steps,
{
    if steps == 0 {
        Seq::empty()
    } else {
        seq![table[start].1] + bwt_walk(table, table[start].0 as int, (steps - 1) as nat)
    }
}

/// The text recovered from the transformed text `input` and primary `index`:
/// one table step per input symbol.
pub open spec fn bwt_decode_spec(input: Seq<u8>, index: int) -> Seq<u8> {
    bwt_walk(bwt_table(input), index, input.len())
}

/// `lex_lt` is decided by the first position where the sequences differ.
proof fn lemma_lex_lt_first_diff(a: Seq<u8>, b: Seq<u8>, t: int)
    requires
        a.len() == b.len(),
        0 <= t < a.len(),
        forall|u: int| 0 <= u < t ==> a[u] == b[u],
        a[t] != b[t],
    ensures
        lex_lt(a, b) == (a[t] < b[t]),
    decreases t,
{
    if t == 0 {
    } else {
        assert(a[0] == b[0]);
        assert forall|u: int| 0 <= u < t - 1 implies a.skip(1)[u] == b.skip(1)[u] by {
            assert(a[u + 1] == b[u + 1]);
        }
        assert(a.skip(1)[t - 1] == a[t]);
        assert(b.skip(1)[t - 1] == b[t]);
        lemma_lex_lt_first_diff(a.skip(1), b.skip(1), t - 1);
    }
}

/// No sequence lexicographically precedes itself.
proof fn lemma_lex_lt_irreflexive(a: Seq<u8>)
    ensures
        !lex_lt(a, a),
    decreases a.len(),
{
    if a.len() > 0 {
        lemma_lex_lt_irreflexive(a.skip(1));
    }
}

/// `lex_lt` is transitive.
proof fn lemma_lex_lt_trans(a: Seq<u8>, b: Seq<u8>, c: Seq<u8>)
    requires
        lex_lt(a, b),
        lex_lt(b, c),
    ensures
        lex_lt(a, c),
    decreases a.len(),
{
    if a.len() == 0 {
    } else {
        if a[0] == b[0] && b[0] == c[0] {
            lemma_lex_lt_trans(a.skip(1), b.skip(1), c.skip(1));
        }
    }
}

/// `lex_lt` is connected: two sequences neither of which precedes the other
/// are equal.
proof fn lemma_lex_lt_connex(a: Seq<u8>, b: Seq<u8>)
    requires
        !lex_lt(a, b),
        !lex_lt(b, a),
    ensures
        a == b,
    decreases a.len(),
{
    if a.len() == 0 {
        assert(b.len() == 0);
        assert(a =~= b);
    } else {
        assert(b.len() > 0);
        assert(a[0] == b[0]);
        lemma_lex_lt_connex(a.skip(1), b.skip(1));
        assert(a =~= seq![a[0]] + a.skip(1));
        assert(b =~= seq![b[0]] + b.skip(1));
    }
}

/// The reflexive closure of `lex_lt` is a total order.
pub open spec fn lex_le(a: Seq<u8>, b: Seq<u8>) -> bool {
    lex_lt(a, b) || a == b
}

proof fn lemma_lex_le_total_ordering()
    ensures
        vstd::relations::total_ordering(|a: Seq<u8>, b: Seq<u8>| lex_le(a, b)),
{
    let leq = |a: Seq<u8>, b: Seq<u8>| lex_le(a, b);
    assert forall|a: Seq<u8>, b: Seq<u8>, c: Seq<u8>| #[trigger] leq(a, b) && #[trigger] leq(b, c)
        implies leq(a, c) by {
        if lex_lt(a, b) && lex_lt(b, c) {
            lemma_lex_lt_trans(a, b, c);
        }
    }
    assert forall|a: Seq<u8>, b: Seq<u8>| #[trigger] leq(a, b) && #[trigger] leq(b, a) implies a
        == b by {
        if lex_lt(a, b) && lex_lt(b, a) {
            lemma_lex_lt_trans(a, b, a);
            lemma_lex_lt_irreflexive(a);
        }
    }
    assert forall|a: Seq<u8>, b: Seq<u8>| #[trigger] leq(a, b) || #[trigger] leq(b, a) by {
        if !lex_lt(a, b) && !lex_lt(b, a) {
            lemma_lex_lt_connex(a, b);
        }
    }
}

/// The wrapped successor of a rotation start.
pub open spec fn next_start(j: int, n: int) -> int {
    if j + 1 == n {
        0
    } else {
        j + 1
    }
}

/// The rotation one step further is the same text rotated by one symbol.
proof fn lemma_rotation_shift(input: Seq<u8>, j: int)
    requires
        0 <= j < input.len(),
    ensures
        rotation(input, next_start(j, input.len() as int)) == rotation(input, j).skip(1)
            + rotation(input, j).take(1),
{
    let n = input.len() as int;
    if j + 1 == n {
        assert(rotation(input, 0) =~= rotation(input, j).skip(1) + rotation(input, j).take(1));
    } else {
        assert(rotation(input, j + 1) =~= rotation(input, j).skip(1) + rotation(input, j).take(1));
    }
}

/// Equal rotations have equal successor rotations.
proof fn lemma_rotation_shift_congruence(input: Seq<u8>, a: int, b: int)
    requires
        0 <= a < input.len(),
        0 <= b < input.len(),
        rotation(input, a) == rotation(input, b),
    ensures
        rotation(input, next_start(a, input.len() as int)) == rotation(
            input,
            next_start(b, input.len() as int),
        ),
{
    lemma_rotation_shift(input, a);
    lemma_rotation_shift(input, b);
}

/// The first symbol of the predecessor rotation is the last symbol of the
/// rotation itself.
proof fn lemma_prev_rotation(input: Seq<u8>, j: int)
    requires
        0 <= j < input.len(),
    ensures
        ({
            let p = if j == 0 {
                input.len() - 1
            } else {
                j - 1
            };
            &&& 0 <= p < input.len()
            &&& next_start(p, input.len() as int) == j
            &&& rotation(input, p)[0] == rot_last(input, j)
            &&& rotation(input, p) == seq![rot_last(input, j)] + rotation(input, j).take(
                input.len() - 1,
            )
        }),
{
    let n = input.len() as int;
    let p = if j == 0 {
        n - 1
    } else {
        j - 1
    };
    assert(rotation(input, p)[0] == rot_last(input, j));
    assert(rotation(input, p) =~= seq![rot_last(input, j)] + rotation(input, j).take(n - 1));
}

/// Prepending one element inserts it into the sequence's multiset.
proof fn lemma_cons_multiset<A>(e: A, s: Seq<A>)
    ensures
        (seq![e] + s).to_multiset() == s.to_multiset().insert(e),
{
    broadcast use vstd::seq_lib::group_to_multiset_ensures;
    broadcast use vstd::multiset::group_multiset_axioms;

    vstd::seq_lib::lemma_multiset_commutative(seq![e], s);
    assert(s + seq![e] =~= s.push(e));
    assert((seq![e] + s).to_multiset() =~= s.to_multiset().insert(e));
}

/// Mapping a function over two sequences with the same multiset yields
/// sequences with the same multiset.
proof fn lemma_map_multiset<A, B>(x: Seq<A>, y: Seq<A>, g: spec_fn(A) -> B)
    requires
        x.to_multiset() == y.to_multiset(),
    ensures
        x.map_values(g).to_multiset() == y.map_values(g).to_multiset(),
    decreases x.len(),
{
    broadcast use vstd::seq_lib::group_to_multiset_ensures;
    broadcast use vstd::multiset::group_multiset_axioms;

    if x.len() == 0 {
        assert(y.to_multiset().len() == 0);
        assert(y.len() == 0);
        assert(x.map_values(g) =~= y.map_values(g));
    } else {
        let e = x[0];
        assert(x.to_multiset().contains(e)) by {
            assert(x.contains(e));
        }
        assert(y.to_multiset().contains(e));
        assert(y.contains(e));
        let i = choose|i: int| 0 <= i < y.len() && y[i] == e;
        assert(x.remove(0).to_multiset() == x.to_multiset().remove(e));
        assert(y.remove(i).to_multiset() == y.to_multiset().remove(e));
        lemma_map_multiset(x.remove(0), y.remove(i), g);
        assert(x.remove(0).map_values(g) =~= x.map_values(g).remove(0));
        assert(y.remove(i).map_values(g) =~= y.map_values(g).remove(i));
        assert(x.map_values(g).remove(0).to_multiset() == x.map_values(g).to_multiset().remove(
            g(e),
        )) by {
            assert(x.map_values(g)[0] == g(e));
        }
        assert(y.map_values(g).remove(i).to_multiset() == y.map_values(g).to_multiset().remove(
            g(e),
        )) by {
            assert(y.map_values(g)[i] == g(e));
        }
        assert(x.map_values(g).to_multiset() =~= y.map_values(g).to_multiset()) by {
            assert(x.map_values(g).to_multiset().contains(g(e))) by {
                assert(x.map_values(g).contains(g(e))) by {
                    assert(x.map_values(g)[0] == g(e));
                }
            }
            assert(y.map_values(g).to_multiset().contains(g(e))) by {
                assert(y.map_values(g).contains(g(e))) by {
                    assert(y.map_values(g)[i] == g(e));
                }
            }
            assert(x.map_values(g).to_multiset().remove(g(e)).insert(g(e)) =~= x.map_values(
                g,
            ).to_multiset());
            assert(y.map_values(g).to_multiset().remove(g(e)).insert(g(e)) =~= y.map_values(
                g,
            ).to_multiset());
        }
    }
}

/// A sorted insert of a rotation start inserts it into the multiset.
proof fn lemma_rot_insert_multiset(input: Seq<u8>, s: Seq<usize>, j: usize)
    ensures
        rot_insert(input, s, j).to_multiset() == s.to_multiset().insert(j),
    decreases s.len(),
{
    broadcast use vstd::seq_lib::group_to_multiset_ensures;
    broadcast use vstd::multiset::group_multiset_axioms;

    if s.len() == 0 {
        assert(seq![j] =~= Seq::<usize>::empty().push(j));
        assert(seq![j].to_multiset() =~= s.to_multiset().insert(j));
    } else if rot_lt(input, j as int, s[0] as int) {
        lemma_cons_multiset(j, s);
    } else {
        lemma_rot_insert_multiset(input, s.skip(1), j);
        lemma_cons_multiset(s[0], rot_insert(input, s.skip(1), j));
        lemma_cons_multiset(s[0], s.skip(1));
        assert(s =~= seq![s[0]] + s.skip(1));
        assert(s.skip(1).to_multiset().insert(j).insert(s[0]) =~= s.skip(1).to_multiset().insert(
            s[0],
        ).insert(j));
    }
}

/// A sorted insert of a decoder pair inserts it into the multiset.
proof fn lemma_pair_insert_multiset(s: Seq<(usize, u8)>, p: (usize, u8))
    ensures
        pair_insert(s, p).to_multiset() == s.to_multiset().insert(p),
    decreases s.len(),
{
    broadcast use vstd::seq_lib::group_to_multiset_ensures;
    broadcast use vstd::multiset::group_multiset_axioms;

    if s.len() == 0 {
        assert(seq![p] =~= Seq::<(usize, u8)>::empty().push(p));
        assert(seq![p].to_multiset() =~= s.to_multiset().insert(p));
    } else if pair_lt(p, s[0]) {
        lemma_cons_multiset(p, s);
    } else {
        lemma_pair_insert_multiset(s.skip(1), p);
        lemma_cons_multiset(s[0], pair_insert(s.skip(1), p));
        lemma_cons_multiset(s[0], s.skip(1));
        assert(s =~= seq![s[0]] + s.skip(1));
        assert(s.skip(1).to_multiset().insert(p).insert(s[0]) =~= s.skip(1).to_multiset().insert(
            s[0],
        ).insert(p));
    }
}

/// The first `m` rotation starts in input order.
pub open spec fn id_starts(m: nat) -> Seq<usize> {
    Seq::new(m, |k: int| k as usize)
}

/// The decoder pairs `(k, input[k])` in input order.
pub open spec fn id_pairs(input: Seq<u8>, m: nat) -> Seq<(usize, u8)> {
    Seq::new(m, |k: int| (k as usize, input[k]))
}

/// The sorted starts are a permutation of the starts in input order.
proof fn lemma_rot_sorted_multiset(input: Seq<u8>, m: nat)
    ensures
        rot_sorted_upto(input, m).to_multiset() == id_starts(m).to_multiset(),
    decreases m,
{
    broadcast use vstd::seq_lib::group_to_multiset_ensures;

    if m == 0 {
        assert(rot_sorted_upto(input, m) =~= id_starts(m));
    } else {
        lemma_rot_sorted_multiset(input, (m - 1) as nat);
        lemma_rot_insert_multiset(input, rot_sorted_upto(input, (m - 1) as nat), (m - 1) as usize);
        assert(id_starts(m) =~= id_starts((m - 1) as nat).push((m - 1) as usize));
    }
}

/// The sorted table is a permutation of the pairs in input order.
proof fn lemma_pair_sorted_multiset(input: Seq<u8>, m: nat)
    ensures
        pair_sorted_upto(input, m).to_multiset() == id_pairs(input, m).to_multiset(),
    decreases m,
{
    broadcast use vstd::seq_lib::group_to_multiset_ensures;

    if m == 0 {
        assert(pair_sorted_upto(input, m) =~= id_pairs(input, m));
    } else {
        lemma_pair_sorted_multiset(input, (m - 1) as nat);
        lemma_pair_insert_multiset(
            pair_sorted_upto(input, (m - 1) as nat),
            ((m - 1) as usize, input[m - 1]),
        );
        assert(id_pairs(input, m) =~= id_pairs(input, (m - 1) as nat).push(
            ((m - 1) as usize, input[m - 1]),
        ));
    }
}

/// Pairwise strict sortedness of rotation starts.
pub open spec fn rot_sorted(input: Seq<u8>, s: Seq<usize>) -> bool {
    forall|i: int, j: int|
        0 <= i < j < s.len() ==> #[trigger] rot_lt(input, s[i] as int, s[j] as int)
}

/// Pairwise strict sortedness of decoder pairs.
pub open spec fn pairs_sorted(s: Seq<(usize, u8)>) -> bool {
    forall|i: int, j: int| 0 <= i < j < s.len() ==> #[trigger] pair_lt(s[i], s[j])
}

/// The rotation order is transitive.
proof fn lemma_rot_lt_trans(input: Seq<u8>, a: int, b: int, c: int)
    requires
        rot_lt(input, a, b),
        rot_lt(input, b, c),
    ensures
        rot_lt(input, a, c),
{
    let ra = rotation(input, a);
    let rb = rotation(input, b);
    let rc = rotation(input, c);
    if lex_lt(ra, rb) && lex_lt(rb, rc) {
        lemma_lex_lt_trans(ra, rb, rc);
    }
}

/// The rotation order decides every pair of distinct starts.
proof fn lemma_rot_lt_total(input: Seq<u8>, a: int, b: int)
    requires
        a != b,
    ensures
        rot_lt(input, a, b) || rot_lt(input, b, a),
{
    let ra = rotation(input, a);
    let rb = rotation(input, b);
    if !lex_lt(ra, rb) && !lex_lt(rb, ra) {
        lemma_lex_lt_connex(ra, rb);
    }
}

/// Inserting a start absent from a sorted sequence keeps it sorted.
proof fn lemma_rot_insert_sorted(input: Seq<u8>, s: Seq<usize>, j: usize)
    requires
        rot_sorted(input, s),
        forall|k: int| 0 <= k < s.len() ==> s[k] != j,
    ensures
        rot_sorted(input, rot_insert(input, s, j)),
    decreases s.len(),
{
    broadcast use vstd::seq_lib::group_to_multiset_ensures;
    broadcast use vstd::multiset::group_multiset_axioms;

    let r = rot_insert(input, s, j);
    if s.len() == 0 {
    } else if rot_lt(input, j as int, s[0] as int) {
        assert forall|i: int, k: int| 0 <= i < k < r.len() implies #[trigger] rot_lt(
            input,
            r[i] as int,
            r[k] as int,
        ) by {
            if i == 0 {
                assert(r[k] == s[k - 1]);
                if k > 1 {
                    assert(rot_lt(input, s[0] as int, s[k - 1] as int));
                    lemma_rot_lt_trans(input, j as int, s[0] as int, s[k - 1] as int);
                }
            } else {
                assert(r[i] == s[i - 1] && r[k] == s[k - 1]);
            }
        }
    } else {
        assert(s[0] != j);
        lemma_rot_lt_total(input, j as int, s[0] as int);
        assert(rot_lt(input, s[0] as int, j as int));
        assert forall|i: int, k: int|
            0 <= i < k < s.skip(1).len() implies #[trigger] rot_lt(
            input,
            s.skip(1)[i] as int,
            s.skip(1)[k] as int,
        ) by {
            assert(s.skip(1)[i] == s[i + 1] && s.skip(1)[k] == s[k + 1]);
            assert(rot_lt(input, s[i + 1] as int, s[k + 1] as int));
        }
        assert forall|k: int| 0 <= k < s.skip(1).len() implies s.skip(1)[k] != j by {
            assert(s.skip(1)[k] == s[k + 1]);
        }
        lemma_rot_insert_sorted(input, s.skip(1), j);
        let rr = rot_insert(input, s.skip(1), j);
        lemma_rot_insert_multiset(input, s.skip(1), j);
        assert forall|i: int, k: int| 0 <= i < k < r.len() implies #[trigger] rot_lt(
            input,
            r[i] as int,
            r[k] as int,
        ) by {
            if i == 0 {
                assert(r[k] == rr[k - 1]);
                let x = rr[k - 1];
                assert(rr.contains(x));
                assert(rr.to_multiset().contains(x));
                if x == j {
                    assert(rot_lt(input, s[0] as int, j as int));
                } else {
                    assert(s.skip(1).to_multiset().contains(x));
                    assert(s.skip(1).contains(x));
                    let w = choose|w: int| 0 <= w < s.skip(1).len() && s.skip(1)[w] == x;
                    assert(s[w + 1] == x);
                    assert(rot_lt(input, s[0] as int, s[w + 1] as int));
                }
            } else {
                assert(r[i] == rr[i - 1] && r[k] == rr[k - 1]);
                assert(rot_lt(input, rr[i - 1] as int, rr[k - 1] as int));
            }
        }
    }
}

/// The sorted rotation starts really are sorted.
proof fn lemma_rot_sorted_upto_sorted(input: Seq<u8>, m: nat)
    requires
        m <= usize::MAX,
    ensures
        rot_sorted(input, rot_sorted_upto(input, m)),
    decreases m,
{
    broadcast use vstd::seq_lib::group_to_multiset_ensures;
    broadcast use vstd::multiset::group_multiset_axioms;

    if m > 0 {
        lemma_rot_sorted_upto_sorted(input, (m - 1) as nat);
        let s = rot_sorted_upto(input, (m - 1) as nat);
        lemma_rot_sorted_multiset(input, (m - 1) as nat);
        assert forall|k: int| 0 <= k < s.len() implies s[k] != ((m - 1) as usize) by {
            assert(s.contains(s[k]));
            assert(s.to_multiset().contains(s[k]));
            assert(id_starts((m - 1) as nat).to_multiset().contains(s[k]));
            assert(id_starts((m - 1) as nat).contains(s[k]));
            let w = choose|w: int|
                0 <= w < id_starts((m - 1) as nat).len() && #[trigger] id_starts(
                    (m - 1) as nat,
                )[w] == s[k];
            assert(s[k] == w as usize);
            assert((s[k] as int) == w);
            assert(((m - 1) as usize) as int == m - 1);
        }
        lemma_rot_insert_sorted(input, s, (m - 1) as usize);
    }
}

/// The pair order is transitive and decides every pair of distinct pairs.
proof fn lemma_pair_lt_order()
    ensures
        forall|a: (usize, u8), b: (usize, u8), c: (usize, u8)|
            #[trigger] pair_lt(a, b) && #[trigger] pair_lt(b, c) ==> pair_lt(a, c),
        forall|a: (usize, u8), b: (usize, u8)| a != b ==> pair_lt(a, b) || #[trigger] pair_lt(b, a),
{
}

/// Inserting a pair absent from a sorted table keeps it sorted.
proof fn lemma_pair_insert_sorted(s: Seq<(usize, u8)>, p: (usize, u8))
    requires
        pairs_sorted(s),
        forall|k: int| 0 <= k < s.len() ==> s[k] != p,
    ensures
        pairs_sorted(pair_insert(s, p)),
    decreases s.len(),
{
    broadcast use vstd::seq_lib::group_to_multiset_ensures;
    broadcast use vstd::multiset::group_multiset_axioms;

    lemma_pair_lt_order();
    let r = pair_insert(s, p);
    if s.len() == 0 {
    } else if pair_lt(p, s[0]) {
        assert forall|i: int, k: int| 0 <= i < k < r.len() implies #[trigger] pair_lt(
            r[i],
            r[k],
        ) by {
            if i == 0 {
                assert(r[k] == s[k - 1]);
                if k > 1 {
                    assert(pair_lt(s[0], s[k - 1]));
                }
            } else {
                assert(r[i] == s[i - 1] && r[k] == s[k - 1]);
            }
        }
    } else {
        assert(pair_lt(s[0], p));
        assert forall|i: int, k: int|
            0 <= i < k < s.skip(1).len() implies #[trigger] pair_lt(
            s.skip(1)[i],
            s.skip(1)[k],
        ) by {
            assert(s.skip(1)[i] == s[i + 1] && s.skip(1)[k] == s[k + 1]);
            assert(pair_lt(s[i + 1], s[k + 1]));
        }
        assert forall|k: int| 0 <= k < s.skip(1).len() implies s.skip(1)[k] != p by {
            assert(s.skip(1)[k] == s[k + 1]);
        }
        lemma_pair_insert_sorted(s.skip(1), p);
        let rr = pair_insert(s.skip(1), p);
        lemma_pair_insert_multiset(s.skip(1), p);
        assert forall|i: int, k: int| 0 <= i < k < r.len() implies #[trigger] pair_lt(
            r[i],
            r[k],
        ) by {
            if i == 0 {
                assert(r[k] == rr[k - 1]);
                let x = rr[k - 1];
                assert(rr.contains(x));
                assert(rr.to_multiset().contains(x));
                if x == p {
                } else {
                    assert(s.skip(1).to_multiset().contains(x));
                    assert(s.skip(1).contains(x));
                    let w = choose|w: int| 0 <= w < s.skip(1).len() && s.skip(1)[w] == x;
                    assert(s[w + 1] == x);
                    assert(pair_lt(s[0], s[w + 1]));
                }
            } else {
                assert(r[i] == rr[i - 1] && r[k] == rr[k - 1]);
                assert(pair_lt(rr[i - 1], rr[k - 1]));
            }
        }
    }
}

/// The decoder's table really is sorted.
proof fn lemma_pair_sorted_upto_sorted(input: Seq<u8>, m: nat)
    requires
        m <= usize::MAX,
    ensures
        pairs_sorted(pair_sorted_upto(input, m)),
    decreases m,
{
    broadcast use vstd::seq_lib::group_to_multiset_ensures;
    broadcast use vstd::multiset::group_multiset_axioms;

    if m > 0 {
        lemma_pair_sorted_upto_sorted(input, (m - 1) as nat);
        let s = pair_sorted_upto(input, (m - 1) as nat);
        lemma_pair_sorted_multiset(input, (m - 1) as nat);
        assert forall|k: int| 0 <= k < s.len() implies s[k] != (
        ((m - 1) as usize, input[m - 1])) by {
            assert(s.contains(s[k]));
            assert(s.to_multiset().contains(s[k]));
            assert(id_pairs(input, (m - 1) as nat).to_multiset().contains(s[k]));
            assert(id_pairs(input, (m - 1) as nat).contains(s[k]));
            let w = choose|w: int|
                0 <= w < id_pairs(input, (m - 1) as nat).len() && #[trigger] id_pairs(
                    input,
                    (m - 1) as nat,
                )[w] == s[k];
            assert(s[k].0 == w as usize);
            assert((s[k].0 as int) == w);
            assert(((m - 1) as usize) as int == m - 1);
        }
        lemma_pair_insert_sorted(s, ((m - 1) as usize, input[m - 1]));
    }
}

/// The wrapped predecessor of a rotation start.
pub open spec fn prev_start(j: int, n: int) -> int {
    if j == 0 {
        n - 1
    } else {
        j - 1
    }
}

/// Truncating two ordered sequences to a common prefix length preserves
/// non-strict lexicographic order.
proof fn lemma_lex_le_take(a: Seq<u8>, b: Seq<u8>, m: int)
    requires
        a.len() == b.len(),
        lex_lt(a, b) || a == b,
        0 <= m <= a.len(),
    ensures
        lex_lt(a.take(m), b.take(m)) || a.take(m) == b.take(m),
    decreases m,
{
    if a == b {
        assert(a.take(m) =~= b.take(m));
    } else if m == 0 {
        assert(a.take(0) =~= b.take(0));
    } else {
        if a[0] < b[0] {
            lemma_lex_lt_first_diff(a.take(m), b.take(m), 0);
        } else {
            assert(a[0] == b[0]);
            lemma_lex_le_take(a.skip(1), b.skip(1), m - 1);
            assert(a.take(m).skip(1) =~= a.skip(1).take(m - 1));
            assert(b.take(m).skip(1) =~= b.skip(1).take(m - 1));
            if a.skip(1).take(m - 1) == b.skip(1).take(m - 1) {
                assert forall|i: int| 0 <= i < m implies a.take(m)[i] == b.take(m)[i] by {
                    if i >= 1 {
                        assert(a.take(m)[i] == a.skip(1).take(m - 1)[i - 1]);
                        assert(b.take(m)[i] == b.skip(1).take(m - 1)[i - 1]);
                    }
                }
                assert(a.take(m) =~= b.take(m));
            } else {
                assert(lex_lt(a.skip(1).take(m - 1), b.skip(1).take(m - 1)));
                assert(a.take(m)[0] == b.take(m)[0]);
                assert(lex_lt(a.take(m), b.take(m)));
            }
        }
    }
}

/// The LF mapping behind the inverse transform. Writing `ranks` for the
/// sorted rotation starts of `s` and `table` for the decoder's stable-sorted
/// successor table of the transformed text: the table's symbol column is the
/// first column of the sorted rotations, and following a table link from rank
/// `r` lands on a rank whose rotation equals the successor rotation of rank
/// `r`.
proof fn lemma_bwt_lf_mapping(s: Seq<u8>)
    requires
        1 <= s.len() <= usize::MAX,
    ensures
        ({
            let n = s.len() as int;
            let ranks = bwt_ranks(s);
            let table = bwt_table(bwt_output(s));
            &&& ranks.len() == n
            &&& table.len() == n
            &&& forall|r: int| 0 <= r < n ==> (#[trigger] ranks[r] as int) < n
            &&& forall|r: int| 0 <= r < n ==> (#[trigger] table[r]).0 < n
            &&& forall|r: int| 0 <= r < n ==> (#[trigger] table[r]).1 == s[ranks[r] as int]
            &&& forall|r: int|
                0 <= r < n ==> rotation(s, ranks[(#[trigger] table[r]).0 as int] as int)
                    == rotation(s, next_start(ranks[r] as int, n))
        }),
{
    broadcast use vstd::seq_lib::group_to_multiset_ensures;
    broadcast use vstd::multiset::group_multiset_axioms;

    let n = s.len() as int;
    let ranks = bwt_ranks(s);
    let lout = bwt_output(s);
    let table = bwt_table(lout);

    // Lengths and element bounds come from the permutation facts.
    lemma_rot_sorted_multiset(s, s.len());
    lemma_pair_sorted_multiset(lout, lout.len());
    assert(ranks.to_multiset().len() == id_starts(s.len()).to_multiset().len());
    assert(ranks.len() == n);
    assert(table.to_multiset().len() == id_pairs(lout, lout.len()).to_multiset().len());
    assert(table.len() == n);
    assert forall|r: int| 0 <= r < n implies (#[trigger] ranks[r] as int) < n by {
        assert(ranks.contains(ranks[r]));
        assert(ranks.to_multiset().contains(ranks[r]));
        assert(id_starts(s.len()).to_multiset().contains(ranks[r]));
        assert(id_starts(s.len()).contains(ranks[r]));
        let w = choose|w: int|
            0 <= w < id_starts(s.len()).len() && #[trigger] id_starts(s.len())[w] == ranks[r];
    }
    assert forall|r: int|
        0 <= r < n implies (#[trigger] table[r]).0 < n && table[r].1 == lout[table[r].0 as int] by {
        assert(table.contains(table[r]));
        assert(table.to_multiset().contains(table[r]));
        assert(id_pairs(lout, lout.len()).to_multiset().contains(table[r]));
        assert(id_pairs(lout, lout.len()).contains(table[r]));
        let w = choose|w: int|
            0 <= w < id_pairs(lout, lout.len()).len() && #[trigger] id_pairs(lout, lout.len())[w]
                == table[r];
        assert(table[r].0 == w as usize);
        assert(table[r].1 == lout[w]);
    }

    // The value column of the sorted rotations, and the same multiset of
    // rotations read through the table's links via each rank's predecessor.
    let bseq = Seq::new(n as nat, |r: int| rotation(s, ranks[r] as int));
    let aseq = Seq::new(
        n as nat,
        |r: int| rotation(s, prev_start(ranks[table[r].0 as int] as int, n)),
    );
    assert(forall|r: int| 0 <= r < n ==> #[trigger] bseq[r].len() == n);

    // Every predecessor rotation starts with the transformed symbol of its
    // rank and continues with the rank's rotation, truncated by one.
    assert forall|k: int| 0 <= k < n implies {
        &&& #[trigger] rotation(s, prev_start(ranks[k] as int, n)) == seq![lout[k]] + rotation(
            s,
            ranks[k] as int,
        ).take(n - 1)
        &&& rotation(s, prev_start(ranks[k] as int, n)).len() == n
        &&& next_start(prev_start(ranks[k] as int, n), n) == ranks[k] as int
    } by {
        lemma_prev_rotation(s, ranks[k] as int);
        assert(lout[k] == rot_last(s, ranks[k] as int));
    }

    // Both sequences are sorted under the lexicographic order.
    lemma_rot_sorted_upto_sorted(s, s.len());
    let leq = |a: Seq<u8>, b: Seq<u8>| lex_le(a, b);
    assert forall|i: int, j: int| 0 <= i < j < n implies #[trigger] leq(bseq[i], bseq[j]) by {
        assert(rot_lt(s, ranks[i] as int, ranks[j] as int));
    }
    assert(vstd::relations::sorted_by(bseq, leq));

    lemma_pair_sorted_upto_sorted(lout, lout.len());
    assert forall|i: int, j: int| 0 <= i < j < n implies #[trigger] leq(aseq[i], aseq[j]) by {
        assert(pair_lt(table[i], table[j]));
        let ki = table[i].0 as int;
        let kj = table[j].0 as int;
        let pi = rotation(s, prev_start(ranks[ki] as int, n));
        let pj = rotation(s, prev_start(ranks[kj] as int, n));
        assert(pi == seq![lout[ki]] + rotation(s, ranks[ki] as int).take(n - 1));
        assert(pj == seq![lout[kj]] + rotation(s, ranks[kj] as int).take(n - 1));
        assert(pi[0] == lout[ki] && pj[0] == lout[kj]);
        if lout[ki] < lout[kj] {
            lemma_lex_lt_first_diff(pi, pj, 0);
        } else {
            assert(lout[ki] == lout[kj] && ki < kj);
            assert(rot_lt(s, ranks[ki] as int, ranks[kj] as int));
            let fi = rotation(s, ranks[ki] as int);
            let fj = rotation(s, ranks[kj] as int);
            assert(fi.len() == n && fj.len() == n);
            lemma_lex_le_take(fi, fj, n - 1);
            assert(pi.skip(1) =~= fi.take(n - 1));
            assert(pj.skip(1) =~= fj.take(n - 1));
            if fi.take(n - 1) == fj.take(n - 1) {
                assert(pi =~= pj);
            } else {
                assert(lex_lt(fi.take(n - 1), fj.take(n - 1)));
                assert(pi.len() > 0 && pj.len() > 0 && pi[0] == pj[0]);
                assert(lex_lt(pi, pj));
            }
        }
    }
    assert(vstd::relations::sorted_by(aseq, leq));

    // The two sequences list the same rotations: each is the full rotation
    // multiset, reindexed through a permutation of the starts.
    let rot_of = |j: usize| rotation(s, j as int);
    let allrot = id_starts(s.len()).map_values(rot_of);
    assert(bseq =~= ranks.map_values(rot_of));
    lemma_map_multiset(ranks, id_starts(s.len()), rot_of);
    assert(bseq.to_multiset() == allrot.to_multiset());

    let fst = |p: (usize, u8)| p.0;
    let firsts = table.map_values(fst);
    assert(table.to_multiset() =~= id_pairs(lout, lout.len()).to_multiset());
    lemma_map_multiset(table, id_pairs(lout, lout.len()), fst);
    assert(id_pairs(lout, lout.len()).map_values(fst) =~= id_starts(s.len()));
    assert(firsts.to_multiset() == id_starts(s.len()).to_multiset());

    let prev_rot_of = |k: usize| rotation(s, prev_start(ranks[k as int] as int, n));
    assert(aseq =~= firsts.map_values(prev_rot_of));
    lemma_map_multiset(firsts, id_starts(s.len()), prev_rot_of);
    let pseq = id_starts(s.len()).map_values(prev_rot_of);
    assert(aseq.to_multiset() == pseq.to_multiset());

    let prev_of = |j: usize| rotation(s, prev_start(j as int, n));
    assert(pseq =~= ranks.map_values(prev_of)) by {
        assert forall|k: int| 0 <= k < n implies pseq[k] == ranks.map_values(prev_of)[k] by {
            assert(pseq[k] == prev_rot_of(id_starts(s.len())[k]));
            assert(id_starts(s.len())[k] == k as usize);
        }
    }
    lemma_map_multiset(ranks, id_starts(s.len()), prev_of);
    let prevallrot = id_starts(s.len()).map_values(prev_of);
    assert(pseq.to_multiset() == prevallrot.to_multiset());

    // Rotating the start of every rotation by one permutes the rotation list.
    assert(prevallrot =~= seq![rotation(s, n - 1)] + allrot.take(n - 1)) by {
        assert forall|j: int|
            0 <= j < n implies prevallrot[j] == (seq![rotation(s, n - 1)] + allrot.take(n - 1))[j] by {
            assert(prevallrot[j] == prev_of(id_starts(s.len())[j]));
            assert(id_starts(s.len())[j] == j as usize);
            if j > 0 {
                assert(allrot.take(n - 1)[j - 1] == rot_of(id_starts(s.len())[j - 1]));
            }
        }
    }
    assert(allrot =~= allrot.take(n - 1) + seq![rotation(s, n - 1)]) by {
        assert forall|j: int|
            0 <= j < n implies allrot[j] == (allrot.take(n - 1) + seq![rotation(s, n - 1)])[j] by {
            assert(allrot[j] == rot_of(id_starts(s.len())[j]));
        }
    }
    vstd::seq_lib::lemma_multiset_commutative(allrot.take(n - 1), seq![rotation(s, n - 1)]);
    vstd::seq_lib::lemma_multiset_commutative(seq![rotation(s, n - 1)], allrot.take(n - 1));
    assert(prevallrot.to_multiset() == allrot.to_multiset());
    assert(aseq.to_multiset() == bseq.to_multiset());

    // Two sorted lists of the same rotations are the same list.
    lemma_lex_le_total_ordering();
    vstd::seq_lib::lemma_sorted_unique(aseq, bseq, leq);
    assert(aseq =~= bseq);

    // The symbol column fact and the successor-link fact follow pointwise.
    assert forall|r: int| 0 <= r < n implies (#[trigger] table[r]).1 == s[ranks[r] as int] by {
        let k = table[r].0 as int;
        assert(aseq[r] == rotation(s, prev_start(ranks[k] as int, n)));
        assert(aseq[r] == seq![lout[k]] + rotation(s, ranks[k] as int).take(n - 1));
        assert(aseq[r][0] == lout[k]);
        assert(bseq[r][0] == rotation(s, ranks[r] as int)[0]);
        assert(rotation(s, ranks[r] as int)[0] == s[ranks[r] as int]);
        assert(table[r].1 == lout[k]);
    }
    assert forall|r: int|
        0 <= r < n implies rotation(s, ranks[(#[trigger] table[r]).0 as int] as int) == rotation(
        s,
        next_start(ranks[r] as int, n),
    ) by {
        let k = table[r].0 as int;
        let p = prev_start(ranks[k] as int, n);
        assert(aseq[r] == rotation(s, p));
        assert(bseq[r] == rotation(s, ranks[r] as int));
        assert(rotation(s, p) == rotation(s, ranks[r] as int));
        assert(0 <= p < n);
        lemma_rotation_shift_congruence(s, p, ranks[r] as int);
        assert(next_start(p, n) == ranks[k] as int);
    }
}

/// Walking the successor table from a rank whose rotation equals the
/// rotation starting at text position `t` emits the text from `t` on.
proof fn lemma_bwt_walk_correct(s: Seq<u8>, cur: int, t: int)
    requires
        1 <= s.len() <= usize::MAX,
        0 <= t <= s.len(),
        t < s.len() ==> {
            &&& 0 <= cur < s.len()
            &&& rotation(s, bwt_ranks(s)[cur] as int) == rotation(s, t)
        },
    ensures
        bwt_walk(bwt_table(bwt_output(s)), cur, (s.len() - t) as nat) == s.skip(t),
    decreases s.len() - t,
{
    let n = s.len() as int;
    let ranks = bwt_ranks(s);
    let table = bwt_table(bwt_output(s));
    lemma_bwt_lf_mapping(s);
    if t >= n {
        assert(s.skip(t) =~= Seq::<u8>::empty());
    } else {
        assert(table[cur].1 == s[ranks[cur] as int]);
        assert(rotation(s, ranks[cur] as int)[0] == s[ranks[cur] as int]);
        assert(rotation(s, t)[0] == s[t]);
        assert(table[cur].1 == s[t]);
        let cur2 = table[cur].0 as int;
        assert(0 <= cur2 < n);
        if t + 1 < n {
            assert(rotation(s, ranks[cur2] as int) == rotation(s, next_start(ranks[cur] as int, n)));
            lemma_rotation_shift_congruence(s, ranks[cur] as int, t);
            assert(rotation(s, next_start(ranks[cur] as int, n)) == rotation(
                s,
                next_start(t, n),
            ));
            assert(next_start(t, n) == t + 1);
        }
        lemma_bwt_walk_correct(s, cur2, t + 1);
        assert(bwt_walk(table, cur, (n - t) as nat) == seq![s[t]] + s.skip(t + 1));
        assert(seq![s[t]] + s.skip(t + 1) =~= s.skip(t));
    }
}

/// Law: decoding the transformed text from the primary index — the rank of
/// the rotation that starts at position 0 — reproduces the input exactly.
pub proof fn lemma_bwt_round_trip(input: Seq<u8>, index: int)
    requires
        1 <= input.len() <= usize::MAX,
        0 <= index < input.len(),
        bwt_ranks(input)[index] == 0,
    ensures
        bwt_decode_spec(bwt_output(input), index) == input,
{
    assert(rotation(input, bwt_ranks(input)[index] as int) == rotation(input, 0));
    lemma_bwt_walk_correct(input, index, 0);
    assert(input.skip(0) =~= input);
    assert(bwt_output(input).len() == input.len());
}

/// An insert keeps every start already present and adds the new one.
proof fn lemma_rot_insert_keeps(input: Seq<u8>, s: Seq<usize>, j: usize)
    ensures
        rot_insert(input, s, j).len() == s.len() + 1,
        forall|x: usize| s.contains(x) ==> rot_insert(input, s, j).contains(x),
        rot_insert(input, s, j).contains(j),
    decreases s.len(),
{
    let r = rot_insert(input, s, j);
    if s.len() == 0 {
        assert(r[0] == j);
    } else if rot_lt(input, j as int, s[0] as int) {
        assert(r[0] == j);
        assert forall|x: usize| s.contains(x) implies r.contains(x) by {
            let w = choose|w: int| 0 <= w < s.len() && s[w] == x;
            assert(r[w + 1] == x);
        }
    } else {
        lemma_rot_insert_keeps(input, s.skip(1), j);
        let rr = rot_insert(input, s.skip(1), j);
        let v = choose|v: int| 0 <= v < rr.len() && rr[v] == j;
        assert(r[v + 1] == j);
        assert forall|x: usize| s.contains(x) implies r.contains(x) by {
            let w = choose|w: int| 0 <= w < s.len() && s[w] == x;
            if w == 0 {
                assert(r[0] == x);
            } else {
                assert(s.skip(1)[w - 1] == x);
                assert(s.skip(1).contains(x));
                assert(rr.contains(x));
                let v2 = choose|v2: int| 0 <= v2 < rr.len() && rr[v2] == x;
                assert(r[v2 + 1] == x);
            }
        }
    }
}

/// Where the insert lands: before the first entry that the new start
/// precedes.
proof fn lemma_rot_insert_at(input: Seq<u8>, s: Seq<usize>, j: usize, p: int)
    requires
        0 <= p <= s.len(),
        forall|k: int| 0 <= k < p ==> !rot_lt(input, j as int, s[k] as int),
        p < s.len() ==> rot_lt(input, j as int, s[p] as int),
    ensures
        rot_insert(input, s, j) =~= s.take(p) + seq![j] + s.skip(p),
    decreases s.len(),
{
    if s.len() == 0 {
    } else if p == 0 {
    } else {
        assert(!rot_lt(input, j as int, s[0] as int));
        assert forall|k: int| 0 <= k < p - 1 implies !rot_lt(input, j as int, s.skip(1)[k] as int) by {
            assert(s[k + 1] == s.skip(1)[k]);
        }
        assert(p - 1 < s.skip(1).len() ==> rot_lt(input, j as int, s.skip(1)[p - 1] as int));
        lemma_rot_insert_at(input, s.skip(1), j, p - 1);
    }
}

/// Same statement for the decoder's pair insert.
proof fn lemma_pair_insert_at(s: Seq<(usize, u8)>, p: (usize, u8), q: int)
    requires
        0 <= q <= s.len(),
        forall|k: int| 0 <= k < q ==> !pair_lt(p, s[k]),
        q < s.len() ==> pair_lt(p, s[q]),
    ensures
        pair_insert(s, p) =~= s.take(q) + seq![p] + s.skip(q),
    decreases s.len(),
{
    if s.len() == 0 {
    } else if q == 0 {
    } else {
        assert(!pair_lt(p, s[0]));
        assert forall|k: int| 0 <= k < q - 1 implies !pair_lt(p, s.skip(1)[k]) by {
            assert(s[k + 1] == s.skip(1)[k]);
        }
        lemma_pair_insert_at(s.skip(1), p, q - 1);
    }
}

/// Whether the rotation starting at `a` precedes the one starting at `b`.
fn rot_less(input: &[u8], a: usize, b: usize) -> (r: bool)
    requires
        a < input@.len(),
        b < input@.len(),
    ensures
        r == rot_lt(input@, a as int, b as int),
{
    let n = input.len();
    let ghost ra = rotation(input@, a as int);
    let ghost rb = rotation(input@, b as int);
    proof {
        assert(ra.len() == n);
        assert(rb.len() == n);
    }
    let mut ia = a;
    let mut ib = b;
    let mut t: usize = 0;
    while t < n
        invariant
            t <= n,
            ia < n,
            ib < n,
            n == input@.len(),
            a < n,
            b < n,
            ia as int == if a + t < n {
                a + t
            } else {
                a + t - n
            },
            ib as int == if b + t < n {
                b + t
            } else {
                b + t - n
            },
            forall|u: int| 0 <= u < t ==> ra[u] == rb[u],
        decreases n - t,
    {
        proof {
            assert(ra[t as int] == input@[ia as int]);
            assert(rb[t as int] == input@[ib as int]);
        }
        if input[ia] != input[ib] {
            proof {
                lemma_lex_lt_first_diff(ra, rb, t as int);
            }
            return input[ia] < input[ib];
        }
        ia = if ia + 1 == n {
            0
        } else {
            ia + 1
        };
        ib = if ib + 1 == n {
            0
        } else {
            ib + 1
        };
        t = t + 1;
    }
    proof {
        assert(ra =~= rb);
        lemma_lex_lt_irreflexive(ra);
    }
    a < b
}

/// Transforms `input`, returning the permuted text and the primary index:
/// the rank of the rotation starting at position 0 among all sorted
/// rotations. An empty input yields an empty text and index 0.
pub fn encode_bwt(input: &[u8]) -> (r: (Vec<u8>, usize))
    ensures
        r.0@ == bwt_output(input@),
        bwt_decode_spec(r.0@, r.1 as int) == input@,
        input@.len() > 0 ==> {
            &&& r.1 < input@.len()
            &&& bwt_ranks(input@)[r.1 as int] == 0
            &&& forall|q: int| 0 <= q < r.1 ==> bwt_ranks(input@)[q] != 0
        },
        input@.len() == 0 ==> r.1 == 0,
{
    let n = input.len();
    let mut ranks: Vec<usize> = Vec::new();
    let mut j: usize = 0;
    while j < n
        invariant
            j <= n,
            n == input@.len(),
            ranks@ == rot_sorted_upto(input@, j as nat),
            ranks@.len() == j,
            forall|k: int| 0 <= k < ranks@.len() ==> ranks@[k] < j,
        decreases n - j,
    {
        let ghost s = ranks@;
        // Find the insertion position for rotation start `j`.
        let mut p: usize = 0;
        while p < ranks.len() && !rot_less(input, j, ranks[p])
            invariant
                p <= ranks@.len(),
                forall|k: int| 0 <= k < p ==> !rot_lt(input@, j as int, ranks@[k] as int),
            decreases ranks@.len() - p,
        {
            p = p + 1;
        }
        proof {
            lemma_rot_insert_at(input@, s, j, p as int);
        }
        ranks.insert(p, j);
        j = j + 1;
        proof {
            assert(ranks@ =~= s.take(p as int) + seq![(j - 1) as usize] + s.skip(p as int));
            assert(ranks@ =~= rot_sorted_upto(input@, j as nat));
            assert forall|k: int| 0 <= k < ranks@.len() implies ranks@[k] < j by {
                if k < p {
                    assert(ranks@[k] == s[k]);
                } else if k > p {
                    assert(ranks@[k] == s[k - 1]);
                }
            }
        }
    }

    let mut out: Vec<u8> = Vec::new();
    let mut r: usize = 0;
    while r < n
        invariant
            r <= n,
            n == input@.len(),
            ranks@ == bwt_ranks(input@),
            ranks@.len() == n,
            forall|k: int| 0 <= k < ranks@.len() ==> ranks@[k] < n,
            out@ =~= bwt_output(input@).take(r as int),
        decreases n - r,
    {
        let rj = ranks[r];
        let c = if rj == 0 {
            input[n - 1]
        } else {
            input[rj - 1]
        };
        proof {
            assert(c == rot_last(input@, ranks@[r as int] as int));
            assert(bwt_output(input@).take(r + 1) =~= bwt_output(input@).take(r as int).push(
                bwt_output(input@)[r as int],
            ));
        }
        out.push(c);
        r = r + 1;
    }
    proof {
        assert(bwt_output(input@).take(n as int) =~= bwt_output(input@));
    }

    if n == 0 {
        proof {
            assert(bwt_decode_spec(out@, 0) =~= input@);
        }
        return (out, 0);
    }
    // The sorted starts hold every position, so rank 0 exists.
    proof {
        lemma_rot_sorted_contains(input@, n as nat);
        assert(rot_sorted_upto(input@, n as nat).contains(0usize));
    }
    let mut primary: usize = 0;
    let ghost rk = ranks@;
    while primary < n
        invariant
            primary <= n,
            n == input@.len(),
            rk == bwt_ranks(input@),
            rk.len() == n,
            rk.contains(0usize),
            ranks@ == rk,
            forall|q: int| 0 <= q < primary ==> rk[q] != 0,
        decreases n - primary,
    {
        if ranks[primary] == 0 {
            proof {
                lemma_bwt_round_trip(input@, primary as int);
            }
            return (out, primary);
        }
        primary = primary + 1;
    }
    proof {
        let w = choose|w: int| 0 <= w < rk.len() && rk[w] == 0usize;
        assert(false);
    }
    (out, 0)
}

/// The sorted starts up to `m` hold every start below `m`.
proof fn lemma_rot_sorted_contains(input: Seq<u8>, m: nat)
    requires
        m <= usize::MAX,
    ensures
        rot_sorted_upto(input, m).len() == m,
        forall|x: usize| (x as int) < m ==> #[trigger] rot_sorted_upto(input, m).contains(x),
    decreases m,
{
    if m > 0 {
        lemma_rot_sorted_contains(input, (m - 1) as nat);
        lemma_rot_insert_keeps(input, rot_sorted_upto(input, (m - 1) as nat), (m - 1) as usize);
        assert forall|x: usize| (x as int) < m implies #[trigger] rot_sorted_upto(
            input,
            m,
        ).contains(x) by {
            if (x as int) < m - 1 {
                assert(rot_sorted_upto(input, (m - 1) as nat).contains(x));
            } else {
                assert(x == (m - 1) as usize);
                assert(rot_sorted_upto(input, m).contains((m - 1) as usize));
            }
        }
    }
}

/// Inverts the transform: walks the stable-sorted successor table from
/// `index` for one step per symbol of `input`.
///
/// Returns the recovered text exactly when `index` is a position of `input`
/// or `input` is empty; otherwise returns `Err(CodecError::IndexOutOfRange)`.
pub fn decode_bwt(input: &[u8], index: usize) -> (r: Result<Vec<u8>, CodecError>)
    ensures
        match r {
            Ok(out) => {
                &&& (input@.len() == 0 || index < input@.len())
                &&& out@ == bwt_decode_spec(input@, index as int)
            },
            Err(e) => {
                &&& input@.len() > 0
                &&& index >= input@.len()
                &&& e == CodecError::IndexOutOfRange
            },
        },
{
    let n = input.len();
    if n == 0 {
        let out: Vec<u8> = Vec::new();
        return Ok(out);
    }
    if index >= n {
        return Err(CodecError::IndexOutOfRange);
    }

    let mut table: Vec<(usize, u8)> = Vec::new();
    let mut k: usize = 0;
    while k < n
        invariant
            k <= n,
            n == input@.len(),
            table@ == pair_sorted_upto(input@, k as nat),
            table@.len() == k,
            forall|u: int| 0 <= u < table@.len() ==> (#[trigger] table@[u]).0 < k,
        decreases n - k,
    {
        let ghost s = table@;
        let pr = (k, input[k]);
        let mut p: usize = 0;
        while p < table.len() && !pair_less(pr, table[p])
            invariant
                p <= table@.len(),
                forall|u: int| 0 <= u < p ==> !pair_lt(pr, table@[u]),
            decreases table@.len() - p,
        {
            p = p + 1;
        }
        proof {
            lemma_pair_insert_at(s, pr, p as int);
        }
        table.insert(p, pr);
        k = k + 1;
        proof {
            assert(table@ =~= s.take(p as int) + seq![pr] + s.skip(p as int));
            assert(table@ =~= pair_sorted_upto(input@, k as nat));
            assert forall|u: int| 0 <= u < table@.len() implies (#[trigger] table@[u]).0 < k by {
                if u < p {
                    assert(table@[u] == s[u]);
                } else if u > p {
                    assert(table@[u] == s[u - 1]);
                }
            }
        }
    }

    let ghost tb = table@;
    let mut out: Vec<u8> = Vec::new();
    let mut cur: usize = index;
    let mut step: usize = 0;
    while step < n
        invariant
            step <= n,
            n == input@.len(),
            cur < n,
            tb == bwt_table(input@),
            tb.len() == n,
            table@ == tb,
            forall|u: int| 0 <= u < tb.len() ==> (#[trigger] tb[u]).0 < n,
            out@ + bwt_walk(tb, cur as int, (n - step) as nat) =~= bwt_decode_spec(
                input@,
                index as int,
            ),
        decreases n - step,
    {
        let (nxt, c) = table[cur];
        let ghost out_pre = out@;
        out.push(c);
        cur = nxt;
        step = step + 1;
        proof {
            assert(out@ + bwt_walk(tb, cur as int, (n - step) as nat) =~= out_pre + (seq![c]
                + bwt_walk(tb, cur as int, (n - step) as nat)));
        }
    }
    proof {
        assert(bwt_walk(tb, cur as int, 0) =~= Seq::<u8>::empty());
        assert(out@ + Seq::<u8>::empty() =~= out@);
    }
    Ok(out)
}

/// Whether pair `p` precedes pair `q` in the stable symbol order.
fn pair_less(p: (usize, u8), q: (usize, u8)) -> (r: bool)
    ensures
        r == pair_lt(p, q),
{
    p.1 < q.1 || (p.1 == q.1 && p.0 < q.0)
}

} // verus!
