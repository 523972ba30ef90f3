//! Compact encoding of a nucleotide sequence into a byte key.
//!
//! The five recognized symbols `A, C, G, T, N` (case-insensitive) carry the
//! ordinals 0 through 4. The sequence's bytes are split into consecutive
//! groups of up to three symbols; each group is folded left-to-right as
//! `acc = acc * 5 + ordinal`, giving one byte per group (at most
//! `5^3 - 1 = 124`). One trailing byte, the sequence length truncated to its
//! low 8 bits, closes the key.

use vstd::prelude::*;
use vstd::string::StringSliceAdditionalSpecFns;

verus! {

/// An unrecognized byte in a sequence: a fatal condition for the run.
#[derive(Debug, PartialEq, Eq, Structural, Clone, Copy)]
pub struct EncodeError {
    /// The offending byte.
    pub byte: u8,
}

/// Whether a byte is one of the recognized nucleotide symbols.
pub open spec fn is_base(b: u8) -> bool {
    ||| b == 97 || b == 65  // a A
    ||| b == 99 || b == 67  // c C
    ||| b == 103 || b == 71  // g G
    ||| b == 116 || b == 84  // t T
    ||| b == 110 || b == 78  // n N
}

/// The ordinal of a recognized symbol; 0 on anything else.
pub open spec fn ord_of(b: u8) -> u8 {
    if b == 97 || b == 65 {
        0
    } else if b == 99 || b == 67 {
        1
    } else if b == 103 || b == 71 {
        2
    } else if b == 116 || b == 84 {
        3
    } else if b == 110 || b == 78 {
        4
    } else {
        0
    }
}

/// Whether every byte of the sequence is a recognized symbol.
pub open spec fn seq_valid(bs: Seq<u8>) -> bool {
    forall|i: int| 0 <= i < bs.len() ==> is_base(#[trigger] bs[i])
}

/// The left-to-right fold `acc = acc * 5 + ordinal` over one group.
pub open spec fn group_val(g: Seq<u8>) -> int
    decreases g.len(),
{
    if g.len() == 0 {
        0
    } else {
        group_val(g.drop_last()) * 5 + ord_of(g.last())
    }
}

/// The per-group bytes of the key: one byte for each group of up to three
/// symbols, in order.
pub open spec fn packed(bs: Seq<u8>) -> Seq<u8>
    decreases bs.len(),
{
    if bs.len() == 0 {
        Seq::empty()
    } else {
        let k: int = if bs.len() < 3 { bs.len() as int } else { 3 };
        seq![group_val(bs.take(k)) as u8] + packed(bs.skip(k))
    }
}

/// The whole key: the group bytes followed by the length truncated to 8 bits.
pub open spec fn encode(bs: Seq<u8>) -> Seq<u8> {
    packed(bs).push((bs.len() % 256) as u8)
}

/// The position of the first unrecognized byte (the length if there is none).
pub open spec fn first_bad(bs: Seq<u8>) -> int
    decreases bs.len(),
{
    if bs.len() == 0 {
        0
    } else if !is_base(bs[0]) {
        0
    } else {
        1 + first_bad(bs.drop_first())
    }
}

/// Bounds on the fold of one group: the value is non-negative and stays
/// under `5^len`, because every ordinal is below 5.
pub proof fn lemma_group_val_bound(g: Seq<u8>)
    requires
        g.len() <= 3,
    ensures
        0 <= group_val(g),
        g.len() == 0 ==> group_val(g) == 0,
        g.len() <= 1 ==> group_val(g) < 5,
        g.len() <= 2 ==> group_val(g) < 25,
        group_val(g) < 125,
    decreases g.len(),
{
    if g.len() > 0 {
        lemma_group_val_bound(g.drop_last());
    }
}

/// The group bytes of a concatenation split at a group boundary.
pub proof fn lemma_packed_concat(a: Seq<u8>, b: Seq<u8>)
    requires
        a.len() % 3 == 0,
    ensures
        packed(a + b) == packed(a) + packed(b),
    decreases a.len(),
{
    if a.len() == 0 {
        assert(a + b =~= b);
        assert(packed(a) + packed(b) =~= packed(b));
    } else {
        let ab = a + b;
        assert(ab.len() >= 3);
        assert(ab.take(3) =~= a.take(3));
        assert(ab.skip(3) =~= a.skip(3) + b);
        assert(a.skip(3).len() % 3 == 0);
        lemma_packed_concat(a.skip(3), b);
        assert(packed(ab) =~= packed(a) + packed(b));
    }
}

/// A single group of one to three symbols packs into exactly one byte.
pub proof fn lemma_packed_single(g: Seq<u8>)
    requires
        1 <= g.len() <= 3,
    ensures
        packed(g) == seq![group_val(g) as u8],
{
    let k: int = if g.len() < 3 {
        g.len() as int
    } else {
        3
    };
    assert(g.take(k) =~= g);
    assert(g.skip(k) =~= Seq::<u8>::empty());
    assert(packed(g.skip(k)) =~= Seq::<u8>::empty());
    assert(packed(g) =~= seq![group_val(g) as u8]);
}

/// `first_bad` is the least position holding an unrecognized byte.
pub proof fn lemma_first_bad_at(bs: Seq<u8>, j: int)
    requires
        0 <= j < bs.len(),
        !is_base(bs[j]),
        forall|k: int| 0 <= k < j ==> is_base(#[trigger] bs[k]),
    ensures
        first_bad(bs) == j,
    decreases j,
{
    if j > 0 {
        let t = bs.drop_first();
        assert(forall|k: int| 0 <= k < j - 1 ==> is_base(#[trigger] t[k]));
        lemma_first_bad_at(t, j - 1);
    }
}

/// The ordinal of a recognized symbol, or nothing for any other byte.
pub fn base_index(base: u8) -> (r: Option<u8>)
    ensures
        r is Some <==> is_base(base),
        r is Some ==> r->0 == ord_of(base),
{
    if base == 97 || base == 65 {
        Some(0)
    } else if base == 99 || base == 67 {
        Some(1)
    } else if base == 103 || base == 71 {
        Some(2)
    } else if base == 116 || base == 84 {
        Some(3)
    } else if base == 110 || base == 78 {
        Some(4)
    } else {
        None
    }
}

/// The count of group bytes pins the sequence length to a window of three.
pub proof fn lemma_packed_len(bs: Seq<u8>)
    ensures
        bs.len() == 0 ==> packed(bs).len() == 0,
        bs.len() > 0 ==> 3 * packed(bs).len() - 2 <= bs.len() <= 3 * packed(bs).len(),
    decreases bs.len(),
{
    if bs.len() > 0 {
        let k: int = if bs.len() < 3 {
            bs.len() as int
        } else {
            3
        };
        lemma_packed_len(bs.skip(k));
    }
}

/// A group byte determines the ordinals of its symbols: the fold writes them
/// as base-5 digits.
pub proof fn lemma_group_val_digits(g1: Seq<u8>, g2: Seq<u8>)
    requires
        g1.len() == g2.len(),
        g1.len() <= 3,
        group_val(g1) == group_val(g2),
    ensures
        forall|i: int| 0 <= i < g1.len() ==> ord_of(#[trigger] g1[i]) == ord_of(g2[i]),
    decreases g1.len(),
{
    if g1.len() > 0 {
        lemma_group_val_bound(g1.drop_last());
        lemma_group_val_bound(g2.drop_last());
        assert(0 <= ord_of(g1.last()) < 5);
        assert(0 <= ord_of(g2.last()) < 5);
        assert(ord_of(g1.last()) == ord_of(g2.last()) && group_val(g1.drop_last()) == group_val(
        g2.drop_last()));
        lemma_group_val_digits(g1.drop_last(), g2.drop_last());
        assert forall|i: int| 0 <= i < g1.len() implies ord_of(#[trigger] g1[i]) == ord_of(
        g2[i]) by {
            if i < g1.len() - 1 {
                assert(g1.drop_last()[i] == g1[i]);
                assert(g2.drop_last()[i] == g2[i]);
            }
        }
    }
}

/// Equal group bytes of equal-length sequences mean equal ordinals
/// throughout.
pub proof fn lemma_packed_inj(a: Seq<u8>, b: Seq<u8>)
    requires
        a.len() == b.len(),
        packed(a) == packed(b),
    ensures
        forall|i: int| 0 <= i < a.len() ==> ord_of(#[trigger] a[i]) == ord_of(b[i]),
    decreases a.len(),
{
    if a.len() > 0 {
        let k: int = if a.len() < 3 {
            a.len() as int
        } else {
            3
        };
        lemma_group_val_bound(a.take(k));
        lemma_group_val_bound(b.take(k));
        assert(packed(a) == seq![group_val(a.take(k)) as u8] + packed(a.skip(k)));
        assert(packed(b) == seq![group_val(b.take(k)) as u8] + packed(b.skip(k)));
        assert(packed(a)[0] == group_val(a.take(k)) as u8);
        assert(packed(b)[0] == group_val(b.take(k)) as u8);
        assert(group_val(a.take(k)) == group_val(b.take(k)));
        lemma_group_val_digits(a.take(k), b.take(k));
        assert(packed(a).skip(1) =~= packed(a.skip(k)));
        assert(packed(b).skip(1) =~= packed(b.skip(k)));
        lemma_packed_inj(a.skip(k), b.skip(k));
        assert forall|i: int| 0 <= i < a.len() implies ord_of(#[trigger] a[i]) == ord_of(
        b[i]) by {
            if i < k {
                assert(a.take(k)[i] == a[i]);
                assert(b.take(k)[i] == b[i]);
            } else {
                assert(a.skip(k)[i - k] == a[i]);
                assert(b.skip(k)[i - k] == b[i]);
            }
        }
    }
}

/// Two sequences share a key exactly when they have the same length and the
/// same ordinals throughout. In particular the key determines the sequence up
/// to the case of its symbols, and the truncated-length tail byte never
/// merges two keys, because the group bytes already pin the length to a
/// window narrower than 256.
pub proof fn lemma_encode_injective(a: Seq<u8>, b: Seq<u8>)
    ensures
        encode(a) == encode(b) <==> (a.len() == b.len() && (forall|i: int|
            0 <= i < a.len() ==> ord_of(#[trigger] a[i]) == ord_of(b[i]))),
{
    if encode(a) == encode(b) {
        lemma_packed_len(a);
        lemma_packed_len(b);
        assert(encode(a).len() == encode(b).len());
        assert(packed(a).len() == packed(b).len());
        assert(encode(a).last() == encode(b).last());
        assert(a.len() % 256 == b.len() % 256);
        if a.len() != b.len() {
            let la = a.len() as int;
            let lb = b.len() as int;
            vstd::arithmetic::div_mod::lemma_mod_equivalence(la, lb, 256);
            assert((la - lb) % 256 == 0);
            if la < lb {
                vstd::arithmetic::div_mod::lemma_small_mod((lb - la) as nat, 256);
                assert((lb - la) % 256 == lb - la);
                vstd::arithmetic::div_mod::lemma_mod_equivalence(lb, la, 256);
                assert(false);
            } else {
                vstd::arithmetic::div_mod::lemma_small_mod((la - lb) as nat, 256);
                assert(false);
            }
        }
        assert(packed(a) =~= encode(a).drop_last());
        assert(packed(b) =~= encode(b).drop_last());
        lemma_packed_inj(a, b);
    }
    if a.len() == b.len() && (forall|i: int|
        0 <= i < a.len() ==> ord_of(#[trigger] a[i]) == ord_of(b[i])) {
        lemma_packed_same_ords(a, b);
    }
}

/// The key reads nothing of a symbol but its ordinal: sequences of equal
/// length and equal ordinals pack alike.
pub proof fn lemma_packed_same_ords(a: Seq<u8>, b: Seq<u8>)
    requires
        a.len() == b.len(),
        forall|i: int| 0 <= i < a.len() ==> ord_of(#[trigger] a[i]) == ord_of(b[i]),
    ensures
        packed(a) == packed(b),
    decreases a.len(),
{
    if a.len() > 0 {
        let k: int = if a.len() < 3 {
            a.len() as int
        } else {
            3
        };
        assert(forall|i: int| 0 <= i < k ==> a.take(k)[i] == a[i]);
        assert(forall|i: int| 0 <= i < k ==> b.take(k)[i] == b[i]);
        lemma_group_val_same_ords(a.take(k), b.take(k));
        assert(forall|i: int| 0 <= i < a.skip(k).len() ==> a.skip(k)[i] == a[i + k]);
        assert(forall|i: int| 0 <= i < b.skip(k).len() ==> b.skip(k)[i] == b[i + k]);
        lemma_packed_same_ords(a.skip(k), b.skip(k));
        assert(packed(a) =~= packed(b));
    } else {
        assert(packed(a) =~= packed(b));
    }
}

/// The fold reads only the ordinals of a group.
pub proof fn lemma_group_val_same_ords(g1: Seq<u8>, g2: Seq<u8>)
    requires
        g1.len() == g2.len(),
        forall|i: int| 0 <= i < g1.len() ==> ord_of(#[trigger] g1[i]) == ord_of(g2[i]),
    ensures
        group_val(g1) == group_val(g2),
    decreases g1.len(),
{
    if g1.len() > 0 {
        assert(forall|i: int| 0 <= i < g1.len() - 1 ==> g1.drop_last()[i] == g1[i]);
        assert(forall|i: int| 0 <= i < g2.len() - 1 ==> g2.drop_last()[i] == g2[i]);
        lemma_group_val_same_ords(g1.drop_last(), g2.drop_last());
        assert(ord_of(g1.last()) == ord_of(g2.last()));
    }
}

/// Packs a sequence string into the caller's key buffer: the buffer is
/// cleared, refilled with the group bytes, and closed with the truncated
/// length byte. An unrecognized byte stops the run; the first one is named.
pub fn byte_pack_3_ext(seq: &str, res: &mut Vec<u8>) -> (r: Result<(), EncodeError>)
    ensures
        r is Ok ==> seq_valid(seq.spec_bytes()) && final(res)@ == encode(seq.spec_bytes()),
        r is Err ==> !seq_valid(seq.spec_bytes()) && r->Err_0.byte == seq.spec_bytes()[first_bad(
        seq.spec_bytes())],
{
    res.clear();
    let bytes: &[u8] = seq.as_bytes();
    let ghost bs = seq.spec_bytes();
    let n: usize = bytes.len();
    let mut i: usize = 0;
    while i < n
        invariant
            bs == seq.spec_bytes(),
            bytes@ == bs,
            n == bs.len(),
            i <= n,
            i % 3 == 0 || i == n,
            seq_valid(bs.take(i as int)),
            res@ == packed(bs.take(i as int)),
        decreases n - i,
    {
        let end: usize = if n - i < 3 {
            n
        } else {
            i + 3
        };
        let mut acc: u8 = 0;
        let mut j: usize = i;
        while j < end
            invariant
                bs == seq.spec_bytes(),
                bytes@ == bs,
                n == bs.len(),
                i <= j <= end <= n,
                end - i <= 3,
                i < n,
                seq_valid(bs.take(i as int)),
                seq_valid(bs.subrange(i as int, j as int)),
                acc as int == group_val(bs.subrange(i as int, j as int)),
            decreases end - j,
        {
            proof {
                lemma_group_val_bound(bs.subrange(i as int, j as int));
            }
            match base_index(bytes[j]) {
                Some(o) => {
                    acc = acc * 5 + o;
                    proof {
                        let g = bs.subrange(i as int, j + 1 as int);
                        assert(g.drop_last() =~= bs.subrange(i as int, j as int));
                        assert(g.last() == bs[j as int]);
                    }
                },
                None => {
                    proof {
                        assert(!is_base(bs[j as int]));
                        assert(forall|k: int| 0 <= k < j ==> is_base(#[trigger] bs[k])) by {
                            assert(forall|k: int| 0 <= k < i ==> bs.take(i as int)[k] == bs[k]);
                            assert(forall|k: int| i <= k < j ==> bs.subrange(i as int, j as int)[
                            k - i] == bs[k]);
                        }
                        lemma_first_bad_at(bs, j as int);
                        assert(first_bad(bs) == j);
                        assert(!seq_valid(bs)) by {
                            assert(0 <= j < bs.len() && !is_base(bs[j as int]));
                        }
                    }
                    return Err(EncodeError { byte: bytes[j] });
                },
            }
            j += 1;
        }
        proof {
            lemma_group_val_bound(bs.subrange(i as int, end as int));
        }
        res.push(acc);
        proof {
            let g = bs.subrange(i as int, end as int);
            assert(bs.take(end as int) =~= bs.take(i as int) + g);
            lemma_packed_concat(bs.take(i as int), g);
            lemma_packed_single(g);
            assert(res@ == packed(bs.take(end as int)));
            assert(seq_valid(bs.take(end as int))) by {
                assert(forall|k: int| 0 <= k < i ==> bs.take(end as int)[k] == bs.take(i as int)[
                k]);
                assert(forall|k: int| i <= k < end ==> bs.take(end as int)[k] == g[k - i]);
            }
        }
        i = end;
    }
    proof {
        assert(bs.take(n as int) =~= bs);
    }
    let tail: u8 = (n % 256) as u8;
    res.push(tail);
    Ok(())
}

} // verus!
