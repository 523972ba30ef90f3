//! The single-pass dedup pipeline: group lines into four-line records,
//! encode each record's sequence, keep the record when its key is new.
//!
//! The model below speaks of the input as a sequence of lines (each a
//! `Seq<char>`). Records are consecutive groups of four lines; a trailing
//! group of fewer than four lines is no record and is silently dropped.
//! `out_upto` is the exact output: the subsequence of records whose key did
//! not occur in any earlier record, in input order.

use crate::encoder::{byte_pack_3_ext, encode, first_bad, seq_valid, EncodeError};
use crate::index::DedupIndex;
use vstd::prelude::*;

verus! {

/// The UTF-8 bytes of a line.
pub open spec fn line_bytes(s: Seq<char>) -> Seq<u8> {
    vstd::utf8::encode_utf8(s)
}

/// The key of a sequence line.
pub open spec fn line_key(s: Seq<char>) -> Seq<u8> {
    encode(line_bytes(s))
}

/// Whether a sequence line holds recognized symbols only.
pub open spec fn line_ok(s: Seq<char>) -> bool {
    seq_valid(line_bytes(s))
}

/// How many complete four-line records the input holds.
pub open spec fn num_records(ls: Seq<Seq<char>>) -> int {
    ls.len() as int / 4
}

/// The sequence line of record `i`.
pub open spec fn rec_seq_line(ls: Seq<Seq<char>>, i: int) -> Seq<char> {
    ls[4 * i + 1]
}

/// The four lines of record `i`, in input order.
pub open spec fn rec_lines(ls: Seq<Seq<char>>, i: int) -> Seq<Seq<char>> {
    ls.subrange(4 * i, 4 * i + 4)
}

/// The keys of the first `i` records, as a set.
pub open spec fn keys_upto(ls: Seq<Seq<char>>, i: int) -> Set<Seq<u8>>
    decreases i,
{
    if i <= 0 {
        Set::empty()
    } else {
        keys_upto(ls, i - 1).insert(line_key(rec_seq_line(ls, i - 1)))
    }
}

/// Whether record `i` survives: no earlier record carries its key.
pub open spec fn rec_accepted(ls: Seq<Seq<char>>, i: int) -> bool {
    !keys_upto(ls, i).contains(line_key(rec_seq_line(ls, i)))
}

/// The output lines after the first `i` records: the four-line groups of the
/// accepted records, in input order.
pub open spec fn out_upto(ls: Seq<Seq<char>>, i: int) -> Seq<Seq<char>>
    decreases i,
{
    if i <= 0 {
        Seq::empty()
    } else if rec_accepted(ls, i - 1) {
        out_upto(ls, i - 1) + rec_lines(ls, i - 1)
    } else {
        out_upto(ls, i - 1)
    }
}

/// The accepted count after the first `i` records.
pub open spec fn acc_upto(ls: Seq<Seq<char>>, i: int) -> int
    decreases i,
{
    if i <= 0 {
        0
    } else {
        acc_upto(ls, i - 1) + if rec_accepted(ls, i - 1) {
            1int
        } else {
            0int
        }
    }
}

/// Whether the first `i` records hold recognized symbols only.
pub open spec fn all_ok_upto(ls: Seq<Seq<char>>, i: int) -> bool {
    forall|j: int| 0 <= j < i ==> line_ok(#[trigger] rec_seq_line(ls, j))
}

/// A line-oriented input source, handing out its lines one at a time.
pub struct LineStream {
    lines: Vec<String>,
    pos: usize,
}

impl LineStream {
    /// Every line of the source, in order.
    pub closed spec fn all_lines(&self) -> Seq<Seq<char>> {
        self.lines.deep_view()
    }

    /// How many lines were already handed out.
    pub closed spec fn position(&self) -> int {
        self.pos as int
    }

    /// Wraps the lines of an input source.
    pub fn new(lines: Vec<String>) -> (r: Self)
        ensures
            r.all_lines() == lines.deep_view(),
            r.position() == 0,
    {
        LineStream { lines, pos: 0 }
    }
}

/// Pulls the next line, advancing the cursor; nothing at the stream's end.
pub fn get_line(src: &mut LineStream) -> (r: Option<String>)
    ensures
        final(src).all_lines() == old(src).all_lines(),
        old(src).position() < old(src).all_lines().len() ==> r is Some && r->0@ == old(
        src).all_lines()[old(src).position()] && final(src).position() == old(src).position() + 1,
        old(src).position() >= old(src).all_lines().len() ==> r is None && final(src).position()
            == old(src).position(),
{
    if src.pos < src.lines.len() {
        let line = src.lines[src.pos].clone();
        src.pos = src.pos + 1;
        Some(line)
    } else {
        None
    }
}

/// What a completed run hands back: the surviving lines and the two counters.
pub struct DedupOutput {
    /// The four lines of every accepted record, in input order, unchanged.
    pub lines: Vec<String>,
    /// How many complete records the input held.
    pub total: usize,
    /// How many records survived.
    pub accepted: usize,
}

/// Runs the whole pipeline over the input lines: reads four-line records,
/// drops every record whose sequence was seen before, and reports the
/// surviving lines with the two counters. A sequence holding an unrecognized
/// symbol stops the run; the error names the first such byte of the first
/// such record. Trailing lines short of a full record are dropped silently.
pub fn dedup(input: Vec<String>) -> (r: Result<DedupOutput, EncodeError>)
    ensures
        r is Ok <==> all_ok_upto(input.deep_view(), num_records(input.deep_view())),
        r is Ok ==> ({
            let ls = input.deep_view();
            &&& r->Ok_0.lines.deep_view() == out_upto(ls, num_records(ls))
            &&& r->Ok_0.total == num_records(ls)
            &&& r->Ok_0.accepted == acc_upto(ls, num_records(ls))
        }),
        forall|i: int|
            #![trigger rec_seq_line(input.deep_view(), i)]
            (0 <= i < num_records(input.deep_view()) && all_ok_upto(input.deep_view(), i)
                && !line_ok(rec_seq_line(input.deep_view(), i))) ==> r is Err && r->Err_0.byte
                == line_bytes(rec_seq_line(input.deep_view(), i))[first_bad(line_bytes(
            rec_seq_line(input.deep_view(), i)))],
{
    let ghost ls = input.deep_view();
    let mut stream = LineStream::new(input);
    let mut count: usize = 0;
    let mut filter_count: usize = 0;
    let mut lookup = DedupIndex::new();
    let mut key: Vec<u8> = Vec::new();
    let mut out: Vec<String> = Vec::new();
    loop
        invariant_except_break
            stream.position() == 4 * count,
        invariant
            ls == input.deep_view(),
            stream.all_lines() == ls,
            4 * count <= ls.len(),
            count <= num_records(ls),
            filter_count <= count,
            all_ok_upto(ls, count as int),
            lookup@ == keys_upto(ls, count as int),
            filter_count as int == acc_upto(ls, count as int),
            out.deep_view() == out_upto(ls, count as int),
        ensures
            count == num_records(ls),
            all_ok_upto(ls, count as int),
            filter_count as int == acc_upto(ls, count as int),
            out.deep_view() == out_upto(ls, count as int),
        decreases num_records(ls) - count,
    {
        let ghost t = count as int;
        let header = get_line(&mut stream);
        let seq = get_line(&mut stream);
        let strand = get_line(&mut stream);
        let qual = get_line(&mut stream);

        if header.is_none() || seq.is_none() || strand.is_none() || qual.is_none() {
            proof {
                if header is None {
                    assert(ls.len() == 4 * t);
                    vstd::arithmetic::div_mod::lemma_div_multiples_vanish_fancy(t, 0, 4);
                } else if seq is None {
                    assert(ls.len() == 4 * t + 1);
                    vstd::arithmetic::div_mod::lemma_div_multiples_vanish_fancy(t, 1, 4);
                } else if strand is None {
                    assert(ls.len() == 4 * t + 2);
                    vstd::arithmetic::div_mod::lemma_div_multiples_vanish_fancy(t, 2, 4);
                } else {
                    assert(ls.len() == 4 * t + 3);
                    vstd::arithmetic::div_mod::lemma_div_multiples_vanish_fancy(t, 3, 4);
                }
                assert(count == num_records(ls));
            }
            break;
        }
        proof {
            assert(4 * t + 4 <= ls.len());
            assert(ls.len() as int == 4 * (t + 1) + (ls.len() - 4 * (t + 1)));
            vstd::arithmetic::div_mod::lemma_div_multiples_vanish_fancy(t + 1, 0, 4);
            assert((4 * (t + 1)) / 4 == t + 1);
            vstd::arithmetic::div_mod::lemma_div_is_ordered(4 * (t + 1), ls.len() as int, 4);
            assert(t + 1 <= num_records(ls));
        }
        count = count + 1;
        let seq_s = seq.unwrap();
        let ghost sline = rec_seq_line(ls, t);
        proof {
            assert(seq_s@ == sline);
        }
        match byte_pack_3_ext(seq_s.as_str(), &mut key) {
            Ok(_) => {},
            Err(e) => {
                proof {
                    assert(!line_ok(sline));
                    assert(e.byte == line_bytes(sline)[first_bad(line_bytes(sline))]);
                    assert(forall|i: int|
                        0 <= i < num_records(ls) && all_ok_upto(ls, i) && !line_ok(
                        rec_seq_line(ls, i)) ==> i == t) by {
                        assert forall|i: int|
                            0 <= i < num_records(ls) && all_ok_upto(ls, i) && !line_ok(
                            rec_seq_line(ls, i)) implies i == t by {
                            if i < t {
                                assert(line_ok(rec_seq_line(ls, i)));
                            } else if i > t {
                                assert(!line_ok(rec_seq_line(ls, t)));
                            }
                        }
                    }
                }
                return Err(e);
            },
        }
        proof {
            assert(key@ == line_key(sline));
        }
        let seen = lookup.contains(&key);
        if !seen {
            lookup.insert(&key);
            filter_count = filter_count + 1;
            let ghost old_dv = out.deep_view();
            out.push(header.unwrap());
            out.push(seq_s);
            out.push(strand.unwrap());
            out.push(qual.unwrap());
            proof {
                assert(rec_accepted(ls, t));
                assert(out.deep_view() =~= old_dv + rec_lines(ls, t));
                assert(out.deep_view() == out_upto(ls, t + 1));
                assert(lookup@ == keys_upto(ls, t + 1));
                assert(filter_count as int == acc_upto(ls, t + 1));
            }
        } else {
            proof {
                assert(!rec_accepted(ls, t));
                assert(keys_upto(ls, t).insert(line_key(sline)) =~= keys_upto(ls, t));
                assert(lookup@ == keys_upto(ls, t + 1));
                assert(out.deep_view() == out_upto(ls, t + 1));
                assert(filter_count as int == acc_upto(ls, t + 1));
            }
        }
        proof {
            assert(all_ok_upto(ls, t + 1)) by {
                assert(forall|j: int|
                    0 <= j < t + 1 ==> line_ok(#[trigger] rec_seq_line(ls, j)) || j == t);
            }
        }
    }
    Ok(DedupOutput { lines: out, total: count, accepted: filter_count })
}

/// Counter consistency: after any number of records, the accepted count is
/// at most the records seen, and equals the number of distinct keys among
/// their sequences.
pub proof fn lemma_counter_consistency(ls: Seq<Seq<char>>, i: int)
    requires
        0 <= i,
    ensures
        0 <= acc_upto(ls, i) <= i,
        keys_upto(ls, i).finite(),
        acc_upto(ls, i) == keys_upto(ls, i).len(),
    decreases i,
{
    if i > 0 {
        lemma_counter_consistency(ls, i - 1);
        let s = keys_upto(ls, i - 1);
        let k = line_key(rec_seq_line(ls, i - 1));
        vstd::set::axiom_set_insert_len(s, k);
        if s.contains(k) {
            assert(s.insert(k) =~= s);
        }
    }
}

/// The keys of the first `j` records do not move when lines are appended
/// after them.
proof fn lemma_keys_upto_append(a: Seq<Seq<char>>, b: Seq<Seq<char>>, j: int)
    requires
        0 <= j,
        4 * j <= a.len(),
    ensures
        keys_upto(a + b, j) == keys_upto(a, j),
    decreases j,
{
    if j > 0 {
        lemma_keys_upto_append(a, b, j - 1);
        assert(rec_seq_line(a + b, j - 1) == rec_seq_line(a, j - 1));
        assert(keys_upto(a + b, j) =~= keys_upto(a, j));
    }
}

/// The shape of the output after `i` records: four lines for each accepted
/// record; its records carry exactly the keys seen so far, each at the
/// position of its first occurrence, so each of them is accepted in turn.
proof fn lemma_out_structure(ls: Seq<Seq<char>>, i: int)
    requires
        0 <= i <= num_records(ls),
        all_ok_upto(ls, i),
    ensures
        out_upto(ls, i).len() == 4 * acc_upto(ls, i),
        keys_upto(out_upto(ls, i), acc_upto(ls, i)) == keys_upto(ls, i),
        forall|j: int|
            0 <= j < acc_upto(ls, i) ==> line_ok(#[trigger] rec_seq_line(out_upto(ls, i), j)),
        forall|j: int| 0 <= j < acc_upto(ls, i) ==> #[trigger] rec_accepted(out_upto(ls, i), j),
    decreases i,
{
    if i > 0 {
        assert(4 * i <= ls.len()) by {
            vstd::arithmetic::div_mod::lemma_fundamental_div_mod(ls.len() as int, 4);
            vstd::arithmetic::div_mod::lemma_mod_bound(ls.len() as int, 4);
            assert(4 * i <= 4 * num_records(ls)) by (nonlinear_arith)
                requires
                    i <= num_records(ls),
            ;
        }
        assert(all_ok_upto(ls, i - 1));
        lemma_out_structure(ls, i - 1);
        let o1 = out_upto(ls, i - 1);
        let a1 = acc_upto(ls, i - 1);
        let k = line_key(rec_seq_line(ls, i - 1));
        if rec_accepted(ls, i - 1) {
            let g = rec_lines(ls, i - 1);
            let o = o1 + g;
            assert(out_upto(ls, i) == o);
            assert(o.len() == 4 * a1 + 4);
            assert(rec_seq_line(o, a1) == g[1]);
            assert(g[1] == rec_seq_line(ls, i - 1));
            lemma_keys_upto_append(o1, g, a1);
            assert(keys_upto(o, a1 + 1) =~= keys_upto(ls, i));
            assert forall|j: int|
                0 <= j < a1 + 1 implies line_ok(#[trigger] rec_seq_line(o, j))
                && rec_accepted(o, j) by {
                if j < a1 {
                    assert(rec_seq_line(o, j) == rec_seq_line(o1, j));
                    lemma_keys_upto_append(o1, g, j);
                    assert(keys_upto(o, j) == keys_upto(o1, j));
                    assert(rec_accepted(o1, j));
                    assert(line_ok(rec_seq_line(o1, j)));
                } else {
                    assert(rec_seq_line(o, j) == rec_seq_line(ls, i - 1));
                    assert(line_ok(rec_seq_line(ls, i - 1)));
                    assert(keys_upto(o, a1) == keys_upto(ls, i - 1));
                    assert(!keys_upto(ls, i - 1).contains(k));
                }
            }
            assert(forall|j: int| 0 <= j < acc_upto(ls, i) ==> #[trigger] rec_accepted(o, j));
        } else {
            assert(out_upto(ls, i) == o1);
            assert(acc_upto(ls, i) == a1);
            assert(keys_upto(ls, i - 1).insert(k) =~= keys_upto(ls, i - 1));
            assert(keys_upto(ls, i) == keys_upto(ls, i - 1));
        }
    }
}

/// A stream whose every record is accepted is reproduced unchanged, record
/// by record.
proof fn lemma_all_accepted(o: Seq<Seq<char>>, m: int)
    requires
        0 <= m,
        4 * m <= o.len(),
        forall|j: int| 0 <= j < m ==> #[trigger] rec_accepted(o, j),
    ensures
        acc_upto(o, m) == m,
        out_upto(o, m) == o.subrange(0, 4 * m),
    decreases m,
{
    if m > 0 {
        lemma_all_accepted(o, m - 1);
        assert(rec_lines(o, m - 1) == o.subrange(4 * m - 4, 4 * m));
        assert(out_upto(o, m) =~= o.subrange(0, 4 * m));
    } else {
        assert(out_upto(o, m) =~= o.subrange(0, 0));
    }
}

/// Idempotence: running the pipeline on its own output reproduces that
/// output unchanged — every key is already at its first occurrence, so every
/// record of the output is accepted again, and the counters agree.
pub proof fn lemma_idempotent(ls: Seq<Seq<char>>)
    requires
        all_ok_upto(ls, num_records(ls)),
    ensures
        ({
            let o = out_upto(ls, num_records(ls));
            &&& o.len() == 4 * num_records(o)
            &&& all_ok_upto(o, num_records(o))
            &&& acc_upto(o, num_records(o)) == num_records(o)
            &&& out_upto(o, num_records(o)) == o
        }),
{
    let n = num_records(ls);
    assert(n >= 0) by {
        vstd::arithmetic::div_mod::lemma_div_is_ordered(0, ls.len() as int, 4);
    }
    lemma_out_structure(ls, n);
    let o = out_upto(ls, n);
    let a = acc_upto(ls, n);
    assert(o.len() == 4 * a);
    assert(a >= 0) by {
        lemma_counter_consistency(ls, n);
    }
    assert(num_records(o) == a) by {
        vstd::arithmetic::div_mod::lemma_div_multiples_vanish_fancy(a, 0, 4);
    }
    lemma_all_accepted(o, a);
    assert(o.subrange(0, 4 * a) =~= o);
}

} // verus!
