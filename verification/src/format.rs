//! The packed format, as spec functions: what packing produces and what unpacking reads.
use vstd::prelude::*;
use crate::bits::ones_below;
use crate::word::{mark_nonzero, nonzeros, expand};

verus! {

/// Number of zero bytes at the front of `s`, at most `max`.
pub open spec fn zero_run(s: Seq<u8>, max: nat) -> nat
    decreases s.len(),
{
    if max == 0 || s.len() == 0 || s[0] != 0 {
        0
    } else {
        1 + zero_run(s.drop_first(), (max - 1) as nat)
    }
}

/// Number of zero bytes in `s`.
pub open spec fn zero_count(s: Seq<u8>) -> nat
    decreases s.len(),
{
    if s.len() == 0 {
        0
    } else {
        zero_count(s.drop_last()) + if s.last() == 0 {
            1nat
        } else {
            0nat
        }
    }
}

/// Index of the first zero byte of `s` at or after `j`; `s.len()` if there is none.
pub open spec fn first_zero(s: Seq<u8>, j: nat) -> nat
    decreases s.len() - j,
{
    if j >= s.len() {
        s.len()
    } else if s[j as int] == 0 {
        j
    } else {
        first_zero(s, j + 1)
    }
}

/// Length of the literal run that follows an all non-zero word, `rest` being what follows it.
/// The run grows by chunks of 8 bytes (at most 31 of them) until two neighbouring chunks hold
/// at least 3 zeros together; it then stops at the first zero of those chunks.  Where fewer than
/// 8 bytes are left, they count as the last chunk, and without enough zeros the run takes them all.
pub open spec fn literal_scan(rest: Seq<u8>, k: nat, last: nat) -> nat
    decreases 31 - k,
{
    if k >= 31 {
        248
    } else if 8 * k + 8 <= rest.len() {
        let cur = zero_count(rest.subrange(8 * k as int, 8 * k as int + 8));
        if last + cur >= 3 {
            first_zero(rest, if last > 0 { (8 * k - 8) as nat } else { 8 * k })
        } else {
            literal_scan(rest, k + 1, cur)
        }
    } else {
        let cur = zero_count(rest.skip(8 * k as int));
        if last + cur >= 3 {
            first_zero(rest, if k > 0 { (8 * k - 8) as nat } else { 8 * k })
        } else {
            rest.len()
        }
    }
}

pub open spec fn literal_len(rest: Seq<u8>) -> nat {
    literal_scan(rest, 0, 0)
}

/// The tag of a full word: bit `j` set iff byte `j` is non-zero.
pub open spec fn word_tag(w: Seq<u8>) -> u8 {
    mark_nonzero(0u8, w, 8)
}

/// The tag of the last, short piece of the input: the places of the missing bytes are set.
pub open spec fn tail_tag(s: Seq<u8>) -> u8 {
    mark_nonzero(0xffu8 << (s.len() as u8), s, s.len())
}

pub proof fn lemma_zero_run_bound(s: Seq<u8>, max: nat)
    ensures
        zero_run(s, max) <= s.len(),
        zero_run(s, max) <= max,
    decreases s.len(),
{
    if !(max == 0 || s.len() == 0 || s[0] != 0) {
        lemma_zero_run_bound(s.drop_first(), (max - 1) as nat);
    }
}

pub proof fn lemma_first_zero_bound(s: Seq<u8>, j: nat)
    ensures
        first_zero(s, j) <= s.len(),
        j <= s.len() ==> j <= first_zero(s, j),
    decreases s.len() - j,
{
    if j < s.len() && s[j as int] != 0 {
        lemma_first_zero_bound(s, j + 1);
    }
}

pub proof fn lemma_literal_scan_bound(rest: Seq<u8>, k: nat, last: nat)
    requires
        8 * k <= rest.len(),
    ensures
        literal_scan(rest, k, last) <= rest.len(),
    decreases 31 - k,
{
    if k < 31 {
        if 8 * k + 8 <= rest.len() {
            let cur = zero_count(rest.subrange(8 * k as int, 8 * k as int + 8));
            if last + cur >= 3 {
                lemma_first_zero_bound(rest, if last > 0 { (8 * k - 8) as nat } else { 8 * k });
            } else {
                lemma_literal_scan_bound(rest, k + 1, cur);
            }
        } else {
            lemma_first_zero_bound(rest, if k > 0 { (8 * k - 8) as nat } else { 8 * k });
        }
    }
}

pub proof fn lemma_literal_len_bound(rest: Seq<u8>)
    ensures
        literal_len(rest) <= rest.len(),
        literal_len(rest) <= 248,
{
    lemma_literal_scan_bound(rest, 0, 0);
    lemma_literal_scan_le_248(rest, 0, 0);
}

pub proof fn lemma_zero_count_witness(x: Seq<u8>)
    requires
        zero_count(x) > 0,
    ensures
        exists|i: int| 0 <= i < x.len() && x[i] == 0,
    decreases x.len(),
{
    if x.last() != 0 {
        lemma_zero_count_witness(x.drop_last());
        let i = choose|i: int| 0 <= i < x.drop_last().len() && x.drop_last()[i] == 0;
        assert(x[i] == 0);
    } else {
        assert(x[x.len() - 1] == 0);
    }
}

pub proof fn lemma_first_zero_at_most(s: Seq<u8>, j: nat, z: nat)
    requires
        j <= z < s.len(),
        s[z as int] == 0,
    ensures
        first_zero(s, j) <= z,
    decreases s.len() - j,
{
    if s[j as int] != 0 {
        lemma_first_zero_at_most(s, j + 1, z);
    }
}

/// A chunk `a..b` that holds a zero bounds the first zero found from `a`.
proof fn lemma_first_zero_in_chunk(s: Seq<u8>, a: nat, b: nat)
    requires
        a <= b <= s.len(),
        zero_count(s.subrange(a as int, b as int)) > 0,
    ensures
        first_zero(s, a) < b,
{
    lemma_zero_count_witness(s.subrange(a as int, b as int));
    let i = choose|i: int| 0 <= i < b - a && s.subrange(a as int, b as int)[i] == 0;
    lemma_first_zero_at_most(s, a, (a + i) as nat);
}

proof fn lemma_literal_scan_le_248(rest: Seq<u8>, k: nat, last: nat)
    requires
        k <= 31,
        8 * k <= rest.len(),
        k == 0 ==> last == 0,
        k > 0 ==> last == zero_count(rest.subrange(8 * k as int - 8, 8 * k as int)),
    ensures
        literal_scan(rest, k, last) <= 248,
    decreases 31 - k,
{
    if k < 31 {
        if 8 * k + 8 <= rest.len() {
            let cur = zero_count(rest.subrange(8 * k as int, 8 * k as int + 8));
            if last + cur >= 3 {
                if last > 0 {
                    lemma_first_zero_in_chunk(rest, (8 * k - 8) as nat, 8 * k);
                } else {
                    lemma_first_zero_in_chunk(rest, 8 * k, 8 * k + 8);
                }
            } else {
                lemma_literal_scan_le_248(rest, k + 1, cur);
            }
        } else {
            lemma_first_zero_bound(rest, if k > 0 { (8 * k - 8) as nat } else { 8 * k });
        }
    }
}

/// The packed form of `s`.
///
/// Input is read by words of 8 bytes. A word of zeros is written as `0x00` and a count:
/// 7 plus the number of further zero bytes that follow it (at most 248), which it also takes.
/// A word of non-zero bytes is written as `0xff`, the word, the length of the literal run that
/// follows it, and that run. Any other word is written as its tag and its non-zero bytes.
/// Fewer than 8 final bytes are written as their tag, with the bits of the missing bytes set,
/// and their non-zero bytes.
pub open spec fn pack_spec(s: Seq<u8>) -> Seq<u8>
    decreases s.len(),
{
    if s.len() >= 8 {
        let w = s.take(8);
        let rest = s.skip(8);
        let t = word_tag(w);
        if t == 0 {
            let e = zero_run(rest, 248);
            proof {
                lemma_zero_run_bound(rest, 248);
            }
            seq![0u8, (7 + e) as u8] + pack_spec(rest.skip(e as int))
        } else if t == 0xff {
            let n = literal_len(rest);
            proof {
                lemma_literal_len_bound(rest);
            }
            seq![0xffu8] + w + seq![n as u8] + rest.take(n as int) + pack_spec(rest.skip(n as int))
        } else {
            seq![t] + nonzeros(w) + pack_spec(rest)
        }
    } else if s.len() > 0 {
        seq![tail_tag(s)] + nonzeros(s)
    } else {
        seq![]
    }
}

/// `head` in front of a successful result; an error passes through.
pub open spec fn prepend(head: Seq<u8>, r: Result<Seq<u8>, u8>) -> Result<Seq<u8>, u8> {
    match r {
        Ok(tail) => Ok(head + tail),
        Err(t) => Err(t),
    }
}

/// What unpacking `p` gives: the bytes, or the tag that wanted more input than was left.
pub open spec fn unpack_spec(p: Seq<u8>) -> Result<Seq<u8>, u8>
    decreases p.len(),
{
    if p.len() == 0 {
        Ok(seq![])
    } else if p[0] == 0 {
        if p.len() < 2 {
            Err(0u8)
        } else {
            prepend(Seq::new(p[1] as nat + 1, |_i: int| 0u8), unpack_spec(p.skip(2)))
        }
    } else if p[0] == 0xff {
        if p.len() < 10 {
            Ok(p.skip(1))
        } else if 10 + p[9] > p.len() {
            Err(0xffu8)
        } else {
            prepend(
                p.subrange(1, 9) + p.subrange(10, 10 + p[9]),
                unpack_spec(p.skip(10 + p[9])),
            )
        }
    } else {
        let t = p[0];
        let n = ones_below(t, 8);
        if n < p.len() {
            prepend(expand(t, p.skip(1), 8), unpack_spec(p.skip(1 + n as int)))
        } else {
            let left = (p.len() - 1) as nat;
            let valid = (8 - n + left) as nat;
            if ones_below(t, valid) != left {
                Err(t)
            } else {
                Ok(expand(t, p.skip(1), valid))
            }
        }
    }
}

} // verus!
