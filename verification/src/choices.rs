//! What `pack` writes for each kind of word, stated over its input.
use vstd::prelude::*;
use crate::bits::{bit, ones_below, lemma_bit_extremes, lemma_bits_determine, lemma_ones_below_mono};
use crate::word::{nonzeros, expand, lemma_ones_count_nonzeros, lemma_expand_nonzeros, lemma_nonzeros_len};
use crate::format::{
    zero_run, zero_count, first_zero, literal_scan, literal_len, word_tag, tail_tag, pack_spec,
    lemma_zero_run_bound, lemma_literal_len_bound, lemma_zero_count_witness,
};
use crate::laws::{lemma_zero_run_zeros, lemma_word_tag_bits, lemma_tail_tag_bits};

verus! {

/// First index of window `k` of `rest`: chunk `k` (bytes `8k..8k+8`) with the chunk before it.
pub open spec fn window_start(k: nat) -> nat {
    if k > 0 {
        (8 * k - 8) as nat
    } else {
        0
    }
}

/// End of window `k` of `rest`: the end of chunk `k`, or of `rest` where that chunk is short.
pub open spec fn window_end(rest: Seq<u8>, k: nat) -> nat {
    if 8 * k + 8 <= rest.len() {
        8 * k + 8
    } else {
        rest.len()
    }
}

/// Window `k` of `rest` holds at least 3 zero bytes.
pub open spec fn dense_window(rest: Seq<u8>, k: nat) -> bool {
    zero_count(rest.subrange(window_start(k) as int, window_end(rest, k) as int)) >= 3
}

/// Zeros of the chunk before chunk `k`.
spec fn zeros_before(rest: Seq<u8>, k: nat) -> nat {
    if k > 0 {
        zero_count(rest.subrange(8 * k as int - 8, 8 * k as int))
    } else {
        0
    }
}

proof fn lemma_zero_count_add(a: Seq<u8>, b: Seq<u8>)
    ensures
        zero_count(a + b) == zero_count(a) + zero_count(b),
    decreases b.len(),
{
    if b.len() == 0 {
        assert(a + b =~= a);
    } else {
        lemma_zero_count_add(a, b.drop_last());
        assert((a + b).drop_last() =~= a + b.drop_last());
    }
}

proof fn lemma_zero_count_none(x: Seq<u8>)
    requires
        zero_count(x) == 0,
    ensures
        forall|i: int| 0 <= i < x.len() ==> x[i] != 0,
    decreases x.len(),
{
    if x.len() > 0 {
        lemma_zero_count_none(x.drop_last());
        assert forall|i: int| 0 <= i < x.len() implies x[i] != 0 by {
            if i < x.len() - 1 {
                assert(x[i] == x.drop_last()[i]);
            }
        }
    }
}

/// Where a zero lies at or after `j`, `first_zero` finds the first one.
proof fn lemma_first_zero_found(s: Seq<u8>, j: nat, z: nat)
    requires
        j <= z < s.len(),
        s[z as int] == 0,
    ensures
        j <= first_zero(s, j) <= z,
        s[first_zero(s, j) as int] == 0,
        forall|i: int| j <= i < first_zero(s, j) ==> s[i] != 0,
    decreases s.len() - j,
{
    if s[j as int] != 0 {
        lemma_first_zero_found(s, j + 1, z);
    }
}

proof fn lemma_first_zero_skips_nonzero(s: Seq<u8>, a: nat, b: nat)
    requires
        a <= b <= s.len(),
        forall|i: int| a <= i < b ==> s[i] != 0,
    ensures
        first_zero(s, a) == first_zero(s, b),
    decreases b - a,
{
    if a < b {
        lemma_first_zero_skips_nonzero(s, a + 1, b);
    }
}

/// The zeros of window `k` are those of chunk `k` and of the chunk before it.
proof fn lemma_window_count(rest: Seq<u8>, k: nat)
    requires
        8 * k <= rest.len(),
    ensures
        zero_count(rest.subrange(window_start(k) as int, window_end(rest, k) as int))
            == zeros_before(rest, k) + zero_count(rest.subrange(8 * k as int, window_end(rest, k) as int)),
{
    let lo = window_start(k) as int;
    let mid = 8 * k as int;
    let hi = window_end(rest, k) as int;
    lemma_zero_count_add(rest.subrange(lo, mid), rest.subrange(mid, hi));
    assert(rest.subrange(lo, mid) + rest.subrange(mid, hi) =~= rest.subrange(lo, hi));
    if k == 0 {
        assert(rest.subrange(lo, mid) =~= Seq::<u8>::empty());
    }
}

/// The scan passes over windows that are not dense.
proof fn lemma_scan_passes(rest: Seq<u8>, k: nat, stop: nat)
    requires
        k <= stop <= 31,
        8 * stop <= rest.len(),
        forall|j: nat| k <= j < stop ==> !#[trigger] dense_window(rest, j),
    ensures
        literal_scan(rest, k, zeros_before(rest, k)) == literal_scan(rest, stop, zeros_before(rest, stop)),
    decreases stop - k,
{
    if k < stop {
        lemma_window_count(rest, k);
        assert(!dense_window(rest, k));
        assert(zeros_before(rest, k + 1) == zero_count(rest.subrange(8 * k as int, 8 * k as int + 8)));
        lemma_scan_passes(rest, k + 1, stop);
    }
}

/// The first 8 bytes of `s` are all zero or all non-zero; the tag says which.
proof fn lemma_uniform_word(s: Seq<u8>)
    requires
        s.len() >= 8,
    ensures
        (forall|i: int| 0 <= i < 8 ==> s[i] == 0) ==> word_tag(s.take(8)) == 0,
        (forall|i: int| 0 <= i < 8 ==> s[i] != 0) ==> word_tag(s.take(8)) == 0xff,
{
    let w = s.take(8);
    lemma_word_tag_bits(w);
    lemma_bits_determine(word_tag(w));
    if forall|i: int| 0 <= i < 8 ==> s[i] == 0 {
        assert forall|j: u8| j < 8 implies !#[trigger] bit(word_tag(w), j) by {
            assert(w[j as int] == s[j as int]);
        }
    }
    if forall|i: int| 0 <= i < 8 ==> s[i] != 0 {
        assert forall|j: u8| j < 8 implies #[trigger] bit(word_tag(w), j) by {
            assert(w[j as int] == s[j as int]);
        }
    }
}

/// A word of zeros is written as `0x00` and a count `c`: the word and the `c - 7` zero bytes that
/// directly follow it are taken, as many as follow up to 248.
pub proof fn zero_word_takes_following_zeros(s: Seq<u8>)
    requires
        s.len() >= 8,
        forall|i: int| 0 <= i < 8 ==> s[i] == 0,
    ensures
        ({
            let p = pack_spec(s);
            let e = p[1] - 7;
            &&& p.len() >= 2
            &&& p[0] == 0
            &&& 0 <= e <= 248
            &&& 8 + e <= s.len()
            &&& forall|i: int| 8 <= i < 8 + e ==> s[i] == 0
            &&& (e == 248 || 8 + e == s.len() || s[8 + e as int] != 0)
            &&& p.skip(2) == pack_spec(s.skip(8 + e as int))
        }),
{
    let rest = s.skip(8);
    lemma_uniform_word(s);
    let e = zero_run(rest, 248);
    lemma_zero_run_bound(rest, 248);
    lemma_zero_run_zeros(rest, 248);
    lemma_zero_run_stops(rest, 248);
    let p = pack_spec(s);
    assert(p == seq![0u8, (7 + e) as u8] + pack_spec(rest.skip(e as int)));
    assert(p.skip(2) =~= pack_spec(rest.skip(e as int)));
    assert(rest.skip(e as int) =~= s.skip(8 + e as int));
    assert forall|i: int| 8 <= i < 8 + e implies s[i] == 0 by {
        assert(s[i] == rest[i - 8]);
    }
    if e < 248 && 8 + e < s.len() {
        assert(s[8 + e as int] == rest[e as int]);
    }
}

proof fn lemma_zero_run_stops(s: Seq<u8>, max: nat)
    ensures
        zero_run(s, max) == max || zero_run(s, max) == s.len() || s[zero_run(s, max) as int] != 0,
    decreases s.len(),
{
    if !(max == 0 || s.len() == 0 || s[0] != 0) {
        lemma_zero_run_stops(s.drop_first(), (max - 1) as nat);
        lemma_zero_run_bound(s.drop_first(), (max - 1) as nat);
        let r = zero_run(s.drop_first(), (max - 1) as nat);
        if r < s.drop_first().len() {
            assert(s[r as int + 1] == s.drop_first()[r as int]);
        }
    }
}

/// How a word of non-zero bytes is written: `0xff`, the word, the literal count `n`, and the
/// `n` bytes after the word as they are; packing goes on after them.
pub open spec fn literal_framing(s: Seq<u8>, n: nat) -> bool {
    let p = pack_spec(s);
    &&& p.len() >= 10 + n
    &&& p[0] == 0xff
    &&& p.subrange(1, 9) == s.take(8)
    &&& p[9] == n
    &&& 8 + n <= s.len()
    &&& p.subrange(10, 10 + n as int) == s.subrange(8, 8 + n as int)
    &&& p.skip(10 + n as int) == pack_spec(s.skip(8 + n as int))
}

proof fn lemma_literal_framing(s: Seq<u8>)
    requires
        s.len() >= 8,
        forall|i: int| 0 <= i < 8 ==> s[i] != 0,
    ensures
        literal_framing(s, literal_len(s.skip(8))),
{
    let rest = s.skip(8);
    lemma_uniform_word(s);
    let n = literal_len(rest);
    lemma_literal_len_bound(rest);
    let p = pack_spec(s);
    let head = seq![0xffu8] + s.take(8) + seq![n as u8] + rest.take(n as int);
    assert(p == head + pack_spec(rest.skip(n as int)));
    assert(p.subrange(1, 9) =~= s.take(8));
    assert(p.subrange(10, 10 + n as int) =~= s.subrange(8, 8 + n as int));
    assert(p.skip(10 + n as int) =~= pack_spec(rest.skip(n as int)));
    assert(rest.skip(n as int) =~= s.skip(8 + n as int));
}

/// After a word of non-zero bytes, the literal run goes on through the windows that hold fewer
/// than 3 zeros. At the first window that holds 3 (window `k`: chunk `k` of the bytes after the
/// word, short at the end of the input, with the chunk before it), the run stops at the first
/// zero of that window.
pub proof fn literal_run_stops_at_first_dense_window(s: Seq<u8>, k: nat)
    requires
        s.len() >= 8,
        forall|i: int| 0 <= i < 8 ==> s[i] != 0,
        k <= 30,
        8 * k <= s.len() - 8,
        dense_window(s.skip(8), k),
        forall|j: nat| j < k ==> !#[trigger] dense_window(s.skip(8), j),
    ensures
        ({
            let n = pack_spec(s)[9] as int;
            let lo = 8 + window_start(k);
            &&& literal_framing(s, n as nat)
            &&& lo <= 8 + n < s.len()
            &&& s[8 + n] == 0
            &&& forall|i: int| lo <= i < 8 + n ==> s[i] != 0
        }),
{
    let rest = s.skip(8);
    lemma_literal_framing(s);
    lemma_scan_passes(rest, 0, k);
    let last = zeros_before(rest, k);
    lemma_window_count(rest, k);
    let lo = window_start(k);
    let hi = window_end(rest, k);
    // a zero of the window
    lemma_zero_count_witness(rest.subrange(lo as int, hi as int));
    let z = choose|i: int| 0 <= i < hi - lo && rest.subrange(lo as int, hi as int)[i] == 0;
    assert(rest[lo + z] == 0);
    // the scan stops at window k, at the first zero from its start
    let from = if 8 * k + 8 <= rest.len() {
        if last > 0 { (8 * k - 8) as nat } else { 8 * k }
    } else {
        if k > 0 { (8 * k - 8) as nat } else { 8 * k }
    };
    assert(literal_scan(rest, k, last) == first_zero(rest, from));
    if from != lo {
        // the chunk before holds no zero
        lemma_zero_count_none(rest.subrange(8 * k as int - 8, 8 * k as int));
        assert forall|i: int| lo <= i < 8 * k implies rest[i] != 0 by {
            assert(rest[i] == rest.subrange(8 * k as int - 8, 8 * k as int)[i - lo]);
        }
        lemma_first_zero_skips_nonzero(rest, lo, 8 * k);
    }
    lemma_first_zero_found(rest, lo, (lo + z) as nat);
    let n = first_zero(rest, lo);
    assert(literal_len(rest) == n);
    assert(s[8 + n as int] == rest[n as int]);
    assert forall|i: int| 8 + lo <= i < 8 + n implies s[i] != 0 by {
        assert(s[i] == rest[i - 8]);
    }
}

/// After a word of non-zero bytes, where no window of the bytes that follow (up to the 31st)
/// holds 3 zeros, the literal run takes all of them, up to 248.
pub proof fn literal_run_without_dense_window(s: Seq<u8>)
    requires
        s.len() >= 8,
        forall|i: int| 0 <= i < 8 ==> s[i] != 0,
        forall|k: nat| k <= 30 && 8 * k <= s.len() - 8 ==> !#[trigger] dense_window(s.skip(8), k),
    ensures
        literal_framing(s, pack_spec(s)[9] as nat),
        pack_spec(s)[9] == if s.len() - 8 < 248 { s.len() - 8 } else { 248 },
{
    let rest = s.skip(8);
    lemma_literal_framing(s);
    if rest.len() >= 248 {
        lemma_scan_passes(rest, 0, 31);
    } else {
        let k = (rest.len() / 8) as nat;
        assert(8 * k <= rest.len() < 8 * k + 8);
        lemma_scan_passes(rest, 0, k);
        lemma_window_count(rest, k);
        assert(!dense_window(rest, k));
        assert(rest.skip(8 * k as int) =~= rest.subrange(8 * k as int, rest.len() as int));
    }
}

/// A word with both zero and non-zero bytes is written as its tag (bit `j` set iff byte `j` is
/// non-zero) and its non-zero bytes in order; packing goes on with the next word.
pub proof fn mixed_word_is_tag_and_nonzero_bytes(s: Seq<u8>)
    requires
        s.len() >= 8,
        exists|i: int| 0 <= i < 8 && s[i] == 0,
        exists|i: int| 0 <= i < 8 && s[i] != 0,
    ensures
        ({
            let p = pack_spec(s);
            let t = p[0];
            let c = ones_below(t, 8);
            &&& forall|j: u8| j < 8 ==> #[trigger] bit(t, j) == (s[j as int] != 0)
            &&& p.len() >= 1 + c
            &&& forall|j: u8| j < 8 && s[j as int] != 0 ==> p[1 + ones_below(t, j as nat) as int] == s[j as int]
            &&& p.skip(1 + c as int) == pack_spec(s.skip(8))
        }),
{
    let w = s.take(8);
    let t = word_tag(w);
    lemma_word_tag_bits(w);
    let a = choose|i: int| 0 <= i < 8 && s[i] == 0;
    let b = choose|i: int| 0 <= i < 8 && s[i] != 0;
    lemma_bit_extremes(a as u8);
    lemma_bit_extremes(b as u8);
    assert(w[a] == s[a] && w[b] == s[b]);
    assert(t != 0 && t != 0xff);
    let rest_p = pack_spec(s.skip(8));
    let p = pack_spec(s);
    assert(p == seq![t] + nonzeros(w) + rest_p);
    lemma_ones_count_nonzeros(t, w, 8);
    assert(w.take(8) =~= w);
    let c = ones_below(t, 8);
    assert(p.skip(1) =~= nonzeros(w) + rest_p);
    assert(p.skip(1 + c as int) =~= rest_p);
    lemma_expand_nonzeros(t, w, rest_p);
    assert forall|j: u8| j < 8 && s[j as int] != 0 implies p[1 + ones_below(t, j as nat) as int] == s[j as int] by {
        assert(w[j as int] == s[j as int]);
        lemma_ones_below_mono(t, j as nat, 8);
        assert(expand(t, nonzeros(w) + rest_p, 8)[j as int] == w[j as int]);
        assert(p[1 + ones_below(t, j as nat) as int] == p.skip(1)[ones_below(t, j as nat) as int]);
    }
    assert forall|j: u8| j < 8 implies #[trigger] bit(t, j) == (s[j as int] != 0) by {
        assert(w[j as int] == s[j as int]);
    }
}

/// Fewer than 8 bytes are written as one tag, whose bits for the missing bytes are set and whose
/// other bits mark the non-zero bytes, followed by the non-zero bytes in order.
pub proof fn short_input_is_filled_tag(s: Seq<u8>)
    requires
        0 < s.len() < 8,
    ensures
        ({
            let p = pack_spec(s);
            let t = p[0];
            let d = s.len();
            &&& forall|j: u8| j < 8 ==> #[trigger] bit(t, j) == (j >= d || s[j as int] != 0)
            &&& p.len() == 1 + ones_below(t, d)
            &&& forall|j: u8| j < d && s[j as int] != 0 ==> p[1 + ones_below(t, j as nat) as int] == s[j as int]
        }),
{
    let d = s.len();
    let t = tail_tag(s);
    lemma_tail_tag_bits(s);
    let p = pack_spec(s);
    assert(p == seq![t] + nonzeros(s));
    assert forall|j: u8| j < d implies #[trigger] bit(t, j) == (s[j as int] != 0) by {}
    lemma_ones_count_nonzeros(t, s, d);
    assert(s.take(d as int) =~= s);
    lemma_expand_nonzeros(t, s, seq![]);
    assert(nonzeros(s) + seq![] =~= nonzeros(s));
    assert(p.skip(1) =~= nonzeros(s));
    assert forall|j: u8| j < d && s[j as int] != 0 implies p[1 + ones_below(t, j as nat) as int] == s[j as int] by {
        lemma_ones_below_mono(t, j as nat, d);
        assert(expand(t, nonzeros(s), d)[j as int] == s[j as int]);
        assert(p[1 + ones_below(t, j as nat) as int] == p.skip(1)[ones_below(t, j as nat) as int]);
    }
}

} // verus!
