//! What holds of `pack` and `unpack` together.
use vstd::prelude::*;
use crate::bits::{bit, ones_below, lemma_bit_extremes, lemma_bit_high_fill, lemma_ones_below_bound};
use crate::word::{nonzeros, expand, lemma_mark_bits, lemma_ones_count_nonzeros, lemma_expand_nonzeros};
use crate::format::{
    zero_run, literal_len, word_tag, tail_tag, pack_spec, unpack_spec, lemma_zero_run_bound,
    lemma_literal_len_bound,
};

verus! {

pub proof fn lemma_zero_run_zeros(s: Seq<u8>, max: nat)
    ensures
        forall|i: int| 0 <= i < zero_run(s, max) ==> s[i] == 0,
    decreases s.len(),
{
    lemma_zero_run_bound(s, max);
    if !(max == 0 || s.len() == 0 || s[0] != 0) {
        lemma_zero_run_zeros(s.drop_first(), (max - 1) as nat);
        assert forall|i: int| 0 <= i < zero_run(s, max) implies s[i] == 0 by {
            if i > 0 {
                assert(s[i] == s.drop_first()[i - 1]);
            }
        }
    }
}

proof fn lemma_nonzeros_all(s: Seq<u8>)
    requires
        forall|i: int| 0 <= i < s.len() ==> s[i] != 0,
    ensures
        nonzeros(s) == s,
    decreases s.len(),
{
    if s.len() > 0 {
        lemma_nonzeros_all(s.drop_last());
        assert(s.drop_last().push(s.last()) =~= s);
    }
}

proof fn lemma_ones_high(t: u8, d: nat, k: nat)
    requires
        d <= k <= 8,
        forall|j: u8| d <= j < 8 ==> #[trigger] bit(t, j),
    ensures
        ones_below(t, k) == ones_below(t, d) + (k - d),
    decreases k - d,
{
    if d < k {
        lemma_ones_high(t, d, (k - 1) as nat);
        assert(bit(t, (k - 1) as u8));
    }
}

/// The bits of a word's tag say which of its bytes are non-zero.
pub proof fn lemma_word_tag_bits(w: Seq<u8>)
    requires
        w.len() == 8,
    ensures
        forall|j: u8| j < 8 ==> #[trigger] bit(word_tag(w), j) == (w[j as int] != 0),
{
    assert forall|j: u8| j < 8 implies #[trigger] bit(word_tag(w), j) == (w[j as int] != 0) by {
        lemma_mark_bits(0u8, w, 8, j);
        lemma_bit_extremes(j);
    }
}

/// The bits of a tail tag: set for the missing bytes and for the non-zero ones.
pub proof fn lemma_tail_tag_bits(s: Seq<u8>)
    requires
        0 < s.len() < 8,
    ensures
        forall|j: u8| j < 8 ==> #[trigger] bit(tail_tag(s), j) == (j >= s.len() || s[j as int] != 0),
{
    let d = s.len();
    assert forall|j: u8| j < 8 implies #[trigger] bit(tail_tag(s), j) == (j >= d || s[j as int] != 0) by {
        lemma_mark_bits(0xffu8 << (d as u8), s, d, j);
        lemma_bit_high_fill(d as u8, j);
    }
}

/// Unpacking the packed form of any data gives that data back.
pub proof fn unpack_undoes_pack(data: Seq<u8>)
    ensures
        unpack_spec(pack_spec(data)) == Ok::<Seq<u8>, u8>(data),
    decreases data.len(),
{
    let s = data;
    let packed = pack_spec(s);
    if s.len() >= 8 {
        let w = s.take(8);
        let rest = s.skip(8);
        let t = word_tag(w);
        lemma_word_tag_bits(w);
        assert(s =~= w + rest);
        if t == 0 {
            lemma_bit_extremes(0);
            let e = zero_run(rest, 248);
            lemma_zero_run_bound(rest, 248);
            lemma_zero_run_zeros(rest, 248);
            let next = rest.skip(e as int);
            let p = pack_spec(next);
            unpack_undoes_pack(next);
            assert(packed == seq![0u8, (7 + e) as u8] + p);
            assert(packed.skip(2) =~= p);
            assert forall|j: int| 0 <= j < 8 implies w[j] == 0 by {
                assert(bit(t, j as u8) == (w[j] != 0));
                lemma_bit_extremes(j as u8);
            }
            assert(Seq::new(packed[1] as nat + 1, |_i: int| 0u8) + next =~= s);
        } else if t == 0xff {
            let n = literal_len(rest);
            lemma_literal_len_bound(rest);
            let next = rest.skip(n as int);
            let p = pack_spec(next);
            unpack_undoes_pack(next);
            let head = seq![0xffu8] + w + seq![n as u8] + rest.take(n as int);
            assert(packed == head + p);
            assert(packed[9] == n);
            assert(packed.subrange(1, 9) =~= w);
            assert(packed.subrange(10, 10 + n as int) =~= rest.take(n as int));
            assert(packed.skip(10 + n as int) =~= p);
            assert(w + rest.take(n as int) + next =~= s);
        } else {
            let p = pack_spec(rest);
            unpack_undoes_pack(rest);
            assert(packed == seq![t] + nonzeros(w) + p);
            lemma_ones_count_nonzeros(t, w, 8);
            assert(w.take(8) =~= w);
            let n = ones_below(t, 8);
            assert(n == nonzeros(w).len());
            assert(packed.skip(1) =~= nonzeros(w) + p);
            assert(packed.skip(1 + n as int) =~= p);
            lemma_expand_nonzeros(t, w, p);
            assert(expand(t, packed.skip(1), 8) == w);
        }
    } else if s.len() > 0 {
        let d = s.len();
        let t = tail_tag(s);
        lemma_tail_tag_bits(s);
        assert(packed == seq![t] + nonzeros(s));
        assert(packed.skip(1) =~= nonzeros(s));
        crate::word::lemma_nonzeros_len(s);
        lemma_bit_extremes(7);
        assert(bit(t, 7));
        assert(t != 0);
        if t == 0xff {
            assert forall|i: int| 0 <= i < s.len() implies s[i] != 0 by {
                assert(bit(t, i as u8) == (i as u8 >= d || s[i] != 0));
                lemma_bit_extremes(i as u8);
            }
            lemma_nonzeros_all(s);
        } else {
            assert forall|j: u8| j < d implies #[trigger] bit(t, j) == (s[j as int] != 0) by {}
            lemma_ones_count_nonzeros(t, s, d);
            assert(s.take(d as int) =~= s);
            assert forall|j: u8| d <= j < 8 implies #[trigger] bit(t, j) by {}
            lemma_ones_high(t, d, 8);
            lemma_ones_below_bound(t, 8);
            let n = ones_below(t, 8);
            assert(n == nonzeros(s).len() + (8 - d));
            assert((8 - n + (packed.len() - 1)) as nat == d);
            lemma_expand_nonzeros(t, s, seq![]);
            assert(nonzeros(s) + seq![] =~= nonzeros(s));
        }
    } else {
        assert(packed =~= seq![]);
        assert(data =~= seq![]);
    }
}

} // verus!
