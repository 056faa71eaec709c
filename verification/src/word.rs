use vstd::prelude::*;
use crate::bits::{bit, ones_below, lemma_bit_set, lemma_ones_below_mono};

verus! {

/// Starting from `init`, sets bit `j` for every `j < k` with `w[j] != 0`.
pub open spec fn mark_nonzero(init: u8, w: Seq<u8>, k: nat) -> u8
    decreases k,
{
    if k == 0 {
        init
    } else {
        let t = mark_nonzero(init, w, (k - 1) as nat);
        if w[k - 1] != 0 {
            t | (1u8 << ((k - 1) as u8))
        } else {
            t
        }
    }
}

/// The non-zero bytes of `s`, in order.
pub open spec fn nonzeros(s: Seq<u8>) -> Seq<u8>
    decreases s.len(),
{
    if s.len() == 0 {
        seq![]
    } else {
        let p = nonzeros(s.drop_last());
        if s.last() != 0 {
            p.push(s.last())
        } else {
            p
        }
    }
}

/// The 8 bytes that a tag `t` and its packed bytes stand for, restricted to the first `k`:
/// byte `j` is the next packed byte where bit `j` is set, and zero elsewhere.
pub open spec fn expand(t: u8, packed: Seq<u8>, k: nat) -> Seq<u8> {
    Seq::new(k, |j: int| if bit(t, j as u8) { packed[ones_below(t, j as nat) as int] } else { 0u8 })
}

/// Bits of a marked tag: those of `init`, and those of the non-zero bytes.
pub proof fn lemma_mark_bits(init: u8, w: Seq<u8>, k: nat, j: u8)
    requires
        k <= w.len(),
        k <= 8,
        j < 8,
    ensures
        bit(mark_nonzero(init, w, k), j) == (bit(init, j) || (j < k && w[j as int] != 0)),
    decreases k,
{
    if k > 0 {
        lemma_mark_bits(init, w, (k - 1) as nat, j);
        let t = mark_nonzero(init, w, (k - 1) as nat);
        if w[k - 1] != 0 {
            lemma_bit_set(t, (k - 1) as u8, j);
        }
    }
}

pub proof fn lemma_nonzeros_step(s: Seq<u8>, k: nat)
    requires
        k < s.len(),
    ensures
        nonzeros(s.take(k as int + 1)) == if s[k as int] != 0 {
            nonzeros(s.take(k as int)).push(s[k as int])
        } else {
            nonzeros(s.take(k as int))
        },
{
    assert(s.take(k as int + 1).drop_last() =~= s.take(k as int));
}

pub proof fn lemma_nonzeros_len(s: Seq<u8>)
    ensures
        nonzeros(s).len() <= s.len(),
    decreases s.len(),
{
    if s.len() > 0 {
        lemma_nonzeros_len(s.drop_last());
    }
}

/// The non-zero bytes of a prefix are a prefix of those of a longer prefix.
pub proof fn lemma_nonzeros_prefix(s: Seq<u8>, a: nat, b: nat)
    requires
        a <= b <= s.len(),
    ensures
        nonzeros(s.take(a as int)).len() <= nonzeros(s.take(b as int)).len(),
        forall|i: int|
            0 <= i < nonzeros(s.take(a as int)).len() ==> #[trigger] nonzeros(s.take(b as int))[i]
                == nonzeros(s.take(a as int))[i],
    decreases b - a,
{
    if a < b {
        lemma_nonzeros_prefix(s, a, (b - 1) as nat);
        lemma_nonzeros_step(s, (b - 1) as nat);
    }
}

/// When the low `k` bits of `t` say which bytes of `w` are non-zero, they count them.
pub proof fn lemma_ones_count_nonzeros(t: u8, w: Seq<u8>, k: nat)
    requires
        k <= w.len(),
        k <= 8,
        forall|j: u8| j < k ==> #[trigger] bit(t, j) == (w[j as int] != 0),
    ensures
        ones_below(t, k) == nonzeros(w.take(k as int)).len(),
    decreases k,
{
    if k == 0 {
        assert(w.take(0) =~= Seq::<u8>::empty());
    } else {
        lemma_ones_count_nonzeros(t, w, (k - 1) as nat);
        lemma_nonzeros_step(w, (k - 1) as nat);
        assert(bit(t, (k - 1) as u8) == (w[k - 1] != 0));
    }
}

/// Expanding the non-zero bytes of `w` by a tag that marks them gives `w` back,
/// whatever follows the packed bytes.
pub proof fn lemma_expand_nonzeros(t: u8, w: Seq<u8>, rest: Seq<u8>)
    requires
        w.len() <= 8,
        forall|j: u8| j < w.len() ==> #[trigger] bit(t, j) == (w[j as int] != 0),
    ensures
        expand(t, nonzeros(w) + rest, w.len()) == w,
{
    let k = w.len();
    let e = expand(t, nonzeros(w) + rest, k);
    assert(w.take(k as int) =~= w);
    assert forall|j: int| 0 <= j < k implies e[j] == w[j] by {
        let ju = j as u8;
        assert(bit(t, ju) == (w[j] != 0));
        if w[j] != 0 {
            lemma_ones_count_nonzeros(t, w, j as nat);
            lemma_nonzeros_step(w, j as nat);
            lemma_nonzeros_prefix(w, (j + 1) as nat, k);
            let c = ones_below(t, j as nat);
            assert(nonzeros(w.take(j + 1))[c as int] == w[j]);
        }
    }
    assert(e =~= w);
}

/// Scans `count` bytes of `data` from `start`: the tag that marks the non-zero ones over `init`,
/// and the non-zero bytes themselves.
pub fn scan_word(data: &[u8], start: usize, count: usize, init: u8) -> (res: (u8, Vec<u8>))
    requires
        start + count <= data@.len(),
        count <= 8,
    ensures
        res.0 == mark_nonzero(init, data@.subrange(start as int, start + count), count as nat),
        res.1@ == nonzeros(data@.subrange(start as int, start + count)),
{
    let ghost w = data@.subrange(start as int, start + count);
    let mut tag: u8 = init;
    let mut buf: Vec<u8> = Vec::new();
    let mut i: usize = 0;
    assert(w.take(0) =~= Seq::<u8>::empty());
    while i < count
        invariant
            i <= count <= 8,
            start + count <= data.len(),
            w == data@.subrange(start as int, start + count),
            tag == mark_nonzero(init, w, i as nat),
            buf@ == nonzeros(w.take(i as int)),
        decreases count - i,
    {
        proof {
            lemma_nonzeros_step(w, i as nat);
        }
        let byte = data[start + i];
        if byte != 0 {
            tag = tag | (1u8 << (i as u8));
            buf.push(byte);
        }
        i = i + 1;
    }
    assert(w.take(count as int) =~= w);
    (tag, buf)
}

/// Appends the `k` bytes that `tag` stands for, its packed bytes being `data[start..]`.
pub fn expand_into(out: &mut Vec<u8>, data: &[u8], start: usize, tag: u8, k: u8)
    requires
        k <= 8,
        start + ones_below(tag, k as nat) <= data@.len(),
    ensures
        final(out)@ == old(out)@ + expand(tag, data@.skip(start as int), k as nat),
{
    let ghost packed = data@.skip(start as int);
    let ghost e = expand(tag, packed, k as nat);
    let mut j: u8 = 0;
    let mut used: usize = 0;
    while j < k
        invariant
            j <= k <= 8,
            start + ones_below(tag, k as nat) <= data.len(),
            packed == data@.skip(start as int),
            e == expand(tag, packed, k as nat),
            used == ones_below(tag, j as nat),
            out@ == old(out)@ + e.take(j as int),
        decreases k - j,
    {
        proof {
            lemma_ones_below_mono(tag, j as nat, k as nat);
            lemma_ones_below_mono(tag, j as nat + 1, k as nat);
        }
        if (tag >> j) & 1u8 == 1u8 {
            out.push(data[start + used]);
            used = used + 1;
        } else {
            out.push(0u8);
        }
        j = j + 1;
        assert(out@ =~= old(out)@ + e.take(j as int));
    }
    assert(e.take(k as int) =~= e);
}

} // verus!
