use vstd::prelude::*;
use crate::word::{nonzeros, scan_word};
use crate::buffer::{extend_range, extend_vec};
use crate::format::{
    zero_run, zero_count, first_zero, literal_scan, literal_len, word_tag, tail_tag, pack_spec,
    lemma_zero_run_bound, lemma_literal_len_bound, unpack_spec,
};
use crate::laws::unpack_undoes_pack;

verus! {

/// Number of zero bytes from `start` on, at most `max`.
fn count_zero_run(data: &[u8], start: usize, max: usize) -> (e: usize)
    requires
        start <= data.len(),
    ensures
        e == zero_run(data@.skip(start as int), max as nat),
{
    let ghost rest = data@.skip(start as int);
    let de = data.len();
    let mut e: usize = 0;
    assert(rest.skip(0) =~= rest);
    while e < max && e < de - start && data[start + e] == 0
        invariant
            start <= de == data.len(),
            e <= max,
            e <= de - start,
            rest == data@.skip(start as int),
            zero_run(rest, max as nat) == e + zero_run(rest.skip(e as int), (max - e) as nat),
        decreases max - e,
    {
        assert(rest.skip(e as int).drop_first() =~= rest.skip(e as int + 1));
        e = e + 1;
    }
    e
}

/// Number of zero bytes in `data[from..to]`.
fn count_zeros(data: &[u8], from: usize, to: usize) -> (c: usize)
    requires
        from <= to <= data.len(),
    ensures
        c == zero_count(data@.subrange(from as int, to as int)),
        c <= to - from,
{
    let mut c: usize = 0;
    let mut i: usize = from;
    assert(data@.subrange(from as int, from as int) =~= Seq::<u8>::empty());
    while i < to
        invariant
            from <= i <= to <= data.len(),
            c == zero_count(data@.subrange(from as int, i as int)),
            c <= i - from,
        decreases to - i,
    {
        assert(data@.subrange(from as int, i + 1).drop_last() =~= data@.subrange(from as int, i as int));
        if data[i] == 0 {
            c = c + 1;
        }
        i = i + 1;
    }
    c
}

/// Index of the first zero byte at or after `from`, or the length if there is none.
fn find_zero(data: &[u8], from: usize) -> (z: usize)
    requires
        from <= data.len(),
    ensures
        z == first_zero(data@, from as nat),
        from <= z <= data.len(),
{
    let mut z: usize = from;
    while z < data.len() && data[z] != 0
        invariant
            from <= z <= data.len(),
            first_zero(data@, z as nat) == first_zero(data@, from as nat),
        decreases data.len() - z,
    {
        z = z + 1;
    }
    z
}

proof fn lemma_first_zero_skip(s: Seq<u8>, a: nat, j: nat)
    requires
        a <= s.len(),
    ensures
        first_zero(s.skip(a as int), j) + a == first_zero(s, a + j),
    decreases s.len() - a - j,
{
    if a + j < s.len() {
        assert(s.skip(a as int)[j as int] == s[(a + j) as int]);
        if s[(a + j) as int] != 0 {
            lemma_first_zero_skip(s, a, j + 1);
        }
    }
}

/// Length of the literal run from `start`: the bytes that follow a word of 8 non-zero bytes.
fn literal_run(data: &[u8], start: usize) -> (n: usize)
    requires
        start <= data.len(),
    ensures
        n == literal_len(data@.skip(start as int)),
{
    let ghost rest = data@.skip(start as int);
    let de = data.len();
    let mut pos: usize = start;
    let mut k: usize = 0;
    let mut last: usize = 0;
    while k < 31
        invariant
            start <= pos <= de == data.len(),
            rest == data@.skip(start as int),
            pos == start + 8 * k,
            k <= 31,
            last <= 8,
            k == 0 ==> last == 0,
            literal_len(rest) == literal_scan(rest, k as nat, last as nat),
        decreases 31 - k,
    {
        if de - pos >= 8 {
            let cur = count_zeros(data, pos, pos + 8);
            assert(rest.subrange(8 * k as int, 8 * k as int + 8) =~= data@.subrange(pos as int, pos + 8));
            if last + cur >= 3 {
                let from = if last > 0 { pos - 8 } else { pos };
                let z = find_zero(data, from);
                proof {
                    lemma_first_zero_skip(data@, start as nat, (from - start) as nat);
                }
                return z - start;
            }
            last = cur;
            pos = pos + 8;
            k = k + 1;
        } else {
            let cur = count_zeros(data, pos, de);
            assert(rest.skip(8 * k as int) =~= data@.subrange(pos as int, de as int));
            if last + cur >= 3 {
                let from = if k > 0 { pos - 8 } else { pos };
                let z = find_zero(data, from);
                proof {
                    lemma_first_zero_skip(data@, start as nat, (from - start) as nat);
                }
                return z - start;
            }
            return de - start;
        }
    }
    248
}

/// Packing `data` went on from `pos` to `next`, the output growing from `before` to `after`.
pub open spec fn packed_through(data: Seq<u8>, pos: int, next: int, before: Seq<u8>, after: Seq<u8>) -> bool {
    &&& pos < next <= data.len()
    &&& after + pack_spec(data.skip(next)) == before + pack_spec(data.skip(pos))
}

/// Packs the zero word at `pos` and the zeros that follow it.
fn pack_zero_word(data: &[u8], pos: usize, result: &mut Vec<u8>) -> (next: usize)
    requires
        pos + 8 <= data.len(),
        word_tag(data@.subrange(pos as int, pos + 8)) == 0,
    ensures
        packed_through(data@, pos as int, next as int, old(result)@, final(result)@),
{
    let ghost s = data@.skip(pos as int);
    let ghost before = result@;
    assert(s.take(8) =~= data@.subrange(pos as int, pos + 8));
    assert(s.skip(8) =~= data@.skip(pos + 8));
    let extra = count_zero_run(data, pos + 8, 248);
    proof {
        lemma_zero_run_bound(s.skip(8), 248);
    }
    result.push(0x00);
    result.push(7 + extra as u8);
    let next = pos + 8 + extra;
    proof {
        assert(s.skip(8).skip(extra as int) =~= data@.skip(next as int));
        let seg = seq![0u8, (7 + extra) as u8];
        assert(result@ =~= before + seg);
        assert(pack_spec(s) == seg + pack_spec(data@.skip(next as int)));
        assert(before + (seg + pack_spec(data@.skip(next as int))) =~= (before + seg) + pack_spec(data@.skip(next as int)));
    }
    next
}

/// Packs the all non-zero word at `pos` and the literal run that follows it.
fn pack_literal_word(data: &[u8], pos: usize, result: &mut Vec<u8>) -> (next: usize)
    requires
        pos + 8 <= data.len(),
        word_tag(data@.subrange(pos as int, pos + 8)) == 0xff,
    ensures
        packed_through(data@, pos as int, next as int, old(result)@, final(result)@),
{
    let ghost s = data@.skip(pos as int);
    let ghost before = result@;
    assert(s.take(8) =~= data@.subrange(pos as int, pos + 8));
    assert(s.skip(8) =~= data@.skip(pos + 8));
    let start = pos + 8;
    result.push(0xff);
    extend_range(result, data, pos, start);
    let n = literal_run(data, start);
    proof {
        lemma_literal_len_bound(s.skip(8));
    }
    result.push(n as u8);
    extend_range(result, data, start, start + n);
    let next = start + n;
    proof {
        assert(s.skip(8).skip(n as int) =~= data@.skip(next as int));
        assert(s.skip(8).take(n as int) =~= data@.subrange(start as int, next as int));
        let seg = seq![0xffu8] + s.take(8) + seq![n as u8] + s.skip(8).take(n as int);
        assert(result@ =~= before + seg);
        assert(pack_spec(s) == seg + pack_spec(data@.skip(next as int)));
        assert(before + (seg + pack_spec(data@.skip(next as int))) =~= (before + seg) + pack_spec(data@.skip(next as int)));
    }
    next
}

/// Packs the word at `pos`, which holds both zero and non-zero bytes: its tag and its
/// non-zero bytes.
fn pack_mixed_word(data: &[u8], pos: usize, tag: u8, compact: &Vec<u8>, result: &mut Vec<u8>) -> (next: usize)
    requires
        pos + 8 <= data.len(),
        tag == word_tag(data@.subrange(pos as int, pos + 8)),
        tag != 0,
        tag != 0xff,
        compact@ == nonzeros(data@.subrange(pos as int, pos + 8)),
    ensures
        packed_through(data@, pos as int, next as int, old(result)@, final(result)@),
{
    let ghost s = data@.skip(pos as int);
    let ghost before = result@;
    assert(s.take(8) =~= data@.subrange(pos as int, pos + 8));
    assert(s.skip(8) =~= data@.skip(pos + 8));
    result.push(tag);
    extend_vec(result, compact);
    let next = pos + 8;
    proof {
        let seg = seq![tag] + compact@;
        assert(result@ =~= before + seg);
        assert(pack_spec(s) == seg + pack_spec(data@.skip(next as int)));
        assert(before + (seg + pack_spec(data@.skip(next as int))) =~= (before + seg) + pack_spec(data@.skip(next as int)));
    }
    next
}

/// Packs `data`.
///
/// Words of 8 bytes are packed as in Cap'n Proto: a tag byte whose bit `i` tells whether byte `i`
/// is non-zero, then the non-zero bytes; a zero word takes the zero bytes after it along, and a
/// word without zeros the incompressible bytes after it. When fewer than 8 bytes are left at the
/// end, the bits of the tag that stand for the missing bytes are set, so that `unpack` knows
/// where to stop.
pub fn pack(data: &[u8]) -> (packed: Vec<u8>)
    ensures
        packed@ == pack_spec(data@),
        unpack_spec(packed@) == Ok::<Seq<u8>, u8>(data@),
{
    let mut result: Vec<u8> = Vec::with_capacity(data.len());
    let mut dnext: usize = 0;
    let de = data.len();
    assert(data@.skip(0) =~= data@);
    assert(Seq::<u8>::empty() + data@ =~= data@);
    assert(Seq::<u8>::empty() + pack_spec(data@) =~= pack_spec(data@));
    while de - dnext >= 8
        invariant
            de == data.len(),
            dnext <= de,
            result@ + pack_spec(data@.skip(dnext as int)) == pack_spec(data@),
        decreases de - dnext,
    {
        let (tag, compact) = scan_word(data, dnext, 8, 0x00);
        let next = if tag == 0x00 {
            pack_zero_word(data, dnext, &mut result)
        } else if tag == 0xff {
            pack_literal_word(data, dnext, &mut result)
        } else {
            pack_mixed_word(data, dnext, tag, &compact, &mut result)
        };
        dnext = next;
    }
    let delta = de - dnext;
    if delta > 0 {
        let ghost s = data@.skip(dnext as int);
        assert(s =~= data@.subrange(dnext as int, de as int));
        let (tag, compact) = scan_word(data, dnext, delta, 0xffu8 << (delta as u8));
        let ghost before = result@;
        result.push(tag);
        extend_vec(&mut result, &compact);
        assert(result@ =~= before + (seq![tail_tag(s)] + nonzeros(s)));
    } else {
        assert(result@ + seq![] =~= result@);
    }
    proof {
        unpack_undoes_pack(data@);
    }
    result
}

} // verus!
