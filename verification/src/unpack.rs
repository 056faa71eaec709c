use vstd::prelude::*;
use vstd::string::*;
use crate::bits::{count_ones_below, lemma_ones_below_bound};
use crate::word::{expand, expand_into};
use crate::buffer::{extend_range, push_zeros};
use crate::format::{prepend, unpack_spec};

verus! {

/// Unpacking ran out of input: a tag wanted more bytes than were left.
/// The tag that wanted them is kept.
#[derive(Debug, PartialEq, Eq, Structural, Clone, Copy, Hash, PartialOrd, Ord)]
pub struct UnexpectedEOF(u8);

impl View for UnexpectedEOF {
    type V = u8;

    /// The tag that wanted more bytes.
    closed spec fn view(&self) -> u8 {
        self.0
    }
}

/// The decimal digit `d` as a character.
pub open spec fn digit_char(d: nat) -> char {
    (48 + d) as char
}

/// `n` written in decimal.
pub open spec fn decimal(n: nat) -> Seq<char>
    decreases n,
{
    if n < 10 {
        seq![digit_char(n)]
    } else {
        decimal(n / 10).push(digit_char(n % 10))
    }
}

/// The message that describes an `UnexpectedEOF` with tag `tag`.
pub open spec fn eof_message(tag: u8) -> Seq<char> {
    "Tag "@ + decimal(tag as nat) + " expected more bytes, but got EOF!"@
}

fn digit_str(d: u8) -> (s: &'static str)
    requires
        d < 10,
    ensures
        s@ == seq![digit_char(d as nat)],
{
    proof {
        reveal_strlit("0");
        reveal_strlit("1");
        reveal_strlit("2");
        reveal_strlit("3");
        reveal_strlit("4");
        reveal_strlit("5");
        reveal_strlit("6");
        reveal_strlit("7");
        reveal_strlit("8");
        reveal_strlit("9");
    }
    match d {
        0 => "0",
        1 => "1",
        2 => "2",
        3 => "3",
        4 => "4",
        5 => "5",
        6 => "6",
        7 => "7",
        8 => "8",
        _ => "9",
    }
}

impl UnexpectedEOF {
    /// Describes the error: which tag expected more bytes.
    pub fn to_string(&self) -> (s: String)
        ensures
            s@ == eof_message(self@),
    {
        let tag = self.0;
        let mut s = String::from_str("Tag ");
        if tag >= 100 {
            s.append(digit_str(tag / 100));
        }
        if tag >= 10 {
            s.append(digit_str((tag / 10) % 10));
        }
        s.append(digit_str(tag % 10));
        s.append(" expected more bytes, but got EOF!");
        proof {
            let n = tag as nat;
            if n >= 100 {
                assert(decimal(n / 100) == seq![digit_char(n / 100)]);
                assert(decimal(n / 10) == decimal(n / 100).push(digit_char((n / 10) % 10)));
            } else if n >= 10 {
                assert(decimal(n / 10) == seq![digit_char(n / 10)]);
            }
            assert(s@ =~= eof_message(tag));
        }
        s
    }
}

/// The outcome of `unpack`, by the views of its parts.
pub open spec fn unpack_outcome(r: Result<Vec<u8>, UnexpectedEOF>) -> Result<Seq<u8>, u8> {
    match r {
        Ok(v) => Ok(v@),
        Err(e) => Err(e@),
    }
}

proof fn lemma_prepend_prepend(a: Seq<u8>, b: Seq<u8>, r: Result<Seq<u8>, u8>)
    ensures
        prepend(a, prepend(b, r)) == prepend(a + b, r),
{
    if let Ok(tail) = r {
        assert(a + (b + tail) =~= (a + b) + tail);
    }
}

/// How one piece of packed input, read at `pos`, carries the unpacking of `data` on:
/// to `next`, to its end, or to an error.
pub open spec fn carries_on(
    data: Seq<u8>,
    pos: int,
    before: Seq<u8>,
    after: Seq<u8>,
    r: Result<Option<usize>, UnexpectedEOF>,
) -> bool {
    let whole = prepend(before, unpack_spec(data.skip(pos)));
    match r {
        Ok(Some(next)) => pos < next <= data.len() && whole == prepend(after, unpack_spec(data.skip(next as int))),
        Ok(None) => whole == Ok::<Seq<u8>, u8>(after),
        Err(e) => whole == Err::<Seq<u8>, u8>(e@),
    }
}

/// Reads a run of zeros: tag `0x00` at `pos`, then its count.
fn unpack_zeros(data: &[u8], pos: usize, result: &mut Vec<u8>) -> (r: Result<Option<usize>, UnexpectedEOF>)
    requires
        pos < data.len(),
        data@[pos as int] == 0,
    ensures
        carries_on(data@, pos as int, old(result)@, final(result)@, r),
{
    let ghost p = data@.skip(pos as int);
    let ghost before = result@;
    let mut dnext = pos + 1;
    if dnext >= data.len() {
        return Err(UnexpectedEOF(0x00));
    }
    let size = data[dnext] as usize + 1;
    dnext += 1;
    push_zeros(result, size);
    proof {
        assert(p.skip(2) =~= data@.skip(dnext as int));
        lemma_prepend_prepend(before, Seq::new(size as nat, |_i: int| 0u8), unpack_spec(p.skip(2)));
    }
    Ok(Some(dnext))
}

/// Reads a literal run: tag `0xff` at `pos`, 8 bytes, a count and as many bytes.
fn unpack_literal(data: &[u8], pos: usize, result: &mut Vec<u8>) -> (r: Result<Option<usize>, UnexpectedEOF>)
    requires
        pos < data.len(),
        data@[pos as int] == 0xff,
    ensures
        carries_on(data@, pos as int, old(result)@, final(result)@, r),
{
    let ghost p = data@.skip(pos as int);
    let ghost before = result@;
    let de = data.len();
    let mut dnext = pos + 1;
    if de - dnext < 9 {
        extend_range(result, data, dnext, de);
        assert(p.skip(1) =~= data@.subrange(dnext as int, de as int));
        return Ok(None);
    }
    extend_range(result, data, dnext, dnext + 8);
    dnext += 8;
    let size = data[dnext] as usize;
    dnext += 1;
    if size > de - dnext {
        return Err(UnexpectedEOF(0xff));
    }
    extend_range(result, data, dnext, dnext + size);
    dnext += size;
    proof {
        assert(p.subrange(1, 9) =~= data@.subrange(pos + 1, pos + 9));
        assert(p.subrange(10, 10 + p[9]) =~= data@.subrange(pos + 10, dnext as int));
        assert(p.skip(10 + p[9]) =~= data@.skip(dnext as int));
        let seg = p.subrange(1, 9) + p.subrange(10, 10 + p[9]);
        assert(result@ =~= before + seg);
        lemma_prepend_prepend(before, seg, unpack_spec(p.skip(10 + p[9])));
    }
    Ok(Some(dnext))
}

/// Reads a tagged word: any other tag at `pos`, then one byte for each of its set bits.
/// Where fewer bytes are left than it has set bits, the word is the last one, and only its
/// first bits are read: those that the bytes left and its clear bits account for.
fn unpack_tagged(data: &[u8], pos: usize, result: &mut Vec<u8>) -> (r: Result<Option<usize>, UnexpectedEOF>)
    requires
        pos < data.len(),
        data@[pos as int] != 0,
        data@[pos as int] != 0xff,
    ensures
        carries_on(data@, pos as int, old(result)@, final(result)@, r),
{
    let ghost p = data@.skip(pos as int);
    let ghost before = result@;
    let de = data.len();
    let tag = data[pos];
    let n_bytes = count_ones_below(tag, 8) as usize;
    proof {
        lemma_ones_below_bound(tag, 8);
        assert(data@.skip(pos as int + 1) =~= p.skip(1));
    }
    if n_bytes < de - pos {
        expand_into(result, data, pos + 1, tag, 8);
        let dnext = pos + 1 + n_bytes;
        proof {
            assert(p.skip(1 + n_bytes as int) =~= data@.skip(dnext as int));
            lemma_prepend_prepend(before, expand(tag, p.skip(1), 8), unpack_spec(p.skip(1 + n_bytes as int)));
        }
        Ok(Some(dnext))
    } else {
        let n_zeros = 8 - n_bytes;
        let bytes_left = de - pos - 1;
        let n_valid = n_zeros + bytes_left;
        let clean_n1 = count_ones_below(tag, n_valid as u8);
        if clean_n1 as usize != bytes_left {
            return Err(UnexpectedEOF(tag));
        }
        expand_into(result, data, pos + 1, tag, n_valid as u8);
        Ok(None)
    }
}

/// Un-packs data packed by `pack`.
///
/// `expected_size_hint` only sets how much room the output starts with: whatever it is, the
/// result is the same. The result is `Err` when a tag wants more bytes than are left; that it is
/// `Ok` says nothing of whether the input was packed data.
pub fn unpack(data: &[u8], expected_size_hint: usize) -> (res: Result<Vec<u8>, UnexpectedEOF>)
    requires
        expected_size_hint + expected_size_hint / 16 <= isize::MAX,
    ensures
        unpack_outcome(res) == unpack_spec(data@),
{
    let mut result: Vec<u8> = Vec::with_capacity(expected_size_hint + (expected_size_hint / 16));
    let mut dnext: usize = 0;
    let de = data.len();
    assert(data@.skip(0) =~= data@);
    assert(Seq::<u8>::empty() + data@ =~= data@);
    while dnext < de
        invariant
            de == data.len(),
            dnext <= de,
            prepend(result@, unpack_spec(data@.skip(dnext as int))) == unpack_spec(data@),
        decreases de - dnext,
    {
        let tag = data[dnext];
        let step = if tag == 0x00 {
            unpack_zeros(data, dnext, &mut result)
        } else if tag == 0xff {
            unpack_literal(data, dnext, &mut result)
        } else {
            unpack_tagged(data, dnext, &mut result)
        };
        match step {
            Ok(Some(next)) => {
                dnext = next;
            },
            Ok(None) => {
                return Ok(result);
            },
            Err(e) => {
                return Err(e);
            },
        }
    }
    proof {
        assert(result@ + seq![] =~= result@);
    }
    Ok(result)
}

} // verus!
