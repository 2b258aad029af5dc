use vstd::prelude::*;

use crate::varint::{
    at_pos, decode_varint, encode_varint, lemma_varint_decode_bounded, lemma_varint_decode_encode,
    lemma_varint_encode_decode, lemma_varint_size_le, rest, varint_decode, varint_encoding,
    varint_parse, varint_size_spec, DecodeError, MAX_VARINT,
};

verus! {

/// The encodings of the values of `s`, one after the other.
pub open spec fn varints(s: Seq<u64>) -> Seq<u8>
    decreases s.len(),
{
    if s.len() == 0 {
        Seq::empty()
    } else {
        varint_encoding(s[0]) + varints(s.drop_first())
    }
}

/// Parsing `k` varints in a row from the start of `b`.
pub open spec fn varints_parse(b: Seq<u8>, k: nat) -> Result<(Seq<u64>, nat), DecodeError>
    decreases k,
{
    if k == 0 {
        Ok((Seq::empty(), 0))
    } else {
        match varint_parse(b) {
            Err(e) => Err(e),
            Ok((v, n)) => match varints_parse(rest(b, n as int), (k - 1) as nat) {
                Err(e) => Err(e),
                Ok((vs, m)) => Ok((seq![v] + vs, n + m)),
            },
        }
    }
}

pub open spec fn all_varints(s: Seq<u64>) -> bool {
    forall|i: int| 0 <= i < s.len() ==> s[i] <= MAX_VARINT
}

pub proof fn lemma_rest_rest(b: Seq<u8>, p: int, q: int)
    requires
        0 <= p <= b.len(),
        0 <= q <= b.len() - p,
    ensures
        rest(rest(b, p), q) == rest(b, p + q),
{
    assert(rest(rest(b, p), q) =~= rest(b, p + q));
}

/// Parsing the encodings of `s` gives back `s` and consumes exactly them.
pub proof fn lemma_varints_round_trip(s: Seq<u64>, tail: Seq<u8>)
    requires
        all_varints(s),
    ensures
        varints_parse(varints(s) + tail, s.len()) == Ok::<(Seq<u64>, nat), DecodeError>((s, varints(s).len())),
    decreases s.len(),
{
    if s.len() > 0 {
        let e = varint_encoding(s[0]);
        let more = varints(s.drop_first()) + tail;
        assert(varints(s) + tail =~= e + more);
        lemma_varint_decode_encode(s[0], more);
        assert(rest(e + more, e.len() as int) =~= more);
        assert(all_varints(s.drop_first()));
        lemma_varints_round_trip(s.drop_first(), tail);
        assert(seq![s[0]] + s.drop_first() =~= s);
        let b = varints(s) + tail;
        assert(varint_parse(b) == Ok::<(u64, nat), DecodeError>((s[0], e.len())));
        assert(rest(b, e.len() as int) == more);
        assert(varints(s).len() == e.len() + varints(s.drop_first()).len());
    } else {
        assert(s =~= Seq::<u64>::empty());
    }
}

/// What `k` varints decode to never needs more bytes than they occupied.
pub proof fn lemma_varints_len_le(b: Seq<u8>, k: nat)
    requires
        varints_parse(b, k) is Ok,
    ensures
        varints(varints_parse(b, k)->Ok_0.0).len() <= varints_parse(b, k)->Ok_0.1,
        varints_parse(b, k)->Ok_0.0.len() == k,
        varints_parse(b, k)->Ok_0.1 <= b.len(),
        all_varints(varints_parse(b, k)->Ok_0.0),
    decreases k,
{
    if k == 0 {
        assert(varints_parse(b, k)->Ok_0.0 =~= Seq::<u64>::empty());
    } else {
        let (v, n) = varint_parse(b)->Ok_0;
        lemma_varint_size_le(b);
        lemma_varint_decode_bounded(b);
        lemma_varint_decode_encode(v, Seq::empty());
        let r = rest(b, n as int);
        lemma_varints_len_le(r, (k - 1) as nat);
        let (s2, m) = varints_parse(r, (k - 1) as nat)->Ok_0;
        let s = seq![v] + s2;
        assert(s.drop_first() =~= s2);
        assert(s[0] == v);
        assert forall|i: int| 0 <= i < s.len() implies s[i] <= MAX_VARINT by {
            if i > 0 {
                assert(s[i] == s2[i - 1]);
            }
        }
    }
}

/// Re-encoding `k` decoded varints reproduces the bytes they were read from,
/// whenever those bytes used the shortest forms (the re-encoding is as long as
/// what was read).
pub proof fn lemma_varints_reencode(b: Seq<u8>, k: nat)
    requires
        varints_parse(b, k) is Ok,
        varints(varints_parse(b, k)->Ok_0.0).len() == varints_parse(b, k)->Ok_0.1,
    ensures
        varints(varints_parse(b, k)->Ok_0.0) == b.subrange(0, varints_parse(b, k)->Ok_0.1 as int),
    decreases k,
{
    if k == 0 {
        assert(b.subrange(0, 0) =~= Seq::<u8>::empty());
    } else {
        let (v, n) = varint_parse(b)->Ok_0;
        lemma_varint_size_le(b);
        lemma_varint_decode_bounded(b);
        lemma_varint_decode_encode(v, Seq::empty());
        let r = rest(b, n as int);
        lemma_varints_len_le(r, (k - 1) as nat);
        let (s2, m) = varints_parse(r, (k - 1) as nat)->Ok_0;
        let s = seq![v] + s2;
        assert(s.drop_first() =~= s2);
        assert(s[0] == v);
        assert(varints(s) == varint_encoding(v) + varints(s2));
        assert(varint_size_spec(v) == n);
        lemma_varint_encode_decode(b);
        lemma_varints_reencode(r, (k - 1) as nat);
        assert(varints(s) =~= b.subrange(0, (n + m) as int));
    }
}

/// Appends the encodings of `vs` to `buf`.
pub fn encode_varints(vs: &[u64], buf: &mut Vec<u8>)
    requires
        all_varints(vs@),
    ensures
        final(buf)@ == old(buf)@ + varints(vs@),
{
    let mut i: usize = 0;
    assert(vs@.subrange(0, vs@.len() as int) =~= vs@);
    while i < vs.len()
        invariant
            0 <= i <= vs@.len(),
            all_varints(vs@),
            buf@ + varints(vs@.subrange(i as int, vs@.len() as int)) == old(buf)@ + varints(vs@),
        decreases vs.len() - i,
    {
        let ghost before = buf@;
        encode_varint(vs[i], buf);
        let ghost s = vs@.subrange(i as int, vs@.len() as int);
        assert(s.drop_first() =~= vs@.subrange(i + 1, vs@.len() as int));
        assert(before + varints(s) =~= buf@ + varints(vs@.subrange(i + 1, vs@.len() as int)));
        i = i + 1;
    }
    assert(vs@.subrange(i as int, vs@.len() as int) =~= Seq::<u64>::empty());
    assert(buf@ =~= buf@ + varints(Seq::<u64>::empty()));
}

/// Decodes `k` varints in a row, starting at `pos`.
pub fn decode_varints(buf: &[u8], pos: usize, k: u64) -> (r: Result<(Vec<u64>, usize), DecodeError>)
    requires
        pos <= buf@.len(),
    ensures
        match varints_parse(rest(buf@, pos as int), k as nat) {
            Ok((s, n)) => r matches Ok((v, end)) && v@ == s && end == pos + n,
            Err(e) => r == Err::<(Vec<u64>, usize), DecodeError>(e),
        },
        r matches Ok((v, _)) ==> v@.len() == k,
        r matches Ok((_, end)) ==> pos <= end <= buf@.len(),
{
    let mut out: Vec<u64> = Vec::new();
    let mut p = pos;
    let mut i: u64 = 0;
    while i < k
        invariant
            pos <= p <= buf@.len(),
            i <= k,
            out@.len() == i,
            varints_parse(rest(buf@, pos as int), k as nat) == match varints_parse(
                rest(buf@, p as int),
                (k - i) as nat,
            ) {
                Ok((s, n)) => Ok((out@ + s, (p - pos + n) as nat)),
                Err(e) => Err::<(Seq<u64>, nat), DecodeError>(e),
            },
        decreases k - i,
    {
        let ghost b = rest(buf@, p as int);
        // Bounds the positions below by usize::MAX.
        let _len = buf.len();
        match decode_varint(buf, p) {
            Err(e) => {
                return Err(e);
            },
            Ok((v, next)) => {
                proof {
                    lemma_rest_rest(buf@, p as int, (next - p) as int);
                    let tail = varints_parse(rest(b, (next - p) as int), (k - i - 1) as nat);
                    match tail {
                        Ok((s, n)) => {
                            assert(out@.push(v) + s =~= out@ + (seq![v] + s));
                        },
                        Err(_) => {},
                    }
                }
                out.push(v);
                p = next;
            },
        }
        i = i + 1;
    }
    assert(out@ + Seq::<u64>::empty() =~= out@);
    Ok((out, p))
}

} // verus!
