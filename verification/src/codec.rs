//! The flat, fixed-record binary format: a collection is an 8-byte
//! little-endian count followed by one fixed-size record per vector — packed
//! words of eight bytes each for the binary representation, one signed byte
//! per component for the bipolar one. Decoding inverts encoding exactly.
use vstd::prelude::*;
use vstd::bytes::{
    lemma_auto_spec_u64_to_from_le_bytes, spec_u64_from_le_bytes, spec_u64_to_le_bytes,
    u64_from_le_bytes, u64_to_le_bytes,
};
use vstd::arithmetic::mul::lemma_mul_is_distributive_sub;
use crate::binary_hdv::BinaryHDV;
use crate::bipolar_hdv::{sign_seq, BipolarHDV};

verus! {

/// Why decoding a serialized vector collection failed.
#[derive(Debug, PartialEq, Eq, Structural)]
pub enum DecodeError {
    /// The byte stream ends before the promised records do.
    Truncated,
    /// A component byte is not a legal value for the representation.
    InvalidComponent,
}

/// The little-endian bytes of a packed word sequence, word after word.
pub open spec fn words_bytes(s: Seq<u64>) -> Seq<u8>
    decreases s.len(),
{
    if s.len() == 0 {
        Seq::empty()
    } else {
        words_bytes(s.drop_last()) + spec_u64_to_le_bytes(s.last())
    }
}

pub proof fn lemma_words_bytes_len(s: Seq<u64>)
    ensures
        words_bytes(s).len() == 8 * s.len(),
    decreases s.len(),
{
    lemma_auto_spec_u64_to_from_le_bytes();
    if s.len() > 0 {
        lemma_words_bytes_len(s.drop_last());
    }
}

/// The words read back from `8 * words` bytes, eight bytes per word.
pub open spec fn parse_words(b: Seq<u8>, words: int) -> Seq<u64> {
    Seq::new(words as nat, |i: int| spec_u64_from_le_bytes(b.subrange(8 * i, 8 * i + 8)))
}

/// Each word's eight bytes sit at their place in the packed encoding.
pub proof fn lemma_words_bytes_index(s: Seq<u64>, i: int)
    requires
        0 <= i < s.len(),
    ensures
        words_bytes(s).subrange(8 * i, 8 * i + 8) =~= spec_u64_to_le_bytes(s[i]),
    decreases s.len(),
{
    lemma_auto_spec_u64_to_from_le_bytes();
    lemma_words_bytes_len(s);
    lemma_words_bytes_len(s.drop_last());
    if i == s.len() - 1 {
        assert(words_bytes(s).subrange(8 * i, 8 * i + 8) =~= spec_u64_to_le_bytes(s.last()));
    } else {
        lemma_words_bytes_index(s.drop_last(), i);
        assert(words_bytes(s).subrange(8 * i, 8 * i + 8) =~= words_bytes(s.drop_last()).subrange(
            8 * i,
            8 * i + 8,
        ));
    }
}

/// Reading the packed bytes of a word sequence gives the sequence back.
pub proof fn lemma_parse_words_round_trip(s: Seq<u64>)
    ensures
        parse_words(words_bytes(s), s.len() as int) =~= s,
{
    lemma_auto_spec_u64_to_from_le_bytes();
    assert forall|i: int| 0 <= i < s.len() implies parse_words(words_bytes(s), s.len() as int)[i]
        == s[i] by {
        lemma_words_bytes_index(s, i);
    }
}

impl BinaryHDV {
    /// The vector's fixed-size record: its words as eight little-endian
    /// bytes each, in order.
    pub fn to_bytes(&self) -> (r: Vec<u8>)
        ensures
            r@ == words_bytes(self.data@),
            r@.len() == 8 * self.data@.len(),
    {
        let n = self.data.len();
        let mut out: Vec<u8> = Vec::new();
        let mut i: usize = 0;
        while i < n
            invariant
                i <= n,
                n == self.data@.len(),
                out@ == words_bytes(self.data@.take(i as int)),
            decreases n - i,
        {
            let mut piece = u64_to_le_bytes(self.data[i]);
            out.append(&mut piece);
            proof {
                assert(self.data@.take(i + 1).drop_last() =~= self.data@.take(i as int));
                assert(self.data@.take(i + 1).last() == self.data@[i as int]);
            }
            i = i + 1;
        }
        proof {
            assert(self.data@.take(n as int) =~= self.data@);
            lemma_words_bytes_len(self.data@);
        }
        out
    }

    /// Rebuilds a vector of `words` words from its fixed-size record.
    pub fn from_bytes(bytes: &[u8], words: usize) -> (r: Self)
        requires
            bytes@.len() == 8 * words,
            8 * words <= usize::MAX,
        ensures
            r.data@ == parse_words(bytes@, words as int),
            r.data@.len() == words,
    {
        let mut data: Vec<u64> = Vec::with_capacity(words);
        let mut i: usize = 0;
        while i < words
            invariant
                i <= words,
                bytes@.len() == 8 * words,
                8 * words <= usize::MAX,
                data@.len() == i,
                forall|t: int|
                    0 <= t < i ==> data@[t] == spec_u64_from_le_bytes(
                        bytes@.subrange(8 * t, 8 * t + 8),
                    ),
            decreases words - i,
        {
            let start = 8 * i;
            let w = u64_from_le_bytes(&bytes[start..start + 8]);
            data.push(w);
            i = i + 1;
        }
        let r = BinaryHDV { data };
        proof {
            assert(r.data@ =~= parse_words(bytes@, words as int));
        }
        r
    }
}

/// The records of a collection of packed word sequences, one after another.
pub open spec fn binary_records(vs: Seq<Seq<u64>>) -> Seq<u8>
    decreases vs.len(),
{
    if vs.len() == 0 {
        Seq::empty()
    } else {
        binary_records(vs.drop_last()) + words_bytes(vs.last())
    }
}

pub proof fn lemma_binary_records_len(vs: Seq<Seq<u64>>, words: int)
    requires
        forall|k: int| 0 <= k < vs.len() ==> (#[trigger] vs[k]).len() == words,
    ensures
        binary_records(vs).len() == vs.len() * (8 * words),
    decreases vs.len(),
{
    if vs.len() == 0 {
    } else {
        assert(forall|k: int|
            0 <= k < vs.len() - 1 ==> (#[trigger] vs.drop_last()[k]).len() == words);
        lemma_binary_records_len(vs.drop_last(), words);
        lemma_words_bytes_len(vs.last());
        lemma_mul_is_distributive_sub(8 * words, vs.len() as int, 1);
        assert((vs.len() - 1) * (8 * words) == (vs.len() as int) * (8 * words) - 1 * (8 * words))
            by (nonlinear_arith);
    }
}

/// Record `k` sits at its place in the concatenated records.
pub proof fn lemma_binary_records_index(vs: Seq<Seq<u64>>, words: int, k: int)
    requires
        forall|t: int| 0 <= t < vs.len() ==> (#[trigger] vs[t]).len() == words,
        0 <= k < vs.len(),
    ensures
        binary_records(vs).subrange(k * (8 * words), (k + 1) * (8 * words)) =~= words_bytes(vs[k]),
    decreases vs.len(),
{
    lemma_binary_records_len(vs, words);
    lemma_words_bytes_len(vs.last());
    assert((k + 1) * (8 * words) == k * (8 * words) + 8 * words) by (nonlinear_arith);
    if k == vs.len() - 1 {
        assert(forall|t: int|
            0 <= t < vs.len() - 1 ==> (#[trigger] vs.drop_last()[t]).len() == words);
        lemma_binary_records_len(vs.drop_last(), words);
        assert((vs.len() - 1) * (8 * words) == k * (8 * words));
        assert(binary_records(vs).subrange(k * (8 * words), (k + 1) * (8 * words)) =~= words_bytes(
            vs[k],
        ));
    } else {
        assert(forall|t: int|
            0 <= t < vs.len() - 1 ==> (#[trigger] vs.drop_last()[t]).len() == words);
        lemma_binary_records_index(vs.drop_last(), words, k);
        lemma_binary_records_len(vs.drop_last(), words);
        assert((k + 1) * (8 * words) <= (vs.len() - 1) * (8 * words)) by (nonlinear_arith)
            requires
                k + 1 <= vs.len() - 1,
                words >= 0,
        ;
        assert(binary_records(vs).subrange(k * (8 * words), (k + 1) * (8 * words))
            =~= binary_records(vs.drop_last()).subrange(k * (8 * words), (k + 1) * (8 * words)));
    }
}

/// The serialized form of a collection: the vector count as eight
/// little-endian bytes, then the fixed-size records in order.
pub open spec fn encode_binary_spec(vs: Seq<Seq<u64>>) -> Seq<u8> {
    spec_u64_to_le_bytes(vs.len() as u64) + binary_records(vs)
}

/// What decoding a byte stream as a collection of `words`-word vectors
/// yields: the count is read first, then that many records; `None` when the
/// stream is too short. Bytes past the promised records are ignored, as a
/// reader of a stream leaves them for the next reader.
pub open spec fn decode_binary_spec(b: Seq<u8>, words: int) -> Option<Seq<Seq<u64>>> {
    if b.len() < 8 {
        None
    } else {
        let cnt = spec_u64_from_le_bytes(b.subrange(0, 8)) as int;
        if b.len() < 8 + cnt * (8 * words) {
            None
        } else {
            Some(
                Seq::new(
                    cnt as nat,
                    |k: int|
                        parse_words(
                            b.subrange(8 + k * (8 * words), 8 + (k + 1) * (8 * words)),
                            words,
                        ),
                ),
            )
        }
    }
}

/// Round trip for the binary representation: decoding an encoded collection
/// of equal-dimension vectors yields exactly the original collection.
pub proof fn lemma_binary_round_trip(vs: Seq<Seq<u64>>, words: int)
    requires
        words >= 0,
        vs.len() <= u64::MAX,
        forall|k: int| 0 <= k < vs.len() ==> (#[trigger] vs[k]).len() == words,
    ensures
        decode_binary_spec(encode_binary_spec(vs), words) == Some(vs),
{
    lemma_auto_spec_u64_to_from_le_bytes();
    let b = encode_binary_spec(vs);
    let cb = spec_u64_to_le_bytes(vs.len() as u64);
    lemma_binary_records_len(vs, words);
    assert(b.len() == 8 + vs.len() * (8 * words));
    assert(b.subrange(0, 8) =~= cb);
    assert(spec_u64_from_le_bytes(b.subrange(0, 8)) == vs.len());
    let cnt = vs.len() as int;
    assert(cnt * (8 * words) >= 0) by (nonlinear_arith)
        requires
            cnt >= 0,
            words >= 0,
    ;
    let decoded = Seq::new(
        cnt as nat,
        |k: int| parse_words(b.subrange(8 + k * (8 * words), 8 + (k + 1) * (8 * words)), words),
    );
    assert forall|k: int| 0 <= k < cnt implies decoded[k] == vs[k] by {
        lemma_binary_records_index(vs, words, k);
        assert(k * (8 * words) >= 0 && (k + 1) * (8 * words) <= cnt * (8 * words))
            by (nonlinear_arith)
            requires
                0 <= k < cnt,
                words >= 0,
        ;
        assert((k + 1) * (8 * words) == k * (8 * words) + 8 * words) by (nonlinear_arith);
        assert(b.subrange(8 + k * (8 * words), 8 + (k + 1) * (8 * words)) =~= binary_records(
            vs,
        ).subrange(k * (8 * words), (k + 1) * (8 * words)));
        lemma_parse_words_round_trip(vs[k]);
        assert(parse_words(words_bytes(vs[k]), words) =~= vs[k]);
    }
    assert(decoded =~= vs);
}

/// The packed views of an owned collection.
pub open spec fn binary_views(vs: Seq<BinaryHDV>) -> Seq<Seq<u64>> {
    vs.map_values(|v: BinaryHDV| v.data@)
}

/// Serializes a collection of binary vectors: the count, then each
/// vector's record.
pub fn write_hypervectors_binary(vs: &Vec<BinaryHDV>) -> (r: Vec<u8>)
    ensures
        r@ == encode_binary_spec(binary_views(vs@)),
{
    let ghost views = binary_views(vs@);
    proof {
        assert(forall|k: int| 0 <= k < vs@.len() ==> views[k] == vs@[k].data@);
    }
    let mut out: Vec<u8> = u64_to_le_bytes(vs.len() as u64);
    let mut k: usize = 0;
    while k < vs.len()
        invariant
            k <= vs@.len(),
            views == binary_views(vs@),
            views.len() == vs@.len(),
            forall|t: int| 0 <= t < vs@.len() ==> views[t] == vs@[t].data@,
            out@ == spec_u64_to_le_bytes(vs@.len() as u64) + binary_records(views.take(k as int)),
        decreases vs@.len() - k,
    {
        let mut piece = vs[k].to_bytes();
        out.append(&mut piece);
        proof {
            assert(views.take(k + 1).drop_last() =~= views.take(k as int));
            assert(views.take(k + 1).last() == views[k as int]);
            assert(out@ =~= spec_u64_to_le_bytes(vs@.len() as u64) + binary_records(
                views.take(k + 1),
            ));
        }
        k = k + 1;
    }
    proof {
        assert(views.take(vs@.len() as int) =~= views);
    }
    out
}

/// Parses a serialized collection of binary vectors of `words` words each:
/// the result is exactly what the stream promises, and `Truncated` comes
/// back if and only if the stream ends before the promised records do.
pub fn read_hypervectors_binary(bytes: &[u8], words: usize) -> (r: Result<
    Vec<BinaryHDV>,
    DecodeError,
>)
    requires
        8 * words <= usize::MAX,
    ensures
        match r {
            Ok(vs) => decode_binary_spec(bytes@, words as int) == Some(binary_views(vs@))
                && vs@.len() == spec_u64_from_le_bytes(bytes@.subrange(0, 8)) && forall|k: int|
                0 <= k < vs@.len() ==> (#[trigger] vs@[k]).data@.len() == words,
            Err(e) => decode_binary_spec(bytes@, words as int) is None && e
                == DecodeError::Truncated,
        },
{
    if bytes.len() < 8 {
        return Err(DecodeError::Truncated);
    }
    let cnt: u64 = u64_from_le_bytes(&bytes[0..8]);
    let rs: usize = 8 * words;
    let ghost total = (cnt as int) * (8 * (words as int));
    let mut vs: Vec<BinaryHDV> = Vec::new();
    let mut k: u64 = 0;
    let mut off: usize = 8;
    while k < cnt
        invariant
            k <= cnt,
            rs == 8 * words,
            8 * words <= usize::MAX,
            bytes@.len() >= 8,
            cnt == spec_u64_from_le_bytes(bytes@.subrange(0, 8)),
            off == 8 + (k as int) * (rs as int),
            off <= bytes@.len(),
            vs@.len() == k,
            forall|t: int|
                0 <= t < k ==> (#[trigger] vs@[t]).data@ == parse_words(
                    bytes@.subrange(8 + t * (rs as int), 8 + (t + 1) * (rs as int)),
                    words as int,
                ),
            forall|t: int| 0 <= t < k ==> (#[trigger] vs@[t]).data@.len() == words,
        decreases cnt - k,
    {
        proof {
            assert((k as int) * (rs as int) + rs == ((k as int) + 1) * (rs as int))
                by (nonlinear_arith);
        }
        if rs > bytes.len() - off {
            proof {
                assert(((k as int) + 1) * (rs as int) <= (cnt as int) * (rs as int))
                    by (nonlinear_arith)
                    requires
                        (k as int) + 1 <= cnt as int,
                        rs >= 0,
                ;
                assert(bytes@.len() < 8 + (cnt as int) * (rs as int));
            }
            return Err(DecodeError::Truncated);
        }
        let rec = BinaryHDV::from_bytes(&bytes[off..off + rs], words);
        vs.push(rec);
        proof {
            assert(bytes@.subrange(off as int, off as int + rs as int) =~= bytes@.subrange(
                8 + (k as int) * (rs as int),
                8 + ((k as int) + 1) * (rs as int),
            ));
            assert(parse_words(bytes@.subrange(off as int, off as int + rs as int), words as int)
                =~= parse_words(
                bytes@.subrange(
                    8 + (k as int) * (rs as int),
                    8 + ((k as int) + 1) * (rs as int),
                ),
                words as int,
            ));
        }
        off = off + rs;
        k = k + 1;
    }
    proof {
        assert((cnt as int) * (rs as int) == total);
        assert(bytes@.len() >= 8 + total);
        let decoded = decode_binary_spec(bytes@, words as int);
        assert(decoded == Some(
            Seq::new(
                cnt as nat,
                |t: int|
                    parse_words(
                        bytes@.subrange(8 + t * (rs as int), 8 + (t + 1) * (rs as int)),
                        words as int,
                    ),
            ),
        ));
        assert(binary_views(vs@) =~= Seq::new(
            cnt as nat,
            |t: int|
                parse_words(
                    bytes@.subrange(8 + t * (rs as int), 8 + (t + 1) * (rs as int)),
                    words as int,
                ),
        ));
    }
    Ok(vs)
}


/// The record bytes of a sign vector: one byte per component, the sign as
/// its two's-complement byte (+1 as 1, -1 as 255).
pub open spec fn sign_bytes(s: Seq<i8>) -> Seq<u8> {
    Seq::new(s.len(), |i: int| s[i] as u8)
}

/// Whether every byte of a record encodes a legal sign.
pub open spec fn valid_sign_bytes(b: Seq<u8>) -> bool {
    forall|i: int| 0 <= i < b.len() ==> ((#[trigger] b[i]) == 1u8 || b[i] == 255u8)
}

/// The signs read back from a record of legal bytes.
pub open spec fn parse_signs(b: Seq<u8>) -> Seq<i8> {
    Seq::new(
        b.len(),
        |i: int|
            if b[i] == 1u8 {
                1i8
            } else {
                -1i8
            },
    )
}

/// Reading a sign vector's own record gives the vector back.
pub proof fn lemma_parse_signs_round_trip(s: Seq<i8>)
    requires
        sign_seq(s),
    ensures
        valid_sign_bytes(sign_bytes(s)),
        parse_signs(sign_bytes(s)) =~= s,
{
    assert forall|i: int| 0 <= i < s.len() implies ((#[trigger] sign_bytes(s)[i]) == 1u8
        || sign_bytes(s)[i] == 255u8) by {
        let x = s[i];
        assert((x == 1i8 || x == -1i8) ==> (x as u8 == 1u8 || x as u8 == 255u8)) by (bit_vector);
    }
    assert forall|i: int| 0 <= i < s.len() implies parse_signs(sign_bytes(s))[i] == s[i] by {
        let x = s[i];
        assert((x == 1i8 || x == -1i8) ==> ((x as u8 == 1u8) == (x == 1i8))) by (bit_vector);
    }
}

impl BipolarHDV {
    /// The vector's fixed-size record: one byte per component.
    pub fn to_bytes(&self) -> (r: Vec<u8>)
        ensures
            r@ == sign_bytes(self.data@),
            r@.len() == self.data@.len(),
    {
        let n = self.data.len();
        let mut out: Vec<u8> = Vec::with_capacity(n);
        let mut i: usize = 0;
        while i < n
            invariant
                i <= n,
                n == self.data@.len(),
                out@.len() == i,
                forall|t: int| 0 <= t < i ==> out@[t] == self.data@[t] as u8,
            decreases n - i,
        {
            out.push(self.data[i] as u8);
            i = i + 1;
        }
        proof {
            assert(out@ =~= sign_bytes(self.data@));
        }
        out
    }

    /// Rebuilds a sign vector from its record, rejecting any byte that is
    /// not a legal sign: the call succeeds if and only if every byte is one.
    pub fn from_bytes(bytes: &[u8]) -> (r: Result<Self, DecodeError>)
        ensures
            match r {
                Ok(v) => valid_sign_bytes(bytes@) && v.data@ == parse_signs(bytes@) && v.wf()
                    && v.data@.len() == bytes@.len(),
                Err(e) => !valid_sign_bytes(bytes@) && e == DecodeError::InvalidComponent,
            },
    {
        let n = bytes.len();
        let mut data: Vec<i8> = Vec::with_capacity(n);
        let mut i: usize = 0;
        while i < n
            invariant
                i <= n,
                n == bytes@.len(),
                data@.len() == i,
                forall|t: int| 0 <= t < i ==> ((#[trigger] bytes@[t]) == 1u8 || bytes@[t] == 255u8),
                forall|t: int|
                    0 <= t < i ==> data@[t] == (if bytes@[t] == 1u8 {
                        1i8
                    } else {
                        -1i8
                    }),
            decreases n - i,
        {
            let b = bytes[i];
            if b == 1u8 {
                data.push(1i8);
            } else if b == 255u8 {
                data.push(-1i8);
            } else {
                return Err(DecodeError::InvalidComponent);
            }
            i = i + 1;
        }
        let v = BipolarHDV { data };
        proof {
            assert(v.data@ =~= parse_signs(bytes@));
        }
        Ok(v)
    }
}

/// The records of a collection of sign vectors, one after another.
pub open spec fn bipolar_records(vs: Seq<Seq<i8>>) -> Seq<u8>
    decreases vs.len(),
{
    if vs.len() == 0 {
        Seq::empty()
    } else {
        bipolar_records(vs.drop_last()) + sign_bytes(vs.last())
    }
}

pub proof fn lemma_bipolar_records_len(vs: Seq<Seq<i8>>, dim: int)
    requires
        forall|k: int| 0 <= k < vs.len() ==> (#[trigger] vs[k]).len() == dim,
    ensures
        bipolar_records(vs).len() == vs.len() * dim,
    decreases vs.len(),
{
    if vs.len() > 0 {
        assert(forall|k: int|
            0 <= k < vs.len() - 1 ==> (#[trigger] vs.drop_last()[k]).len() == dim);
        lemma_bipolar_records_len(vs.drop_last(), dim);
        assert((vs.len() - 1) * dim == (vs.len() as int) * dim - dim) by (nonlinear_arith);
    }
}

/// Record `k` sits at its place in the concatenated records.
pub proof fn lemma_bipolar_records_index(vs: Seq<Seq<i8>>, dim: int, k: int)
    requires
        forall|t: int| 0 <= t < vs.len() ==> (#[trigger] vs[t]).len() == dim,
        0 <= k < vs.len(),
    ensures
        bipolar_records(vs).subrange(k * dim, (k + 1) * dim) =~= sign_bytes(vs[k]),
    decreases vs.len(),
{
    lemma_bipolar_records_len(vs, dim);
    assert((k + 1) * dim == k * dim + dim) by (nonlinear_arith);
    assert(forall|t: int| 0 <= t < vs.len() - 1 ==> (#[trigger] vs.drop_last()[t]).len() == dim);
    lemma_bipolar_records_len(vs.drop_last(), dim);
    if k == vs.len() - 1 {
        assert((vs.len() - 1) * dim == k * dim);
        assert(bipolar_records(vs).subrange(k * dim, (k + 1) * dim) =~= sign_bytes(vs[k]));
    } else {
        lemma_bipolar_records_index(vs.drop_last(), dim, k);
        assert((k + 1) * dim <= (vs.len() - 1) * dim) by (nonlinear_arith)
            requires
                k + 1 <= vs.len() - 1,
                dim >= 0,
        ;
        assert(bipolar_records(vs).subrange(k * dim, (k + 1) * dim) =~= bipolar_records(
            vs.drop_last(),
        ).subrange(k * dim, (k + 1) * dim));
    }
}

/// The record region of vector `k` inside a serialized bipolar collection.
pub open spec fn bipolar_record_at(b: Seq<u8>, k: int, dim: int) -> Seq<u8> {
    b.subrange(8 + k * dim, 8 + (k + 1) * dim)
}

/// Whether the stream ends before the records its count promises.
pub open spec fn bipolar_truncated(b: Seq<u8>, dim: int) -> bool {
    b.len() < 8 || b.len() < 8 + (spec_u64_from_le_bytes(b.subrange(0, 8)) as int) * dim
}

/// The serialized form of a collection of sign vectors.
pub open spec fn encode_bipolar_spec(vs: Seq<Seq<i8>>) -> Seq<u8> {
    spec_u64_to_le_bytes(vs.len() as u64) + bipolar_records(vs)
}

/// What decoding a byte stream as a collection of `dim`-component sign
/// vectors yields: `None` when the stream is too short or some record holds
/// an illegal sign byte. Bytes past the promised records are ignored.
pub open spec fn decode_bipolar_spec(b: Seq<u8>, dim: int) -> Option<Seq<Seq<i8>>> {
    if bipolar_truncated(b, dim) {
        None
    } else {
        let cnt = spec_u64_from_le_bytes(b.subrange(0, 8)) as int;
        if exists|k: int| 0 <= k < cnt && !valid_sign_bytes(bipolar_record_at(b, k, dim)) {
            None
        } else {
            Some(Seq::new(cnt as nat, |k: int| parse_signs(bipolar_record_at(b, k, dim))))
        }
    }
}

/// Round trip for the bipolar representation: decoding an encoded
/// collection of equal-dimension sign vectors yields exactly the original
/// collection.
pub proof fn lemma_bipolar_round_trip(vs: Seq<Seq<i8>>, dim: int)
    requires
        dim >= 0,
        vs.len() <= u64::MAX,
        forall|k: int| 0 <= k < vs.len() ==> (#[trigger] vs[k]).len() == dim,
        forall|k: int| 0 <= k < vs.len() ==> sign_seq(#[trigger] vs[k]),
    ensures
        decode_bipolar_spec(encode_bipolar_spec(vs), dim) == Some(vs),
{
    lemma_auto_spec_u64_to_from_le_bytes();
    let b = encode_bipolar_spec(vs);
    lemma_bipolar_records_len(vs, dim);
    assert(b.len() == 8 + vs.len() * dim);
    assert(b.subrange(0, 8) =~= spec_u64_to_le_bytes(vs.len() as u64));
    assert(spec_u64_from_le_bytes(b.subrange(0, 8)) == vs.len());
    let cnt = vs.len() as int;
    assert(cnt * dim >= 0) by (nonlinear_arith)
        requires
            cnt >= 0,
            dim >= 0,
    ;
    assert(!bipolar_truncated(b, dim));
    assert forall|k: int|
        0 <= k < cnt implies #[trigger] valid_sign_bytes(bipolar_record_at(b, k, dim))
        && parse_signs(bipolar_record_at(b, k, dim)) == vs[k] by {
        lemma_bipolar_records_index(vs, dim, k);
        assert(k * dim >= 0 && (k + 1) * dim <= cnt * dim) by (nonlinear_arith)
            requires
                0 <= k < cnt,
                dim >= 0,
        ;
        assert((k + 1) * dim == k * dim + dim) by (nonlinear_arith);
        assert(bipolar_record_at(b, k, dim) =~= bipolar_records(vs).subrange(
            k * dim,
            (k + 1) * dim,
        ));
        lemma_parse_signs_round_trip(vs[k]);
        assert(parse_signs(sign_bytes(vs[k])) =~= vs[k]);
    }
    assert(!(exists|k: int| 0 <= k < cnt && !valid_sign_bytes(bipolar_record_at(b, k, dim)))) by {
        if exists|k: int| 0 <= k < cnt && !valid_sign_bytes(bipolar_record_at(b, k, dim)) {
            let k = choose|k: int| 0 <= k < cnt && !valid_sign_bytes(bipolar_record_at(b, k, dim));
            assert(valid_sign_bytes(bipolar_record_at(b, k, dim)));
        }
    }
    assert(Seq::new(cnt as nat, |k: int| parse_signs(bipolar_record_at(b, k, dim))) =~= vs);
}

/// The component views of an owned collection of sign vectors.
pub open spec fn bipolar_views(vs: Seq<BipolarHDV>) -> Seq<Seq<i8>> {
    vs.map_values(|v: BipolarHDV| v.data@)
}

/// Serializes a collection of sign vectors: the count, then each vector's
/// record.
pub fn write_hypervectors_bipolar(vs: &Vec<BipolarHDV>) -> (r: Vec<u8>)
    ensures
        r@ == encode_bipolar_spec(bipolar_views(vs@)),
{
    let ghost views = bipolar_views(vs@);
    proof {
        assert(forall|k: int| 0 <= k < vs@.len() ==> views[k] == vs@[k].data@);
    }
    let mut out: Vec<u8> = u64_to_le_bytes(vs.len() as u64);
    let mut k: usize = 0;
    while k < vs.len()
        invariant
            k <= vs@.len(),
            views == bipolar_views(vs@),
            views.len() == vs@.len(),
            forall|t: int| 0 <= t < vs@.len() ==> views[t] == vs@[t].data@,
            out@ == spec_u64_to_le_bytes(vs@.len() as u64) + bipolar_records(views.take(k as int)),
        decreases vs@.len() - k,
    {
        let mut piece = vs[k].to_bytes();
        out.append(&mut piece);
        proof {
            assert(views.take(k + 1).drop_last() =~= views.take(k as int));
            assert(views.take(k + 1).last() == views[k as int]);
            assert(out@ =~= spec_u64_to_le_bytes(vs@.len() as u64) + bipolar_records(
                views.take(k + 1),
            ));
        }
        k = k + 1;
    }
    proof {
        assert(views.take(vs@.len() as int) =~= views);
    }
    out
}

/// Parses a serialized collection of sign vectors of `dim` components
/// each. The parse succeeds exactly when the stream is long enough and
/// every record byte is a legal sign; `Truncated` reports a stream that
/// ends before its promised records, `InvalidComponent` a record byte that
/// is not a legal sign.
pub fn read_hypervectors_bipolar(bytes: &[u8], dim: usize) -> (r: Result<
    Vec<BipolarHDV>,
    DecodeError,
>)
    ensures
        match r {
            Ok(vs) => decode_bipolar_spec(bytes@, dim as int) == Some(bipolar_views(vs@)) && forall|
                k: int,
            |
                0 <= k < vs@.len() ==> (#[trigger] vs@[k]).data@.len() == dim && vs@[k].wf(),
            Err(e) => decode_bipolar_spec(bytes@, dim as int) is None && (e == DecodeError::Truncated
                ==> bipolar_truncated(bytes@, dim as int)),
        },
{
    if bytes.len() < 8 {
        return Err(DecodeError::Truncated);
    }
    let cnt: u64 = u64_from_le_bytes(&bytes[0..8]);
    let mut vs: Vec<BipolarHDV> = Vec::new();
    let mut k: u64 = 0;
    let mut off: usize = 8;
    while k < cnt
        invariant
            k <= cnt,
            bytes@.len() >= 8,
            cnt == spec_u64_from_le_bytes(bytes@.subrange(0, 8)),
            off == 8 + (k as int) * (dim as int),
            off <= bytes@.len(),
            vs@.len() == k,
            forall|t: int|
                0 <= t < k ==> valid_sign_bytes(
                    bipolar_record_at(bytes@, t, dim as int),
                ),
            forall|t: int|
                0 <= t < k ==> (#[trigger] vs@[t]).data@ == parse_signs(
                    bipolar_record_at(bytes@, t, dim as int),
                ),
            forall|t: int|
                0 <= t < k ==> (#[trigger] vs@[t]).data@.len() == dim && vs@[t].wf(),
        decreases cnt - k,
    {
        proof {
            assert((k as int) * (dim as int) + dim == ((k as int) + 1) * (dim as int))
                by (nonlinear_arith);
        }
        if dim > bytes.len() - off {
            proof {
                assert(((k as int) + 1) * (dim as int) <= (cnt as int) * (dim as int))
                    by (nonlinear_arith)
                    requires
                        (k as int) + 1 <= cnt as int,
                        dim >= 0,
                ;
                assert(bipolar_truncated(bytes@, dim as int));
            }
            return Err(DecodeError::Truncated);
        }
        let ghost krecord = bipolar_record_at(bytes@, k as int, dim as int);
        proof {
            assert(bytes@.subrange(off as int, off as int + dim as int) =~= krecord);
        }
        let parsed = BipolarHDV::from_bytes(&bytes[off..off + dim]);
        match parsed {
            Ok(v) => {
                vs.push(v);
            },
            Err(_) => {
                proof {
                    assert(!valid_sign_bytes(krecord));
                    if !bipolar_truncated(bytes@, dim as int) {
                        assert((k as int) < spec_u64_from_le_bytes(bytes@.subrange(0, 8)) as int);
                        assert(!valid_sign_bytes(bipolar_record_at(bytes@, k as int, dim as int)));
                        assert(decode_bipolar_spec(bytes@, dim as int) is None);
                    }
                }
                return Err(DecodeError::InvalidComponent);
            },
        }
        off = off + dim;
        k = k + 1;
    }
    proof {
        assert(bytes@.len() >= 8 + (cnt as int) * (dim as int));
        assert(!bipolar_truncated(bytes@, dim as int));
        let decoded = Seq::new(
            cnt as nat,
            |t: int| parse_signs(bipolar_record_at(bytes@, t, dim as int)),
        );
        assert(decode_bipolar_spec(bytes@, dim as int) == Some(decoded));
        assert(bipolar_views(vs@) =~= decoded);
    }
    Ok(vs)
}

} // verus!
