//! Size-determined big-endian encoding of values into and out of byte strings.

use crate::error::{IndexError, Result};
use byteorder::{BigEndian, ReadBytesExt, WriteBytesExt};
use vstd::prelude::*;
use vstd::slice::slice_subrange;

verus! {

/// The four bytes of `n`, most significant first.
pub open spec fn u32_be_bytes(n: u32) -> Seq<u8> {
    seq![
        (n / 0x100_0000) as u8,
        ((n / 0x1_0000) % 0x100) as u8,
        ((n / 0x100) % 0x100) as u8,
        (n % 0x100) as u8,
    ]
}

/// The number whose big-endian bytes are the first four of `b`.
pub open spec fn u32_from_be_bytes(b: Seq<u8>) -> u32
    recommends
        b.len() >= 4,
{
    (b[0] * 0x100_0000 + b[1] * 0x1_0000 + b[2] * 0x100 + b[3]) as u32
}

/// Reading back the big-endian bytes of a number gives the number.
pub proof fn lemma_u32_be_round_trip(n: u32)
    ensures
        u32_be_bytes(n).len() == 4,
        u32_from_be_bytes(u32_be_bytes(n)) == n,
{
    let b = u32_be_bytes(n);
    assert(b[0] * 0x100_0000 + b[1] * 0x1_0000 + b[2] * 0x100 + b[3] == n) by {
        assert(b[0] == n / 0x100_0000);
        assert(b[1] == (n / 0x1_0000) % 0x100);
        assert(b[2] == (n / 0x100) % 0x100);
        assert(b[3] == n % 0x100);
    }
}

/// `byteorder::WriteBytesExt::write_u32::<BigEndian>` on a `Vec<u8>`: the four
/// big-endian bytes of `n` are appended to `out`. Writing to a `Vec<u8>` cannot fail.
#[verifier::external_body]
pub(crate) fn write_u32_be(out: &mut Vec<u8>, n: u32)
    ensures
        final(out)@ == old(out)@ + u32_be_bytes(n),
{
    let _ = out.write_u32::<BigEndian>(n);
}

/// `byteorder::ReadBytesExt::read_u32::<BigEndian>` on a byte slice: the number
/// held big-endian in the first four bytes, or nothing when fewer than four are left.
#[verifier::external_body]
fn read_u32_be(bytes: &[u8]) -> (r: Option<u32>)
    ensures
        r == (if bytes@.len() >= 4 {
            Some(u32_from_be_bytes(bytes@))
        } else {
            None
        }),
{
    let mut reader: &[u8] = bytes;
    reader.read_u32::<BigEndian>().ok()
}

/// A value with exactly one encoding as bytes, which can be read back from the
/// front of any byte string that starts with it.
pub trait BinarySerializable: Sized {
    /// The bytes that encode `self`.
    spec fn encoding(&self) -> Seq<u8>;

    /// The value encoded at the front of `bytes`, with the number of bytes it
    /// occupies; `None` when no value is encoded there.
    spec fn decoding(bytes: Seq<u8>) -> Option<(Self, nat)>;

    /// Decoding inverts encoding, whatever follows the encoded value.
    proof fn lemma_decoding_inverts_encoding(value: Self, rest: Seq<u8>)
        ensures
            Self::decoding(value.encoding() + rest) == Some((value, value.encoding().len())),
    ;

    /// A decoded value never takes more bytes than there are.
    proof fn lemma_decoding_fits(bytes: Seq<u8>)
        ensures
            Self::decoding(bytes) matches Some((_, n)) ==> n <= bytes.len(),
    ;

    /// Appends the encoding of `self` to `out`.
    fn serialize(&self, out: &mut Vec<u8>)
        ensures
            final(out)@ == old(out)@ + self.encoding(),
    ;

    /// Reads the value encoded in `data` at `pos`, and returns it with the
    /// position just behind it. Fails with `ReadError` exactly when `pos` lies
    /// outside `data` or no value is encoded there.
    fn deserialize(data: &[u8], pos: usize) -> (r: Result<(Self, usize)>)
        ensures
            r is Ok <==> pos <= data@.len() && Self::decoding(data@.skip(pos as int)) is Some,
            r matches Ok((value, end)) ==> pos <= end <= data@.len() && Self::decoding(
                data@.skip(pos as int),
            ) == Some((value, (end - pos) as nat)),
            r matches Err(e) ==> e is ReadError,
    ;
}

/// The value encoded in `bytes` at `pos`, with the position just behind it.
pub open spec fn decode_at<T: BinarySerializable>(bytes: Seq<u8>, pos: int) -> Option<(T, int)> {
    if 0 <= pos <= bytes.len() {
        match T::decoding(bytes.skip(pos)) {
            Some((value, n)) => Some((value, pos + n)),
            None => None,
        }
    } else {
        None
    }
}

/// A value decoded inside `bytes` ends inside `bytes`.
pub proof fn lemma_decode_at_fits<T: BinarySerializable>(bytes: Seq<u8>, pos: int)
    ensures
        decode_at::<T>(bytes, pos) matches Some((_, end)) ==> pos <= end <= bytes.len(),
{
    if 0 <= pos <= bytes.len() {
        T::lemma_decoding_fits(bytes.skip(pos));
    }
}

/// Where `bytes` holds the encoding of `value` at `pos`, that value is decoded there.
pub proof fn lemma_decode_at_encoding<T: BinarySerializable>(
    bytes: Seq<u8>,
    pos: int,
    value: T,
)
    requires
        0 <= pos,
        pos + value.encoding().len() <= bytes.len(),
        bytes.subrange(pos, pos + value.encoding().len()) == value.encoding(),
    ensures
        decode_at::<T>(bytes, pos) == Some((value, pos + value.encoding().len())),
{
    let n = value.encoding().len() as int;
    let rest = bytes.skip(pos + n);
    assert(bytes.skip(pos) =~= value.encoding() + rest);
    T::lemma_decoding_inverts_encoding(value, rest);
}

impl BinarySerializable for u32 {
    open spec fn encoding(&self) -> Seq<u8> {
        u32_be_bytes(*self)
    }

    open spec fn decoding(bytes: Seq<u8>) -> Option<(Self, nat)> {
        if bytes.len() >= 4 {
            Some((u32_from_be_bytes(bytes), 4nat))
        } else {
            None
        }
    }

    proof fn lemma_decoding_inverts_encoding(value: Self, rest: Seq<u8>) {
        lemma_u32_be_round_trip(value);
        let b = u32_be_bytes(value);
        let all = b + rest;
        assert(all[0] == b[0] && all[1] == b[1] && all[2] == b[2] && all[3] == b[3]);
    }

    proof fn lemma_decoding_fits(bytes: Seq<u8>) {
    }

    fn serialize(&self, out: &mut Vec<u8>) {
        write_u32_be(out, *self);
    }

    fn deserialize(data: &[u8], pos: usize) -> (r: Result<(Self, usize)>) {
        if pos > data.len() {
            return Err(IndexError::ReadError("position behind the end of the data".to_owned()));
        }
        let rest = slice_subrange(data, pos, data.len());
        assert(rest@ == data@.skip(pos as int));
        match read_u32_be(rest) {
            Some(n) => Ok((n, pos + 4)),
            None => Err(IndexError::ReadError("fewer than four bytes left".to_owned())),
        }
    }
}

impl BinarySerializable for () {
    open spec fn encoding(&self) -> Seq<u8> {
        Seq::empty()
    }

    open spec fn decoding(bytes: Seq<u8>) -> Option<(Self, nat)> {
        Some(((), 0nat))
    }

    proof fn lemma_decoding_inverts_encoding(value: Self, rest: Seq<u8>) {
    }

    proof fn lemma_decoding_fits(bytes: Seq<u8>) {
    }

    fn serialize(&self, out: &mut Vec<u8>) {
        assert(out@ + Seq::<u8>::empty() =~= out@);
    }

    fn deserialize(data: &[u8], pos: usize) -> (r: Result<(Self, usize)>) {
        if pos > data.len() {
            return Err(IndexError::ReadError("position behind the end of the data".to_owned()));
        }
        Ok(((), pos))
    }
}

/// The encodings of the elements of `s`, one after the other.
pub open spec fn seq_encoding<T: BinarySerializable>(s: Seq<T>) -> Seq<u8>
    decreases s.len(),
{
    if s.len() == 0 {
        Seq::empty()
    } else {
        seq_encoding(s.drop_last()) + s.last().encoding()
    }
}

/// The encoding of a vector: its length as a big-endian `u32`, then its elements.
pub open spec fn vec_encoding<T: BinarySerializable>(s: Seq<T>) -> Seq<u8>
    recommends
        s.len() <= u32::MAX,
{
    u32_be_bytes(s.len() as u32) + seq_encoding(s)
}

/// The first `count` values encoded one after the other in `bytes` from `pos`
/// on, with the position just behind the last of them.
pub open spec fn seq_decode_at<T: BinarySerializable>(bytes: Seq<u8>, pos: int, count: nat) -> Option<
    (Seq<T>, int),
>
    decreases count,
{
    if count == 0 {
        if 0 <= pos <= bytes.len() {
            Some((Seq::empty(), pos))
        } else {
            None
        }
    } else {
        match seq_decode_at::<T>(bytes, pos, (count - 1) as nat) {
            Some((front, mid)) => match decode_at::<T>(bytes, mid) {
                Some((value, end)) => Some((front.push(value), end)),
                None => None,
            },
            None => None,
        }
    }
}

/// The vector encoded in `bytes` at `pos`, with the position just behind it.
pub open spec fn vec_decode_at<T: BinarySerializable>(bytes: Seq<u8>, pos: int) -> Option<
    (Seq<T>, int),
> {
    match decode_at::<u32>(bytes, pos) {
        Some((count, start)) => seq_decode_at::<T>(bytes, start, count as nat),
        None => None,
    }
}

/// Appending an element appends its encoding.
pub proof fn lemma_seq_encoding_push<T: BinarySerializable>(s: Seq<T>, value: T)
    ensures
        seq_encoding(s.push(value)) == seq_encoding(s) + value.encoding(),
{
    assert(s.push(value).drop_last() =~= s);
}

/// Values decoded inside `bytes` end inside `bytes`, and there are as many as asked for.
pub proof fn lemma_seq_decode_at_fits<T: BinarySerializable>(bytes: Seq<u8>, pos: int, count: nat)
    ensures
        seq_decode_at::<T>(bytes, pos, count) matches Some((values, end)) ==> 0 <= pos <= end
            <= bytes.len() && values.len() == count,
    decreases count,
{
    if count > 0 {
        lemma_seq_decode_at_fits::<T>(bytes, pos, (count - 1) as nat);
        if let Some((front, mid)) = seq_decode_at::<T>(bytes, pos, (count - 1) as nat) {
            lemma_decode_at_fits::<T>(bytes, mid);
        }
    }
}

/// Where `bytes` holds the encodings of the elements of `s` from `pos` on,
/// those elements are decoded there.
pub proof fn lemma_seq_decode_at_encoding<T: BinarySerializable>(bytes: Seq<u8>, pos: int, s: Seq<T>)
    requires
        0 <= pos,
        pos + seq_encoding(s).len() <= bytes.len(),
        bytes.subrange(pos, pos + seq_encoding(s).len()) == seq_encoding(s),
    ensures
        seq_decode_at::<T>(bytes, pos, s.len()) == Some((s, pos + seq_encoding(s).len())),
    decreases s.len(),
{
    if s.len() > 0 {
        let front = s.drop_last();
        let last = s.last();
        let whole = seq_encoding(s);
        let mid = pos + seq_encoding(front).len();
        assert(bytes.subrange(pos, mid) =~= seq_encoding(front)) by {
            assert(bytes.subrange(pos, mid) =~= whole.subrange(0, seq_encoding(front).len() as int));
        }
        lemma_seq_decode_at_encoding::<T>(bytes, pos, front);
        assert(bytes.subrange(mid, mid + last.encoding().len()) =~= last.encoding()) by {
            assert(bytes.subrange(mid, mid + last.encoding().len()) =~= whole.subrange(
                seq_encoding(front).len() as int,
                whole.len() as int,
            ));
        }
        lemma_decode_at_encoding::<T>(bytes, mid, last);
        assert(front.push(last) =~= s);
    }
}

/// Where `bytes` holds the encoding of the vector `s` at `pos`, that vector
/// is decoded there.
pub proof fn lemma_vec_decode_at_encoding<T: BinarySerializable>(bytes: Seq<u8>, pos: int, s: Seq<T>)
    requires
        s.len() <= u32::MAX,
        0 <= pos,
        pos + vec_encoding(s).len() <= bytes.len(),
        bytes.subrange(pos, pos + vec_encoding(s).len()) == vec_encoding(s),
    ensures
        vec_decode_at::<T>(bytes, pos) == Some((s, pos + vec_encoding(s).len())),
{
    let count = s.len() as u32;
    let whole = vec_encoding(s);
    lemma_u32_be_round_trip(count);
    assert(bytes.subrange(pos, pos + 4) =~= count.encoding()) by {
        assert(bytes.subrange(pos, pos + 4) =~= whole.subrange(0, 4));
    }
    lemma_decode_at_encoding::<u32>(bytes, pos, count);
    assert(bytes.subrange(pos + 4, pos + 4 + seq_encoding(s).len()) =~= seq_encoding(s)) by {
        assert(bytes.subrange(pos + 4, pos + 4 + seq_encoding(s).len()) =~= whole.subrange(
            4,
            whole.len() as int,
        ));
    }
    lemma_seq_decode_at_encoding::<T>(bytes, pos + 4, s);
}

/// Decoding a vector inverts encoding it, whatever follows the encoded vector.
pub proof fn lemma_vec_decoding_inverts_encoding<T: BinarySerializable>(s: Seq<T>, rest: Seq<u8>)
    requires
        s.len() <= u32::MAX,
    ensures
        vec_decode_at::<T>(vec_encoding(s) + rest, 0) == Some((s, vec_encoding(s).len() as int)),
{
    let bytes = vec_encoding(s) + rest;
    assert(bytes.subrange(0, vec_encoding(s).len() as int) =~= vec_encoding(s));
    lemma_vec_decode_at_encoding::<T>(bytes, 0, s);
}

/// A vector of `u32` takes four bytes for its length and four for each element.
pub proof fn lemma_sizes_encoding_len(sizes: Seq<u32>)
    ensures
        seq_encoding(sizes).len() == 4 * sizes.len(),
        vec_encoding(sizes).len() == 4 + 4 * sizes.len(),
    decreases sizes.len(),
{
    if sizes.len() > 0 {
        lemma_sizes_encoding_len(sizes.drop_last());
    }
}

/// Once a prefix of the elements cannot be decoded, no longer run can.
pub proof fn lemma_seq_decode_fails_on<T: BinarySerializable>(
    bytes: Seq<u8>,
    pos: int,
    short: nat,
    count: nat,
)
    requires
        short <= count,
        seq_decode_at::<T>(bytes, pos, short) is None,
    ensures
        seq_decode_at::<T>(bytes, pos, count) is None,
    decreases count,
{
    if short < count {
        lemma_seq_decode_fails_on::<T>(bytes, pos, short, (count - 1) as nat);
    }
}

/// Appends the encoding of `v` to `out`: the length as a big-endian `u32`, then
/// each element. Fails with `WriteError`, leaving `out` as it was, exactly when
/// the length does not fit in a `u32`.
pub fn serialize_slice<T: BinarySerializable>(v: &[T], out: &mut Vec<u8>) -> (r: Result<()>)
    ensures
        r is Ok <==> v@.len() <= u32::MAX,
        r is Ok ==> final(out)@ == old(out)@ + vec_encoding(v@),
        r matches Err(e) ==> e is WriteError && final(out)@ == old(out)@,
{
    if v.len() > u32::MAX as usize {
        return Err(IndexError::WriteError("vector too long for a 32-bit length".to_owned()));
    }
    let count: u32 = v.len() as u32;
    count.serialize(out);
    let ghost head = out@;
    let mut i: usize = 0;
    while i < v.len()
        invariant
            i <= v.len(),
            out@ == head + seq_encoding(v@.take(i as int)),
        decreases v.len() - i,
    {
        v[i].serialize(out);
        proof {
            lemma_seq_encoding_push(v@.take(i as int), v@[i as int]);
            assert(v@.take(i as int).push(v@[i as int]) =~= v@.take(i + 1));
        }
        i += 1;
    }
    proof {
        assert(v@.take(v.len() as int) =~= v@);
        assert(old(out)@ + vec_encoding(v@) =~= head + seq_encoding(v@));
    }
    Ok(())
}

/// Appends the encoding of the vector `v` to `out`, as `serialize_slice` does
/// for its elements.
pub fn serialize_vec<T: BinarySerializable>(v: &Vec<T>, out: &mut Vec<u8>) -> (r: Result<()>)
    ensures
        r is Ok <==> v@.len() <= u32::MAX,
        r is Ok ==> final(out)@ == old(out)@ + vec_encoding(v@),
        r matches Err(e) ==> e is WriteError && final(out)@ == old(out)@,
{
    serialize_slice(v.as_slice(), out)
}

/// Reads the vector encoded in `data` at `pos`, and returns it with the
/// position just behind it. Fails with `ReadError` exactly when no vector is
/// encoded there: the length or one of the elements is missing or malformed.
pub fn deserialize_vec<T: BinarySerializable>(data: &[u8], pos: usize) -> (r: Result<
    (Vec<T>, usize),
>)
    ensures
        r is Ok <==> vec_decode_at::<T>(data@, pos as int) is Some,
        r matches Ok((v, end)) ==> vec_decode_at::<T>(data@, pos as int) == Some(
            (v@, end as int),
        ),
        r matches Err(e) ==> e is ReadError,
{
    let (count, start) = match u32::deserialize(data, pos) {
        Ok(x) => x,
        Err(e) => {
            return Err(e);
        },
    };
    let mut values: Vec<T> = Vec::new();
    let mut at: usize = start;
    let mut i: u32 = 0;
    while i < count
        invariant
            i <= count,
            at <= data@.len(),
            decode_at::<u32>(data@, pos as int) == Some((count, start as int)),
            seq_decode_at::<T>(data@, start as int, i as nat) == Some((values@, at as int)),
        decreases count - i,
    {
        match T::deserialize(data, at) {
            Ok((value, end)) => {
                values.push(value);
                at = end;
            },
            Err(_) => {
                proof {
                    assert(decode_at::<T>(data@, at as int) is None);
                    assert(((i + 1) as nat - 1) as nat == i as nat);
                    assert(seq_decode_at::<T>(data@, start as int, (i + 1) as nat) is None);
                    lemma_seq_decode_fails_on::<T>(data@, start as int, (i + 1) as nat, count as nat);
                }
                return Err(IndexError::ReadError("vector element missing or malformed".to_owned()));
            },
        }
        i += 1;
    }
    Ok((values, at))
}

} // verus!
