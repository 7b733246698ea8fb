//! The canonical wire format of the core.
//!
//! An encoded extrinsic is either *signed* — a tag byte `1`, the 32-byte
//! sender, the 8-byte little-endian index, the 64-byte signature, and the
//! opaque call bytes — or *inherent* — a tag byte `0`, the 8-byte
//! little-endian timestamp, a 4-byte little-endian count, and that many
//! 4-byte little-endian validator indices in strictly ascending order.
//! The bytes a signed extrinsic's signature covers are the index followed by
//! the call.

use vstd::prelude::*;

use crate::crypto::blake2_256;
use crate::crypto::blake2_256_of;
use crate::error::Error;
use crate::types::AccountId;
use crate::types::Block;
use crate::types::BlockHash;
use crate::types::Header;
use crate::types::InherentData;

verus! {

/// The little-endian bytes of a `u64`.
pub open spec fn u64_le_bytes(v: u64) -> Seq<u8> {
    seq![
        (v & 0xff) as u8,
        ((v >> 8) & 0xff) as u8,
        ((v >> 16) & 0xff) as u8,
        ((v >> 24) & 0xff) as u8,
        ((v >> 32) & 0xff) as u8,
        ((v >> 40) & 0xff) as u8,
        ((v >> 48) & 0xff) as u8,
        ((v >> 56) & 0xff) as u8,
    ]
}

/// The `u64` read little-endian from `s` at offset `off`.
pub open spec fn u64_at(s: Seq<u8>, off: int) -> u64 {
    (s[off] as u64) | ((s[off + 1] as u64) << 8) | ((s[off + 2] as u64) << 16)
        | ((s[off + 3] as u64) << 24) | ((s[off + 4] as u64) << 32) | ((s[off + 5] as u64) << 40)
        | ((s[off + 6] as u64) << 48) | ((s[off + 7] as u64) << 56)
}

/// The little-endian bytes of a `u32`.
pub open spec fn u32_le_bytes(v: u32) -> Seq<u8> {
    seq![(v & 0xff) as u8, ((v >> 8) & 0xff) as u8, ((v >> 16) & 0xff) as u8, ((v >> 24) & 0xff) as u8]
}

/// The `u32` read little-endian from `s` at offset `off`.
pub open spec fn u32_at(s: Seq<u8>, off: int) -> u32 {
    (s[off] as u32) | ((s[off + 1] as u32) << 8) | ((s[off + 2] as u32) << 16)
        | ((s[off + 3] as u32) << 24)
}

/// Reading back the little-endian bytes of a `u64` yields the value.
pub proof fn lemma_u64_le_roundtrip(v: u64)
    ensures
        u64_at(u64_le_bytes(v), 0) == v,
{
    let b0 = (v & 0xff) as u8;
    let b1 = ((v >> 8) & 0xff) as u8;
    let b2 = ((v >> 16) & 0xff) as u8;
    let b3 = ((v >> 24) & 0xff) as u8;
    let b4 = ((v >> 32) & 0xff) as u8;
    let b5 = ((v >> 40) & 0xff) as u8;
    let b6 = ((v >> 48) & 0xff) as u8;
    let b7 = ((v >> 56) & 0xff) as u8;
    assert((b0 as u64) | ((b1 as u64) << 8) | ((b2 as u64) << 16) | ((b3 as u64) << 24) | (
    (b4 as u64) << 32) | ((b5 as u64) << 40) | ((b6 as u64) << 48) | ((b7 as u64) << 56) == v)
        by (bit_vector)
        requires
            b0 == (v & 0xff) as u8,
            b1 == ((v >> 8) & 0xff) as u8,
            b2 == ((v >> 16) & 0xff) as u8,
            b3 == ((v >> 24) & 0xff) as u8,
            b4 == ((v >> 32) & 0xff) as u8,
            b5 == ((v >> 40) & 0xff) as u8,
            b6 == ((v >> 48) & 0xff) as u8,
            b7 == ((v >> 56) & 0xff) as u8,
    ;
}

/// Reading back the little-endian bytes of a `u32` yields the value.
pub proof fn lemma_u32_le_roundtrip(v: u32)
    ensures
        u32_at(u32_le_bytes(v), 0) == v,
{
    let b0 = (v & 0xff) as u8;
    let b1 = ((v >> 8) & 0xff) as u8;
    let b2 = ((v >> 16) & 0xff) as u8;
    let b3 = ((v >> 24) & 0xff) as u8;
    assert((b0 as u32) | ((b1 as u32) << 8) | ((b2 as u32) << 16) | ((b3 as u32) << 24) == v)
        by (bit_vector)
        requires
            b0 == (v & 0xff) as u8,
            b1 == ((v >> 8) & 0xff) as u8,
            b2 == ((v >> 16) & 0xff) as u8,
            b3 == ((v >> 24) & 0xff) as u8,
    ;
}

/// Append the little-endian bytes of `v` to `out`.
pub fn push_u64_le(out: &mut Vec<u8>, v: u64)
    ensures
        final(out)@ == old(out)@ + u64_le_bytes(v),
{
    proof {
        assert(v & 0xff < 256 && (v >> 8) & 0xff < 256 && (v >> 16) & 0xff < 256 && (v >> 24)
            & 0xff < 256 && (v >> 32) & 0xff < 256 && (v >> 40) & 0xff < 256 && (v >> 48) & 0xff
            < 256 && (v >> 56) & 0xff < 256) by (bit_vector);
    }
    out.push((v & 0xff) as u8);
    out.push(((v >> 8) & 0xff) as u8);
    out.push(((v >> 16) & 0xff) as u8);
    out.push(((v >> 24) & 0xff) as u8);
    out.push(((v >> 32) & 0xff) as u8);
    out.push(((v >> 40) & 0xff) as u8);
    out.push(((v >> 48) & 0xff) as u8);
    out.push(((v >> 56) & 0xff) as u8);
    proof {
        assert(final(out)@ =~= old(out)@ + u64_le_bytes(v));
    }
}

/// Append the little-endian bytes of `v` to `out`.
pub fn push_u32_le(out: &mut Vec<u8>, v: u32)
    ensures
        final(out)@ == old(out)@ + u32_le_bytes(v),
{
    proof {
        assert(v & 0xff < 256 && (v >> 8) & 0xff < 256 && (v >> 16) & 0xff < 256 && (v >> 24)
            & 0xff < 256) by (bit_vector);
    }
    out.push((v & 0xff) as u8);
    out.push(((v >> 8) & 0xff) as u8);
    out.push(((v >> 16) & 0xff) as u8);
    out.push(((v >> 24) & 0xff) as u8);
    proof {
        assert(final(out)@ =~= old(out)@ + u32_le_bytes(v));
    }
}

/// Read a `u64` little-endian from `s` at offset `off`.
pub fn read_u64_le(s: &Vec<u8>, off: usize) -> (r: u64)
    requires
        off + 8 <= s@.len(),
    ensures
        r == u64_at(s@, off as int),
{
    let n = s.len();
    let b0 = s[off] as u64;
    let b1 = s[off + 1] as u64;
    let b2 = s[off + 2] as u64;
    let b3 = s[off + 3] as u64;
    let b4 = s[off + 4] as u64;
    let b5 = s[off + 5] as u64;
    let b6 = s[off + 6] as u64;
    let b7 = s[off + 7] as u64;
    b0 | (b1 << 8) | (b2 << 16) | (b3 << 24) | (b4 << 32) | (b5 << 40) | (b6 << 48) | (b7 << 56)
}

/// Read a `u32` little-endian from `s` at offset `off`.
pub fn read_u32_le(s: &Vec<u8>, off: usize) -> (r: u32)
    requires
        off + 4 <= s@.len(),
    ensures
        r == u32_at(s@, off as int),
{
    let n = s.len();
    let b0 = s[off] as u32;
    let b1 = s[off + 1] as u32;
    let b2 = s[off + 2] as u32;
    let b3 = s[off + 3] as u32;
    b0 | (b1 << 8) | (b2 << 16) | (b3 << 24)
}

/// Whether two byte vectors hold the same bytes.
pub fn bytes_equal(a: &Vec<u8>, b: &Vec<u8>) -> (r: bool)
    ensures
        r == (a@ == b@),
{
    if a.len() != b.len() {
        return false;
    }
    let mut i: usize = 0;
    while i < a.len()
        invariant
            0 <= i <= a@.len(),
            a@.len() == b@.len(),
            forall|k: int| 0 <= k < i ==> a@[k] == b@[k],
        decreases a@.len() - i,
    {
        if a[i] != b[i] {
            return false;
        }
        i += 1;
    }
    proof {
        assert(a@ =~= b@);
    }
    true
}

/// Copy `s[from..to]` into a fresh vector.
pub fn copy_range(s: &Vec<u8>, from: usize, to: usize) -> (r: Vec<u8>)
    requires
        from <= to <= s@.len(),
    ensures
        r@ == s@.subrange(from as int, to as int),
{
    let mut out: Vec<u8> = Vec::new();
    let mut i: usize = from;
    while i < to
        invariant
            from <= i <= to <= s@.len(),
            out@ == s@.subrange(from as int, i as int),
        decreases to - i,
    {
        out.push(s[i]);
        proof {
            assert(out@ =~= s@.subrange(from as int, i + 1 as int));
        }
        i += 1;
    }
    out
}

/// Copy a byte vector.
pub fn clone_bytes(v: &Vec<u8>) -> (r: Vec<u8>)
    ensures
        r@ == v@,
{
    let r = copy_range(v, 0, v.len());
    proof {
        assert(v@.subrange(0, v@.len() as int) =~= v@);
    }
    r
}

/// Whether `s` is the encoding of a signed extrinsic.
pub open spec fn is_signed_encoding(s: Seq<u8>) -> bool {
    s.len() >= 105 && s[0] == 1u8
}

/// The sender bytes of a signed encoding.
pub open spec fn signed_sender(s: Seq<u8>) -> Seq<u8> {
    s.subrange(1, 33)
}

/// The index of a signed encoding.
pub open spec fn signed_index(s: Seq<u8>) -> u64 {
    u64_at(s, 33)
}

/// The signature bytes of a signed encoding.
pub open spec fn signed_signature(s: Seq<u8>) -> Seq<u8> {
    s.subrange(41, 105)
}

/// The call bytes of a signed encoding.
pub open spec fn signed_call(s: Seq<u8>) -> Seq<u8> {
    s.subrange(105, s.len() as int)
}

/// The bytes a signed extrinsic's signature covers.
pub open spec fn signed_payload(s: Seq<u8>) -> Seq<u8> {
    u64_le_bytes(signed_index(s)) + signed_call(s)
}

/// The count field of an inherent encoding.
pub open spec fn inherent_count(s: Seq<u8>) -> u32 {
    u32_at(s, 9)
}

/// The `i`-th reported validator index of an inherent encoding.
pub open spec fn inherent_index(s: Seq<u8>, i: int) -> u32 {
    u32_at(s, 13 + 4 * i)
}

/// Whether `s` is the encoding of the inherent extrinsic.
pub open spec fn is_inherent_encoding(s: Seq<u8>) -> bool {
    &&& s.len() >= 13
    &&& s[0] == 0u8
    &&& s.len() == 13 + 4 * (inherent_count(s) as int)
    &&& forall|i: int, j: int|
        0 <= i < j < inherent_count(s) ==> inherent_index(s, i) < inherent_index(s, j)
}

/// The timestamp of an inherent encoding.
pub open spec fn inherent_timestamp(s: Seq<u8>) -> u64 {
    u64_at(s, 1)
}

/// The reported validator indices of an inherent encoding.
pub open spec fn inherent_offline(s: Seq<u8>) -> Seq<u32> {
    Seq::new(inherent_count(s) as nat, |i: int| inherent_index(s, i))
}

/// Whether `s` encodes some extrinsic.
pub open spec fn is_valid_extrinsic(s: Seq<u8>) -> bool {
    is_signed_encoding(s) || is_inherent_encoding(s)
}

/// An extrinsic in decoded form.
pub enum Extrinsic {
    /// The unsigned inherent extrinsic.
    Inherent {
        /// Its payload.
        data: InherentData,
    },
    /// A signed transaction.
    Signed {
        /// The sender's account.
        sender: AccountId,
        /// The sender-local index.
        index: u64,
        /// The ed25519 signature over index and call.
        signature: Vec<u8>,
        /// The opaque call bytes.
        call: Vec<u8>,
    },
}

/// Decode an extrinsic. Fails with `InvalidExtrinsicFormat` exactly on the
/// byte strings that encode nothing.
pub fn decode_extrinsic(bytes: &Vec<u8>) -> (r: Result<Extrinsic, Error>)
    ensures
        is_signed_encoding(bytes@) ==> (r matches Ok(Extrinsic::Signed {
            sender,
            index,
            signature,
            call,
        }) && sender@ == signed_sender(bytes@) && index == signed_index(bytes@) && signature@
            == signed_signature(bytes@) && call@ == signed_call(bytes@)),
        is_inherent_encoding(bytes@) ==> (r matches Ok(Extrinsic::Inherent { data })
            && data.timestamp == inherent_timestamp(bytes@) && data.offline_indices@
            == inherent_offline(bytes@)),
        !is_valid_extrinsic(bytes@) ==> r == Err::<Extrinsic, Error>(
            Error::InvalidExtrinsicFormat,
        ),
{
    if bytes.len() == 0 {
        return Err(Error::InvalidExtrinsicFormat);
    }
    let tag = bytes[0];
    if tag == 1 {
        if bytes.len() < 105 {
            return Err(Error::InvalidExtrinsicFormat);
        }
        let sender = copy_range(bytes, 1, 33);
        let index = read_u64_le(bytes, 33);
        let signature = copy_range(bytes, 41, 105);
        let call = copy_range(bytes, 105, bytes.len());
        Ok(Extrinsic::Signed { sender, index, signature, call })
    } else if tag == 0 {
        if bytes.len() < 13 {
            return Err(Error::InvalidExtrinsicFormat);
        }
        let timestamp = read_u64_le(bytes, 1);
        let count = read_u32_le(bytes, 9);
        let rem = bytes.len() - 13;
        if rem % 4 != 0 || rem / 4 != count as usize {
            return Err(Error::InvalidExtrinsicFormat);
        }
        let mut offline_indices: Vec<u32> = Vec::new();
        let mut i: usize = 0;
        while i < count as usize
            invariant
                0 <= i <= count,
                bytes@[0] == 0u8,
                count == inherent_count(bytes@),
                bytes@.len() == 13 + 4 * (count as int),
                bytes@.len() <= usize::MAX,
                offline_indices@.len() == i,
                forall|k: int| 0 <= k < i ==> offline_indices@[k] == inherent_index(bytes@, k),
                forall|k: int, l: int|
                    0 <= k < l < i ==> inherent_index(bytes@, k) < inherent_index(bytes@, l),
            decreases count - i,
        {
            let v = read_u32_le(bytes, 13 + 4 * i);
            if i > 0 {
                let prev = offline_indices[i - 1];
                if prev >= v {
                    proof {
                        assert(prev == inherent_index(bytes@, i - 1));
                        assert(v == inherent_index(bytes@, i as int));
                        if is_inherent_encoding(bytes@) {
                            assert(inherent_index(bytes@, i - 1) < inherent_index(
                                bytes@,
                                i as int,
                            ));
                        }
                    }
                    return Err(Error::InvalidExtrinsicFormat);
                }
            }
            offline_indices.push(v);
            i += 1;
        }
        proof {
            assert(offline_indices@ =~= inherent_offline(bytes@));
        }
        Ok(Extrinsic::Inherent { data: InherentData { timestamp, offline_indices } })
    } else {
        Err(Error::InvalidExtrinsicFormat)
    }
}

/// The encoding of a signed extrinsic from its parts.
pub open spec fn spec_encode_signed(
    sender: Seq<u8>,
    index: u64,
    signature: Seq<u8>,
    call: Seq<u8>,
) -> Seq<u8> {
    seq![1u8] + sender + u64_le_bytes(index) + signature + call
}

/// The parts of a well-formed signed encoding read back as what was written.
pub proof fn lemma_signed_encoding_parts(
    sender: Seq<u8>,
    index: u64,
    signature: Seq<u8>,
    call: Seq<u8>,
)
    requires
        sender.len() == 32,
        signature.len() == 64,
    ensures
        is_signed_encoding(spec_encode_signed(sender, index, signature, call)),
        signed_sender(spec_encode_signed(sender, index, signature, call)) == sender,
        signed_index(spec_encode_signed(sender, index, signature, call)) == index,
        signed_signature(spec_encode_signed(sender, index, signature, call)) == signature,
        signed_call(spec_encode_signed(sender, index, signature, call)) == call,
        spec_encode_signed(sender, index, signature, call).len() == 105 + call.len(),
{
    let e = spec_encode_signed(sender, index, signature, call);
    assert(e.len() == 105 + call.len());
    assert(signed_sender(e) =~= sender);
    assert(e.subrange(33, 41) =~= u64_le_bytes(index));
    assert(signed_index(e) == u64_at(e.subrange(33, 41), 0)) by {
        assert(forall|k: int| 0 <= k < 8 ==> e.subrange(33, 41)[k] == e[33 + k]);
    }
    lemma_u64_le_roundtrip(index);
    assert(signed_signature(e) =~= signature);
    assert(signed_call(e) =~= call);
}

/// Encode a signed extrinsic.
pub fn encode_signed_extrinsic(
    sender: &AccountId,
    index: u64,
    signature: &Vec<u8>,
    call: &Vec<u8>,
) -> (r: Vec<u8>)
    requires
        sender@.len() == 32,
        signature@.len() == 64,
    ensures
        r@ == spec_encode_signed(sender@, index, signature@, call@),
{
    let mut out: Vec<u8> = Vec::new();
    out.push(1);
    let mut i: usize = 0;
    while i < sender.len()
        invariant
            0 <= i <= sender@.len(),
            sender@.len() == 32,
            out@ == seq![1u8] + sender@.subrange(0, i as int),
        decreases sender@.len() - i,
    {
        out.push(sender[i]);
        proof {
            assert(out@ =~= seq![1u8] + sender@.subrange(0, i + 1 as int));
        }
        i += 1;
    }
    proof {
        assert(sender@.subrange(0, 32) =~= sender@);
    }
    push_u64_le(&mut out, index);
    let mut j: usize = 0;
    while j < signature.len()
        invariant
            0 <= j <= signature@.len(),
            signature@.len() == 64,
            out@ == seq![1u8] + sender@ + u64_le_bytes(index) + signature@.subrange(0, j as int),
        decreases signature@.len() - j,
    {
        out.push(signature[j]);
        proof {
            assert(out@ =~= seq![1u8] + sender@ + u64_le_bytes(index) + signature@.subrange(
                0,
                j + 1 as int,
            ));
        }
        j += 1;
    }
    proof {
        assert(signature@.subrange(0, 64) =~= signature@);
    }
    let mut k: usize = 0;
    while k < call.len()
        invariant
            0 <= k <= call@.len(),
            out@ == seq![1u8] + sender@ + u64_le_bytes(index) + signature@ + call@.subrange(
                0,
                k as int,
            ),
        decreases call@.len() - k,
    {
        out.push(call[k]);
        proof {
            assert(out@ =~= seq![1u8] + sender@ + u64_le_bytes(index) + signature@
                + call@.subrange(0, k + 1 as int));
        }
        k += 1;
    }
    proof {
        assert(call@.subrange(0, call@.len() as int) =~= call@);
    }
    out
}

/// The bytes of a sequence of reported validator indices.
pub open spec fn offline_bytes(offline: Seq<u32>) -> Seq<u8>
    decreases offline.len(),
{
    if offline.len() == 0 {
        Seq::empty()
    } else {
        offline_bytes(offline.drop_last()) + u32_le_bytes(offline.last())
    }
}

/// Length and per-entry layout of `offline_bytes`.
pub proof fn lemma_offline_bytes_index(offline: Seq<u32>, i: int)
    requires
        0 <= i < offline.len(),
    ensures
        offline_bytes(offline).len() == 4 * offline.len(),
        offline_bytes(offline).subrange(4 * i, 4 * i + 4) == u32_le_bytes(offline[i]),
    decreases offline.len(),
{
    lemma_offline_bytes_len(offline);
    if i == offline.len() - 1 {
        lemma_offline_bytes_len(offline.drop_last());
        assert(offline_bytes(offline).subrange(4 * i, 4 * i + 4) =~= u32_le_bytes(offline[i]));
    } else {
        lemma_offline_bytes_index(offline.drop_last(), i);
        lemma_offline_bytes_len(offline.drop_last());
        assert(offline_bytes(offline).subrange(4 * i, 4 * i + 4) =~= offline_bytes(
            offline.drop_last(),
        ).subrange(4 * i, 4 * i + 4));
    }
}

/// `offline_bytes` uses four bytes per entry.
pub proof fn lemma_offline_bytes_len(offline: Seq<u32>)
    ensures
        offline_bytes(offline).len() == 4 * offline.len(),
    decreases offline.len(),
{
    if offline.len() > 0 {
        lemma_offline_bytes_len(offline.drop_last());
    }
}

/// The encoding of the inherent extrinsic from its data.
pub open spec fn spec_encode_inherent(timestamp: u64, offline: Seq<u32>) -> Seq<u8> {
    seq![0u8] + u64_le_bytes(timestamp) + u32_le_bytes(offline.len() as u32) + offline_bytes(
        offline,
    )
}

/// A well-formed inherent encoding reads back as what was written.
pub proof fn lemma_inherent_encoding_parts(timestamp: u64, offline: Seq<u32>)
    requires
        offline.len() <= 0xffff_ffff,
        forall|i: int, j: int| 0 <= i < j < offline.len() ==> offline[i] < offline[j],
    ensures
        is_inherent_encoding(spec_encode_inherent(timestamp, offline)),
        !is_signed_encoding(spec_encode_inherent(timestamp, offline)),
        inherent_timestamp(spec_encode_inherent(timestamp, offline)) == timestamp,
        inherent_offline(spec_encode_inherent(timestamp, offline)) == offline,
        spec_encode_inherent(timestamp, offline).len() == 13 + 4 * offline.len(),
{
    let e = spec_encode_inherent(timestamp, offline);
    lemma_offline_bytes_len(offline);
    assert(e.len() == 13 + 4 * offline.len());
    assert(e.subrange(1, 9) =~= u64_le_bytes(timestamp));
    assert(inherent_timestamp(e) == u64_at(e.subrange(1, 9), 0)) by {
        assert(forall|k: int| 0 <= k < 8 ==> e.subrange(1, 9)[k] == e[1 + k]);
    }
    lemma_u64_le_roundtrip(timestamp);
    assert(e.subrange(9, 13) =~= u32_le_bytes(offline.len() as u32));
    assert(inherent_count(e) == u32_at(e.subrange(9, 13), 0)) by {
        assert(forall|k: int| 0 <= k < 4 ==> e.subrange(9, 13)[k] == e[9 + k]);
    }
    lemma_u32_le_roundtrip(offline.len() as u32);
    assert(inherent_count(e) == offline.len());
    assert forall|i: int| 0 <= i < offline.len() implies #[trigger] inherent_index(e, i)
        == offline[i] by {
        lemma_offline_bytes_index(offline, i);
        assert(e.subrange(13 + 4 * i, 13 + 4 * i + 4) =~= offline_bytes(offline).subrange(
            4 * i,
            4 * i + 4,
        ));
        assert(inherent_index(e, i) == u32_at(e.subrange(13 + 4 * i, 13 + 4 * i + 4), 0)) by {
            assert(forall|k: int|
                0 <= k < 4 ==> #[trigger] e.subrange(13 + 4 * i, 13 + 4 * i + 4)[k] == e[13 + 4 * i
                    + k]);
        }
        lemma_u32_le_roundtrip(offline[i]);
    }
    assert(inherent_offline(e) =~= offline);
}

/// Encode the inherent extrinsic.
pub fn encode_inherent(data: &InherentData) -> (r: Vec<u8>)
    requires
        data.offline_indices@.len() <= 0xffff_ffff,
    ensures
        r@ == spec_encode_inherent(data.timestamp, data.offline_indices@),
{
    let mut out: Vec<u8> = Vec::new();
    out.push(0);
    push_u64_le(&mut out, data.timestamp);
    push_u32_le(&mut out, data.offline_indices.len() as u32);
    let mut i: usize = 0;
    while i < data.offline_indices.len()
        invariant
            0 <= i <= data.offline_indices@.len(),
            out@ == seq![0u8] + u64_le_bytes(data.timestamp) + u32_le_bytes(
                data.offline_indices@.len() as u32,
            ) + offline_bytes(data.offline_indices@.subrange(0, i as int)),
        decreases data.offline_indices@.len() - i,
    {
        push_u32_le(&mut out, data.offline_indices[i]);
        proof {
            let pre = data.offline_indices@.subrange(0, i as int);
            let post = data.offline_indices@.subrange(0, i + 1 as int);
            assert(post.drop_last() =~= pre);
            assert(post.last() == data.offline_indices@[i as int]);
        }
        i += 1;
    }
    proof {
        assert(data.offline_indices@.subrange(0, data.offline_indices@.len() as int)
            =~= data.offline_indices@);
    }
    out
}

/// The bytes a header is hashed over.
pub open spec fn header_bytes(parent_hash: Seq<u8>, number: u64) -> Seq<u8> {
    parent_hash + u64_le_bytes(number)
}

/// The hash of a header.
pub open spec fn spec_header_hash(h: Header) -> Seq<u8> {
    blake2_256_of(header_bytes(h.parent_hash@, h.number))
}

/// Hash a header.
pub fn hash_header(h: &Header) -> (r: BlockHash)
    ensures
        r@ == spec_header_hash(*h),
        r@.len() == 32,
{
    let mut bytes = copy_range(&h.parent_hash, 0, h.parent_hash.len());
    proof {
        assert(h.parent_hash@.subrange(0, h.parent_hash@.len() as int) =~= h.parent_hash@);
    }
    push_u64_le(&mut bytes, h.number);
    blake2_256(&bytes)
}

/// Framed size of a sequence of encoded extrinsics: four bytes of framing
/// plus the bytes of each.
pub open spec fn xts_size(xts: Seq<Seq<u8>>) -> int
    decreases xts.len(),
{
    if xts.len() == 0 {
        0
    } else {
        xts_size(xts.drop_last()) + 4 + xts.last().len()
    }
}

/// The framed size is never negative.
pub proof fn lemma_xts_size_nonneg(xts: Seq<Seq<u8>>)
    ensures
        xts_size(xts) >= 0,
    decreases xts.len(),
{
    if xts.len() > 0 {
        lemma_xts_size_nonneg(xts.drop_last());
    }
}

/// The framed size adds over concatenation.
pub proof fn lemma_xts_size_add(a: Seq<Seq<u8>>, b: Seq<Seq<u8>>)
    ensures
        xts_size(a + b) == xts_size(a) + xts_size(b),
    decreases b.len(),
{
    if b.len() == 0 {
        assert(a + b =~= a);
    } else {
        lemma_xts_size_add(a, b.drop_last());
        assert((a + b).drop_last() =~= a + b.drop_last());
        assert((a + b).last() == b.last());
    }
}

/// Encoded size of a block: the header, the framing, and the extrinsics.
pub open spec fn spec_block_size(b: Block) -> int {
    16 + b.header.parent_hash@.len() + xts_size(b.extrinsics.deep_view())
}

/// Whether the encoded size of `b` is at most `limit`.
pub fn block_size_within(b: &Block, limit: usize) -> (r: bool)
    ensures
        r == (spec_block_size(*b) <= limit),
{
    if b.header.parent_hash.len() > limit || 16 > limit - b.header.parent_hash.len() {
        proof {
            lemma_xts_size_nonneg(b.extrinsics.deep_view());
        }
        return false;
    }
    let mut acc: usize = 16 + b.header.parent_hash.len();
    let mut i: usize = 0;
    while i < b.extrinsics.len()
        invariant
            0 <= i <= b.extrinsics@.len(),
            acc <= limit,
            acc == 16 + b.header.parent_hash@.len() + xts_size(
                b.extrinsics.deep_view().subrange(0, i as int),
            ),
        decreases b.extrinsics@.len() - i,
    {
        let xt_len = b.extrinsics[i].len();
        proof {
            let pre = b.extrinsics.deep_view().subrange(0, i as int);
            let post = b.extrinsics.deep_view().subrange(0, i + 1 as int);
            assert(post.drop_last() =~= pre);
            assert(post.last() == b.extrinsics.deep_view()[i as int]);
            assert(b.extrinsics.deep_view()[i as int].len() == b.extrinsics@[i as int]@.len());
        }
        if xt_len > limit - acc || 4 > limit - acc - xt_len {
            proof {
                let done = b.extrinsics.deep_view().subrange(0, i + 1 as int);
                let rest = b.extrinsics.deep_view().subrange(
                    i + 1 as int,
                    b.extrinsics.deep_view().len() as int,
                );
                assert(b.extrinsics.deep_view() =~= done + rest);
                lemma_xts_size_add(done, rest);
                lemma_xts_size_nonneg(rest);
            }
            return false;
        }
        acc = acc + 4 + xt_len;
        i += 1;
    }
    proof {
        assert(b.extrinsics.deep_view().subrange(0, b.extrinsics.deep_view().len() as int)
            =~= b.extrinsics.deep_view());
    }
    true
}


/// Append the bytes of `v` to `out`.
pub fn append_bytes(out: &mut Vec<u8>, v: &Vec<u8>)
    ensures
        final(out)@ == old(out)@ + v@,
{
    let mut i: usize = 0;
    while i < v.len()
        invariant
            0 <= i <= v@.len(),
            out@ == old(out)@ + v@.subrange(0, i as int),
        decreases v@.len() - i,
    {
        out.push(v[i]);
        proof {
            assert(out@ =~= old(out)@ + v@.subrange(0, i + 1 as int));
        }
        i += 1;
    }
    proof {
        assert(old(out)@ + v@.subrange(0, v@.len() as int) =~= old(out)@ + v@);
    }
}

/// Total byte length of a sequence of encoded extrinsics, without framing.
pub open spec fn total_len(xts: Seq<Seq<u8>>) -> int
    decreases xts.len(),
{
    if xts.len() == 0 {
        0
    } else {
        total_len(xts.drop_last()) + xts.last().len()
    }
}

/// The total length is never negative.
pub proof fn lemma_total_len_nonneg(xts: Seq<Seq<u8>>)
    ensures
        total_len(xts) >= 0,
    decreases xts.len(),
{
    if xts.len() > 0 {
        lemma_total_len_nonneg(xts.drop_last());
    }
}

/// For extrinsics of at least 105 bytes — the smallest signed encoding —
/// the framed size is linearly bounded by the total length.
pub proof fn lemma_xts_size_bound(xts: Seq<Seq<u8>>)
    requires
        forall|j: int| 0 <= j < xts.len() ==> (#[trigger] xts[j]).len() >= 105,
    ensures
        105 * xts_size(xts) <= 109 * total_len(xts),
    decreases xts.len(),
{
    if xts.len() > 0 {
        assert(forall|j: int|
            0 <= j < xts.drop_last().len() ==> (#[trigger] xts.drop_last()[j]).len() >= 105);
        lemma_xts_size_bound(xts.drop_last());
        assert(xts.last().len() >= 105);
    }
}

} // verus!
