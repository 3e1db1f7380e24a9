//! The persistence encoding of model parameters: each parameter payload
//! as a fixed-width little-endian 64-bit word, one after the other in
//! the model's parameter order, with no header. A well-formed encoding
//! of `n` parameters is exactly `8 * n` bytes; anything shorter or
//! longer is rejected whole.

use vstd::bytes::lemma_auto_spec_u64_to_from_le_bytes;
use vstd::bytes::spec_u64_from_le_bytes;
use vstd::bytes::spec_u64_to_le_bytes;
use vstd::bytes::u64_from_le_bytes;
use vstd::bytes::u64_to_le_bytes;
use vstd::prelude::*;

verus! {

/// The byte stream encoding a parameter sequence: eight little-endian
/// bytes per payload, in order.
pub open spec fn encoded_params(params: Seq<u64>) -> Seq<u8>
    decreases params.len(),
{
    if params.len() == 0 {
        seq![]
    } else {
        spec_u64_to_le_bytes(params[0]) + encoded_params(params.drop_first())
    }
}

proof fn lemma_encoded_params_push(params: Seq<u64>, p: u64)
    ensures
        encoded_params(params.push(p)) == encoded_params(params) + spec_u64_to_le_bytes(p),
    decreases params.len(),
{
    lemma_auto_spec_u64_to_from_le_bytes();
    if params.len() == 0 {
        assert(params.push(p).drop_first() =~= params);
        assert(encoded_params(params.push(p)) =~= encoded_params(params) + spec_u64_to_le_bytes(
            p,
        ));
    } else {
        assert(params.push(p).drop_first() =~= params.drop_first().push(p));
        lemma_encoded_params_push(params.drop_first(), p);
        assert(params.push(p)[0] == params[0]);
        assert(encoded_params(params.push(p)) =~= encoded_params(params) + spec_u64_to_le_bytes(
            p,
        ));
    }
}

/// The encoding is exactly eight bytes per parameter.
pub proof fn lemma_encoded_params_len(params: Seq<u64>)
    ensures
        encoded_params(params).len() == 8 * params.len(),
    decreases params.len(),
{
    lemma_auto_spec_u64_to_from_le_bytes();
    if params.len() > 0 {
        lemma_encoded_params_len(params.drop_first());
    }
}

/// The parameter sequence a byte stream decodes to: eight bytes per
/// payload, little-endian, leftovers shorter than a word ignored.
pub open spec fn decoded_params(bytes: Seq<u8>) -> Seq<u64>
    decreases bytes.len(),
{
    if bytes.len() < 8 {
        seq![]
    } else {
        seq![spec_u64_from_le_bytes(bytes.take(8))] + decoded_params(bytes.skip(8))
    }
}

/// Persisted-and-reloaded parameters round-trip exactly: decoding the
/// encoding of any parameter sequence gives back the sequence,
/// bit for bit.
pub proof fn lemma_parameters_round_trip(params: Seq<u64>)
    ensures
        decoded_params(encoded_params(params)) == params,
    decreases params.len(),
{
    lemma_auto_spec_u64_to_from_le_bytes();
    if params.len() == 0 {
    } else {
        let bytes = encoded_params(params);
        lemma_encoded_params_len(params.drop_first());
        assert(bytes.take(8) =~= spec_u64_to_le_bytes(params[0]));
        assert(bytes.skip(8) =~= encoded_params(params.drop_first()));
        lemma_parameters_round_trip(params.drop_first());
        assert(decoded_params(bytes) =~= params);
    }
}

/// Serialise parameter payloads for persistence: eight little-endian
/// bytes per payload, in parameter order, no header.
pub fn encode_parameters(params: &Vec<u64>) -> (bytes: Vec<u8>)
    ensures
        bytes@ == encoded_params(params@),
        bytes@.len() == 8 * params@.len(),
{
    let mut bytes: Vec<u8> = Vec::new();
    let mut k: usize = 0;
    while k < params.len()
        invariant
            k <= params@.len(),
            bytes@ == encoded_params(params@.take(k as int)),
        decreases params@.len() - k,
    {
        let mut word = u64_to_le_bytes(params[k]);
        let ghost before = bytes@;
        bytes.append(&mut word);
        proof {
            lemma_encoded_params_push(params@.take(k as int), params@[k as int]);
            assert(params@.take(k as int + 1) =~= params@.take(k as int).push(
                params@[k as int],
            ));
        }
        k += 1;
    }
    proof {
        assert(params@.take(params@.len() as int) =~= params@);
        lemma_encoded_params_len(params@);
    }
    bytes
}

proof fn lemma_decoded_pointwise(bytes: Seq<u8>, n: int)
    requires
        n >= 0,
        bytes.len() == 8 * n,
    ensures
        decoded_params(bytes).len() == n,
        forall|t: int|
            0 <= t < n ==> decoded_params(bytes)[t] == spec_u64_from_le_bytes(
                #[trigger] bytes.subrange(8 * t, 8 * t + 8),
            ),
    decreases n,
{
    if n > 0 {
        let rest = bytes.skip(8);
        lemma_decoded_pointwise(rest, n - 1);
        assert(bytes.take(8) =~= bytes.subrange(0, 8));
        assert forall|t: int| 0 <= t < n implies decoded_params(bytes)[t]
            == spec_u64_from_le_bytes(#[trigger] bytes.subrange(8 * t, 8 * t + 8)) by {
            if t > 0 {
                assert(rest.subrange(8 * (t - 1), 8 * (t - 1) + 8) =~= bytes.subrange(
                    8 * t,
                    8 * t + 8,
                ));
                assert(decoded_params(bytes)[t] == decoded_params(rest)[t - 1]);
            }
        }
    }
}

/// Restore parameter payloads from a persisted byte stream that should
/// hold exactly `count` of them. Returns the payloads when the stream is
/// exactly `8 * count` bytes; any trailing or missing bytes yield
/// `None`, never a partial result.
pub fn decode_parameters(bytes: &Vec<u8>, count: usize) -> (r: Option<Vec<u64>>)
    ensures
        r is Some <==> bytes@.len() == 8 * count,
        r matches Some(params) ==> params@ == decoded_params(bytes@) && params@.len() == count,
{
    let blen = bytes.len();
    if count > usize::MAX / 8 || blen != 8 * count {
        return None;
    }
    proof {
        lemma_decoded_pointwise(bytes@, count as int);
    }
    let mut params: Vec<u64> = Vec::new();
    let mut k: usize = 0;
    while k < count
        invariant
            blen == bytes@.len(),
            blen == 8 * count,
            k <= count,
            params@.len() == k,
            decoded_params(bytes@).len() == count,
            forall|t: int|
                0 <= t < count ==> decoded_params(bytes@)[t] == spec_u64_from_le_bytes(
                    #[trigger] bytes@.subrange(8 * t, 8 * t + 8),
                ),
            forall|t: int| 0 <= t < k ==> #[trigger] params@[t] == decoded_params(bytes@)[t],
        decreases count - k,
    {
        let mut word: Vec<u8> = Vec::new();
        let mut i: usize = 0;
        while i < 8
            invariant
                blen == bytes@.len(),
                blen == 8 * count,
                k < count,
                i <= 8,
                word@ == bytes@.subrange(8 * k, 8 * k + i),
            decreases 8 - i,
        {
            word.push(bytes[8 * k + i]);
            proof {
                assert(bytes@.subrange(8 * k, 8 * k + i + 1) =~= bytes@.subrange(
                    8 * k,
                    8 * k + i,
                ).push(bytes@[8 * k + i]));
            }
            i += 1;
        }
        let x = u64_from_le_bytes(word.as_slice());
        params.push(x);
        k += 1;
    }
    proof {
        assert(params@ =~= decoded_params(bytes@));
    }
    Some(params)
}

} // verus!
