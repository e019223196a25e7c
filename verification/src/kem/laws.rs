//! What holds of keys, ciphertexts and shared secrets together.

use vstd::prelude::*;

use super::{
    decaps_secret, decapsulation_key_bytes, encaps_ciphertext, encaps_secret, encaps_seeds,
    encapsulation_part, hash_part, is_decapsulation_key, is_encapsulation_key,
    is_public_part_canonical, key_hash, public_part, recovered_message, reencrypted,
    rejection_part, rho_part, secret_part, DecapsulationKey,
};
use crate::algebraic::transform::is_poly;
use crate::encoding::bits::fits;
use crate::encoding::{law_decoded_pair, reduce_poly};
use crate::encoding::vectors::{
    all_polys, block, decode_vector, encode_vector, law_decode_encode_vector,
    law_encode_decode_vector, lemma_encoded_length, reduce_vector,
};
use crate::functions::{j_spec, law_rejection_hash, sha3_256, sha3_512, shake256_byte};
use crate::parameters::ParameterSet;
use crate::PKE::laws::{decryption_noise, law_decrypt_encrypt, message_survives};
use crate::PKE::scheme::{
    decrypt_spec, encrypt_spec, encryption_key_bytes, key_seeds, key_vector, s_hat_spec,
    t_hat_spec,
};

verus! {

/// Whoever recovers the encapsulated message, and holds the hash of the
/// encapsulation key, shares the secret.
pub proof fn law_recovered_secret<P: ParameterSet>(
    s_hat: Seq<Seq<int>>,
    t_hat: Seq<Seq<int>>,
    rho: Seq<u8>,
    z: Seq<u8>,
    m: Seq<u8>,
)
    requires
        recovered_message::<P>(s_hat, encaps_ciphertext::<P>(t_hat, rho, m)) == m,
    ensures
        decaps_secret::<P>(
            s_hat,
            t_hat,
            rho,
            key_hash(t_hat, rho),
            z,
            encaps_ciphertext::<P>(t_hat, rho, m),
        ) == encaps_secret(t_hat, rho, m),
{
}

/// Encapsulation and decapsulation under the key of a seed agree on the secret
/// wherever the noise spares every bit of the message.
pub proof fn law_shared_secret<P: ParameterSet>(d: Seq<u8>, z: Seq<u8>, m: Seq<u8>)
    requires
        m.len() == 32,
        message_survives(
            m,
            decryption_noise::<P>(
                d,
                m,
                encaps_seeds(m, key_hash(t_hat_spec::<P>(d), key_seeds::<P>(d).0)).1,
            ),
        ),
    ensures
        ({
            let (t_hat, rho) = (t_hat_spec::<P>(d), key_seeds::<P>(d).0);
            decaps_secret::<P>(
                s_hat_spec::<P>(d),
                t_hat,
                rho,
                key_hash(t_hat, rho),
                z,
                encaps_ciphertext::<P>(t_hat, rho, m),
            ) == encaps_secret(t_hat, rho, m)
        }),
{
    let (t_hat, rho) = (t_hat_spec::<P>(d), key_seeds::<P>(d).0);
    law_decrypt_encrypt::<P>(d, m, encaps_seeds(m, key_hash(t_hat, rho)).1);
    law_recovered_secret::<P>(s_hat_spec::<P>(d), t_hat, rho, z, m);
}

/// A ciphertext that the recovered message does not encrypt to is answered with
/// the rejection secret.
pub proof fn law_implicit_rejection<P: ParameterSet>(
    s_hat: Seq<Seq<int>>,
    t_hat: Seq<Seq<int>>,
    rho: Seq<u8>,
    h_ek: Seq<u8>,
    z: Seq<u8>,
    ciphertext: Seq<u8>,
)
    requires
        reencrypted::<P>(s_hat, t_hat, rho, h_ek, ciphertext) != ciphertext,
    ensures
        decaps_secret::<P>(s_hat, t_hat, rho, h_ek, z, ciphertext) == j_spec(z, ciphertext),
{
}

/// Decapsulation hashes the recovered message and the hash that the key holds;
/// it answers with the first half of the digest where the message encrypts to
/// the ciphertext under the second half, and otherwise with the hash of the
/// list whose first bytes are the rejection seed and whose other bytes are the
/// ciphertext.
pub proof fn law_decapsulation<P: ParameterSet>(
    s_hat: Seq<Seq<int>>,
    t_hat: Seq<Seq<int>>,
    rho: Seq<u8>,
    h_ek: Seq<u8>,
    z: Seq<u8>,
    ciphertext: Seq<u8>,
    input: Seq<u8>,
    n: int,
)
    requires
        input.len() == z.len() + ciphertext.len(),
        forall|i: int| 0 <= i < z.len() ==> #[trigger] input[i] == z[i],
        forall|i: int|
            0 <= i < ciphertext.len() ==> input[z.len() + i] == #[trigger] ciphertext[i],
        0 <= n < 32,
    ensures
        ({
            let m = decrypt_spec::<P>(s_hat, ciphertext);
            let digest = sha3_512(m + h_ek);
            let secret = decaps_secret::<P>(s_hat, t_hat, rho, h_ek, z, ciphertext);
            if encrypt_spec::<P>(t_hat, rho, m, digest.subrange(32, 64)) == ciphertext {
                secret == digest.subrange(0, 32)
            } else {
                secret.len() == 32 && secret[n] == shake256_byte(input, n)
            }
        }),
{
    law_rejection_hash(z, ciphertext, input, n);
}

/// Encapsulation hashes the message and the hash of the bytes of the key; the
/// first half of the digest is the secret, and the ciphertext is that of the
/// message under the second half.
pub proof fn law_encapsulation<P: ParameterSet>(t_hat: Seq<Seq<int>>, rho: Seq<u8>, m: Seq<u8>)
    ensures
        ({
            let digest = sha3_512(m + sha3_256(encode_vector(t_hat, 12) + rho));
            &&& encaps_secret(t_hat, rho, m) == digest.subrange(0, 32)
            &&& encaps_ciphertext::<P>(t_hat, rho, m) == encrypt_spec::<P>(
                t_hat,
                rho,
                m,
                digest.subrange(32, 64),
            )
        }),
{
}

/// Under the hash of the encapsulation key, decapsulation yields the secret of
/// the recovered message where encapsulating the message gives the ciphertext
/// back, and the rejection secret otherwise.
pub proof fn law_own_hash<P: ParameterSet>(
    s_hat: Seq<Seq<int>>,
    t_hat: Seq<Seq<int>>,
    rho: Seq<u8>,
    z: Seq<u8>,
    ciphertext: Seq<u8>,
)
    ensures
        ({
            let m = recovered_message::<P>(s_hat, ciphertext);
            decaps_secret::<P>(s_hat, t_hat, rho, key_hash(t_hat, rho), z, ciphertext)
                == if encaps_ciphertext::<P>(t_hat, rho, m) == ciphertext {
                encaps_secret(t_hat, rho, m)
            } else {
                j_spec(z, ciphertext)
            }
        }),
{
}

/// Canonical residues fit twelve bits.
proof fn lemma_polys_fit(v: Seq<Seq<int>>)
    requires
        all_polys(v),
    ensures
        forall|i: int|
            0 <= i < v.len() ==> (#[trigger] v[i]).len() == 256 && fits(v[i], 12, 256),
{
    vstd::arithmetic::power2::lemma2_to64();
    assert forall|i: int| 0 <= i < v.len() implies (#[trigger] v[i]).len() == 256 && fits(
        v[i],
        12,
        256,
    ) by {
        assert(is_poly(v[i]));
    }
}

/// The residues of canonical residues are those residues.
proof fn lemma_reduced(v: Seq<Seq<int>>)
    requires
        all_polys(v),
    ensures
        reduce_vector(v) == v,
{
    assert forall|i: int| 0 <= i < v.len() implies reduce_vector(v)[i] == v[i] by {
        assert(is_poly(v[i]));
        assert(reduce_poly(v[i]) =~= v[i]);
    }
    assert(reduce_vector(v) =~= v);
}

/// A vector of canonical residues is decoded from its encoding.
proof fn lemma_vector_round_trip(v: Seq<Seq<int>>)
    requires
        all_polys(v),
    ensures
        decode_vector(encode_vector(v, 12), 12, v.len()) == v,
        reduce_vector(decode_vector(encode_vector(v, 12), 12, v.len())) == v,
        encode_vector(v, 12).len() == 384 * v.len(),
{
    lemma_polys_fit(v);
    law_decode_encode_vector(v, 12);
    lemma_encoded_length(v, 12);
    lemma_reduced(v);
}

/// The bytes of an encapsulation key hold the key.
pub proof fn law_encapsulation_key_round_trip<P: ParameterSet>(
    t_hat: Seq<Seq<int>>,
    rho: Seq<u8>,
)
    requires
        t_hat.len() == P::K,
        all_polys(t_hat),
        rho.len() == 32,
    ensures
        ({
            let bytes = encryption_key_bytes(t_hat, rho);
            &&& is_encapsulation_key::<P>(bytes)
            &&& decode_vector(bytes.take(384 * P::K), 12, P::K as nat) == t_hat
            &&& bytes.skip(384 * P::K) == rho
        }),
{
    P::lemma_sizes();
    lemma_vector_round_trip(t_hat);
    let bytes = encryption_key_bytes(t_hat, rho);
    assert(bytes.take(384 * P::K) =~= encode_vector(t_hat, 12));
    assert(bytes.skip(384 * P::K) =~= rho);
}

/// Bytes that hold an encapsulation key are the bytes of that key.
pub proof fn law_encapsulation_key_bytes<P: ParameterSet>(bytes: Seq<u8>)
    requires
        is_encapsulation_key::<P>(bytes),
    ensures
        encryption_key_bytes(
            decode_vector(bytes.take(384 * P::K), 12, P::K as nat),
            bytes.skip(384 * P::K),
        ) == bytes,
{
    P::lemma_sizes();
    law_encode_decode_vector(bytes.take(384 * P::K), 12, P::K as nat);
    assert(bytes.take(384 * P::K) + bytes.skip(384 * P::K) =~= bytes);
}

/// Whether both values of twelve bits that three bytes hold are below `q`.
pub open spec fn is_triple_canonical(bytes: Seq<u8>, t: int) -> bool {
    &&& bytes[3 * t] + 256 * (bytes[3 * t + 1] % 16) < 3329
    &&& bytes[3 * t + 1] / 16 + 16 * bytes[3 * t + 2] < 3329
}

/// A triple of a component is a triple of the whole.
proof fn lemma_component_triple<P: ParameterSet>(bytes: Seq<u8>, i: int, j: int)
    requires
        bytes.len() == 384 * P::K + 32,
        0 <= i < P::K,
        0 <= j < 128,
    ensures
        ({
            let v = decode_vector(bytes.take(384 * P::K), 12, P::K as nat)[i];
            let t = 128 * i + j;
            &&& v.len() == 256
            &&& v[2 * j] == bytes[3 * t] + 256 * (bytes[3 * t + 1] % 16)
            &&& v[2 * j + 1] == bytes[3 * t + 1] / 16 + 16 * bytes[3 * t + 2]
        }),
{
    let front = bytes.take(384 * P::K);
    let part = front.subrange(384 * i, 384 * (i + 1));
    assert(block(front, 384, i) == part);
    law_decoded_pair(part, j);
    assert(part[3 * j] == bytes[384 * i + 3 * j]);
    assert(part[3 * j + 1] == bytes[384 * i + 3 * j + 1]);
    assert(part[3 * j + 2] == bytes[384 * i + 3 * j + 2]);
}

/// The values of a vector that is read from bytes are those that the bytes
/// hold, reduced modulo `q`.
pub proof fn law_key_vector<P: ParameterSet>(bytes: Seq<u8>, i: int, j: int)
    requires
        bytes.len() == 384 * P::K,
        0 <= i < P::K,
        0 <= j < 128,
    ensures
        ({
            let v = key_vector::<P>(bytes)[i];
            let t = 128 * i + j;
            &&& v.len() == 256
            &&& v[2 * j] == (bytes[3 * t] + 256 * (bytes[3 * t + 1] % 16)) % 3329
            &&& v[2 * j + 1] == (bytes[3 * t + 1] / 16 + 16 * bytes[3 * t + 2]) % 3329
        }),
{
    let whole = bytes + Seq::new(32, |n: int| 0u8);
    lemma_component_triple::<P>(whole, i, j);
    assert(whole.take(384 * P::K) =~= bytes);
}

/// Bytes hold an encapsulation key if and only if there are 384 of them for
/// each component and 32 more, and the values of twelve bits that the former
/// hold are all below `q`.
pub proof fn law_encapsulation_key_check<P: ParameterSet>(bytes: Seq<u8>)
    ensures
        is_encapsulation_key::<P>(bytes) <==> bytes.len() == 384 * P::K + 32 && forall|t: int|
            0 <= t < 128 * P::K ==> #[trigger] is_triple_canonical(bytes, t),
{
    P::lemma_sizes();
    if bytes.len() == 384 * P::K + 32 {
        let v = decode_vector(bytes.take(384 * P::K), 12, P::K as nat);
        if is_encapsulation_key::<P>(bytes) {
            assert forall|t: int| 0 <= t < 128 * P::K implies #[trigger] is_triple_canonical(
                bytes,
                t,
            ) by {
                let (i, j) = (t / 128, t % 128);
                lemma_component_triple::<P>(bytes, i, j);
                assert(is_poly(v[i]));
                assert(v[i][2 * j] < 3329 && v[i][2 * j + 1] < 3329);
            }
        }
        if forall|t: int| 0 <= t < 128 * P::K ==> #[trigger] is_triple_canonical(bytes, t) {
            assert forall|i: int| 0 <= i < v.len() implies is_poly(#[trigger] v[i]) by {
                assert forall|m: int| 0 <= m < 256 implies 0 <= #[trigger] v[i][m] < 3329 by {
                    lemma_component_triple::<P>(bytes, i, m / 2);
                    assert(is_triple_canonical(bytes, 128 * i + m / 2));
                    assert(m == 2 * (m / 2) || m == 2 * (m / 2) + 1);
                }
                lemma_component_triple::<P>(bytes, i, 0);
            }
        }
    }
}

/// Bytes hold a decapsulation key if and only if there are 768 of them for each
/// component and 96 more, and the hash in them is that of the bytes before it
/// that hold the encapsulation key.
pub proof fn law_decapsulation_key_check<P: ParameterSet>(bytes: Seq<u8>)
    ensures
        is_decapsulation_key::<P>(bytes) <==> bytes.len() == 768 * P::K + 96 && bytes.subrange(
            768 * P::K + 32,
            768 * P::K + 64,
        ) == sha3_256(bytes.subrange(384 * P::K, 768 * P::K + 32)),
{
    P::lemma_sizes();
}

/// The places of the parts of a decapsulation key.
pub proof fn law_decapsulation_key_layout<P: ParameterSet>(
    s_hat: Seq<Seq<int>>,
    t_hat: Seq<Seq<int>>,
    rho: Seq<u8>,
    h_ek: Seq<u8>,
    z: Seq<u8>,
)
    requires
        s_hat.len() == P::K,
        t_hat.len() == P::K,
        rho.len() == 32,
        h_ek.len() == 32,
        z.len() == 32,
    ensures
        ({
            let bytes = decapsulation_key_bytes(s_hat, t_hat, rho, h_ek, z);
            &&& bytes.len() == 768 * P::K + 96
            &&& bytes.subrange(0, 384 * P::K) == encode_vector(s_hat, 12)
            &&& bytes.subrange(384 * P::K, 768 * P::K) == encode_vector(t_hat, 12)
            &&& bytes.subrange(768 * P::K, 768 * P::K + 32) == rho
            &&& bytes.subrange(768 * P::K + 32, 768 * P::K + 64) == h_ek
            &&& bytes.subrange(768 * P::K + 64, 768 * P::K + 96) == z
        }),
{
    lemma_encoded_length(s_hat, 12);
    lemma_encoded_length(t_hat, 12);
    let bytes = decapsulation_key_bytes(s_hat, t_hat, rho, h_ek, z);
    assert(bytes.subrange(0, 384 * P::K) =~= encode_vector(s_hat, 12));
    assert(bytes.subrange(384 * P::K, 768 * P::K) =~= encode_vector(t_hat, 12));
    assert(bytes.subrange(768 * P::K, 768 * P::K + 32) =~= rho);
    assert(bytes.subrange(768 * P::K + 32, 768 * P::K + 64) =~= h_ek);
    assert(bytes.subrange(768 * P::K + 64, 768 * P::K + 96) =~= z);
}

/// The places of the parts of an encapsulation key.
pub proof fn law_encapsulation_key_layout<P: ParameterSet>(t_hat: Seq<Seq<int>>, rho: Seq<u8>)
    requires
        t_hat.len() == P::K,
        rho.len() == 32,
    ensures
        encryption_key_bytes(t_hat, rho).len() == 384 * P::K + 32,
        encryption_key_bytes(t_hat, rho).subrange(0, 384 * P::K) == encode_vector(t_hat, 12),
        encryption_key_bytes(t_hat, rho).subrange(384 * P::K, 384 * P::K + 32) == rho,
{
    lemma_encoded_length(t_hat, 12);
    let bytes = encryption_key_bytes(t_hat, rho);
    assert(bytes.subrange(0, 384 * P::K) =~= encode_vector(t_hat, 12));
    assert(bytes.subrange(384 * P::K, 384 * P::K + 32) =~= rho);
}

/// Keys with the same bytes have the same vectors, seeds and hashes.
pub proof fn law_decapsulation_key_injective<P: ParameterSet>(
    s_hat: Seq<Seq<int>>,
    t_hat: Seq<Seq<int>>,
    rho: Seq<u8>,
    h_ek: Seq<u8>,
    z: Seq<u8>,
    s_hat_2: Seq<Seq<int>>,
    t_hat_2: Seq<Seq<int>>,
    rho_2: Seq<u8>,
    h_ek_2: Seq<u8>,
    z_2: Seq<u8>,
)
    requires
        s_hat.len() == t_hat.len() == s_hat_2.len() == t_hat_2.len() == P::K,
        all_polys(s_hat),
        all_polys(t_hat),
        all_polys(s_hat_2),
        all_polys(t_hat_2),
        rho.len() == h_ek.len() == z.len() == rho_2.len() == h_ek_2.len() == z_2.len() == 32,
        decapsulation_key_bytes(s_hat, t_hat, rho, h_ek, z) == decapsulation_key_bytes(
            s_hat_2,
            t_hat_2,
            rho_2,
            h_ek_2,
            z_2,
        ),
    ensures
        s_hat == s_hat_2,
        t_hat == t_hat_2,
        rho == rho_2,
        h_ek == h_ek_2,
        z == z_2,
{
    law_decapsulation_key_round_trip::<P>(s_hat, t_hat, rho, h_ek, z);
    law_decapsulation_key_round_trip::<P>(s_hat_2, t_hat_2, rho_2, h_ek_2, z_2);
}

/// The rejection seed of a generated key is the second half of its seed.
pub proof fn law_rejection_seed<P: ParameterSet>(dk: DecapsulationKey<P>, seed: Seq<u8>)
    requires
        seed.len() == 64,
        dk.generated_from(seed),
    ensures
        dk.z() == seed.subrange(32, 64),
{
    assert(seed.skip(32) =~= seed.subrange(32, 64));
}

/// The bytes of a decapsulation key hold the key, and pass for one if and only
/// if the hash is that of the encapsulation key.
pub proof fn law_decapsulation_key_round_trip<P: ParameterSet>(
    s_hat: Seq<Seq<int>>,
    t_hat: Seq<Seq<int>>,
    rho: Seq<u8>,
    h_ek: Seq<u8>,
    z: Seq<u8>,
)
    requires
        s_hat.len() == P::K,
        t_hat.len() == P::K,
        all_polys(s_hat),
        all_polys(t_hat),
        rho.len() == 32,
        h_ek.len() == 32,
        z.len() == 32,
    ensures
        ({
            let bytes = decapsulation_key_bytes(s_hat, t_hat, rho, h_ek, z);
            &&& bytes.len() == P::DECAPS_KEY_SIZE
            &&& is_decapsulation_key::<P>(bytes) <==> h_ek == key_hash(t_hat, rho)
            &&& is_public_part_canonical::<P>(bytes)
            &&& key_vector::<P>(secret_part::<P>(bytes)) == s_hat
            &&& key_vector::<P>(public_part::<P>(bytes)) == t_hat
            &&& rho_part::<P>(bytes) == rho
            &&& hash_part::<P>(bytes) == h_ek
            &&& rejection_part::<P>(bytes) == z
        }),
{
    P::lemma_sizes();
    lemma_vector_round_trip(s_hat);
    lemma_vector_round_trip(t_hat);
    let bytes = decapsulation_key_bytes(s_hat, t_hat, rho, h_ek, z);
    assert(secret_part::<P>(bytes) =~= encode_vector(s_hat, 12));
    assert(public_part::<P>(bytes) =~= encode_vector(t_hat, 12));
    assert(rho_part::<P>(bytes) =~= rho);
    assert(encapsulation_part::<P>(bytes) =~= encryption_key_bytes(t_hat, rho));
    assert(hash_part::<P>(bytes) =~= h_ek);
    assert(rejection_part::<P>(bytes) =~= z);
}

/// Bytes that hold a decapsulation key of canonical residues are the bytes of
/// that key, and the hash in them is that of the encapsulation key.
pub proof fn law_decapsulation_key_bytes<P: ParameterSet>(bytes: Seq<u8>)
    requires
        is_decapsulation_key::<P>(bytes),
        all_polys(decode_vector(secret_part::<P>(bytes), 12, P::K as nat)),
        is_public_part_canonical::<P>(bytes),
    ensures
        hash_part::<P>(bytes) == key_hash(
            key_vector::<P>(public_part::<P>(bytes)),
            rho_part::<P>(bytes),
        ),
        decapsulation_key_bytes(
            key_vector::<P>(secret_part::<P>(bytes)),
            key_vector::<P>(public_part::<P>(bytes)),
            rho_part::<P>(bytes),
            hash_part::<P>(bytes),
            rejection_part::<P>(bytes),
        ) == bytes,
{
    P::lemma_sizes();
    let (s, t) = (secret_part::<P>(bytes), public_part::<P>(bytes));
    lemma_reduced(decode_vector(s, 12, P::K as nat));
    lemma_reduced(decode_vector(t, 12, P::K as nat));
    law_encode_decode_vector(s, 12, P::K as nat);
    law_encode_decode_vector(t, 12, P::K as nat);
    assert(t + rho_part::<P>(bytes) =~= encapsulation_part::<P>(bytes));
    assert(s + (t + rho_part::<P>(bytes)) + hash_part::<P>(bytes) + rejection_part::<P>(bytes)
        =~= bytes);
}

} // verus!
