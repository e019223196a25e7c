//! What the public-key encryption scheme computes, over residues and bytes.

use vstd::prelude::*;

use crate::algebraic::matrix::{mat_vec, transposed};
use crate::algebraic::ring::{inverse_ntt, poly_add, poly_sub, tq_dot};
use crate::algebraic::vector::{vec_add, vec_inverse_ntt, vec_ntt};
use crate::encoding::vectors::{
    compress_vector, decode_vector, decompress_vector, encode_vector, reduce_vector,
};
use crate::encoding::{
    compress_poly, decode_values, decompress_poly, encode_bytes, message_bytes, message_poly,
};
use crate::functions::{g_spec, xof_input};
use crate::parameters::ParameterSet;
use crate::sampling::noise::{noise_spec, noise_vector};
use crate::sampling::sample_ntt_spec;

verus! {

/// The public matrix of a seed: the entry of row `i` and column `j` is drawn
/// from the stream of the seed, `j` and `i`.
pub open spec fn matrix_spec(rho: Seq<u8>, k: nat) -> Seq<Seq<Seq<int>>> {
    Seq::new(
        k,
        |i: int| Seq::new(k, |j: int| sample_ntt_spec(xof_input(rho, j as u8, i as u8))),
    )
}

/// The seeds of the public matrix and of the noise of a key pair.
pub open spec fn key_seeds<P: ParameterSet>(d: Seq<u8>) -> (Seq<u8>, Seq<u8>) {
    g_spec(d.push(P::K as u8))
}

/// The secret vector of a key pair, in the standard domain.
pub open spec fn secret_spec<P: ParameterSet>(d: Seq<u8>) -> Seq<Seq<int>> {
    noise_vector(P::ETA_1, key_seeds::<P>(d).1, 0, P::K as nat)
}

/// The error vector of a key pair, in the standard domain.
pub open spec fn error_spec<P: ParameterSet>(d: Seq<u8>) -> Seq<Seq<int>> {
    noise_vector(P::ETA_1, key_seeds::<P>(d).1, P::K as int, P::K as nat)
}

/// The secret vector of a key pair.
pub open spec fn s_hat_spec<P: ParameterSet>(d: Seq<u8>) -> Seq<Seq<int>> {
    vec_ntt(secret_spec::<P>(d))
}

/// The public vector of a key pair.
pub open spec fn t_hat_spec<P: ParameterSet>(d: Seq<u8>) -> Seq<Seq<int>> {
    vec_add(
        mat_vec(matrix_spec(key_seeds::<P>(d).0, P::K as nat), s_hat_spec::<P>(d)),
        vec_ntt(error_spec::<P>(d)),
    )
}

/// The bytes of an encryption key: the public vector, then the matrix seed.
pub open spec fn encryption_key_bytes(t_hat: Seq<Seq<int>>, rho: Seq<u8>) -> Seq<u8> {
    encode_vector(t_hat, 12) + rho
}

/// The vector that 384 bytes per component hold.
pub open spec fn key_vector<P: ParameterSet>(bytes: Seq<u8>) -> Seq<Seq<int>> {
    reduce_vector(decode_vector(bytes, 12, P::K as nat))
}

/// The ephemeral secret vector of an encryption, in the standard domain.
pub open spec fn ephemeral_spec<P: ParameterSet>(randomness: Seq<u8>) -> Seq<Seq<int>> {
    noise_vector(P::ETA_1, randomness, 0, P::K as nat)
}

/// The error of the vector part of a ciphertext.
pub open spec fn error_u_spec<P: ParameterSet>(randomness: Seq<u8>) -> Seq<Seq<int>> {
    noise_vector(P::ETA_2, randomness, P::K as int, P::K as nat)
}

/// The error of the last part of a ciphertext.
pub open spec fn error_v_spec<P: ParameterSet>(randomness: Seq<u8>) -> Seq<int> {
    noise_spec(P::ETA_2, randomness, 2 * P::K as int)
}

/// The vector part of a ciphertext before compression.
pub open spec fn u_spec<P: ParameterSet>(rho: Seq<u8>, randomness: Seq<u8>) -> Seq<Seq<int>> {
    let y_hat = vec_ntt(ephemeral_spec::<P>(randomness));
    vec_add(
        vec_inverse_ntt(mat_vec(transposed(matrix_spec(rho, P::K as nat)), y_hat)),
        error_u_spec::<P>(randomness),
    )
}

/// The last part of a ciphertext before compression.
pub open spec fn v_spec<P: ParameterSet>(
    t_hat: Seq<Seq<int>>,
    message: Seq<u8>,
    randomness: Seq<u8>,
) -> Seq<int> {
    let y_hat = vec_ntt(ephemeral_spec::<P>(randomness));
    poly_add(
        poly_add(inverse_ntt(tq_dot(t_hat, y_hat, P::K as nat)), error_v_spec::<P>(randomness)),
        message_poly(message),
    )
}

/// The bytes of a ciphertext: both parts, compressed.
pub open spec fn ciphertext_bytes<P: ParameterSet>(u: Seq<Seq<int>>, v: Seq<int>) -> Seq<u8> {
    encode_vector(compress_vector(u, P::D_U as nat), P::D_U as nat) + encode_bytes(
        compress_poly(v, P::D_V as nat),
        P::D_V as nat,
    )
}

/// The ciphertext of a message.
pub open spec fn encrypt_spec<P: ParameterSet>(
    t_hat: Seq<Seq<int>>,
    rho: Seq<u8>,
    message: Seq<u8>,
    randomness: Seq<u8>,
) -> Seq<u8> {
    ciphertext_bytes::<P>(
        u_spec::<P>(rho, randomness),
        v_spec::<P>(t_hat, message, randomness),
    )
}

/// The vector part that a ciphertext stands for.
pub open spec fn received_u<P: ParameterSet>(ciphertext: Seq<u8>) -> Seq<Seq<int>> {
    decompress_vector(
        decode_vector(
            ciphertext.subrange(0, 32 * P::D_U * P::K),
            P::D_U as nat,
            P::K as nat,
        ),
        P::D_U as nat,
    )
}

/// The last part that a ciphertext stands for.
pub open spec fn received_v<P: ParameterSet>(ciphertext: Seq<u8>) -> Seq<int> {
    decompress_poly(
        decode_values(
            ciphertext.subrange(32 * P::D_U * P::K, ciphertext.len() as int),
            P::D_V as nat,
        ),
        P::D_V as nat,
    )
}

/// What is left of a ciphertext when the secret part has been taken off: the
/// message polynomial and some noise.
pub open spec fn noisy_message<P: ParameterSet>(
    s_hat: Seq<Seq<int>>,
    ciphertext: Seq<u8>,
) -> Seq<int> {
    poly_sub(
        received_v::<P>(ciphertext),
        inverse_ntt(tq_dot(vec_ntt(received_u::<P>(ciphertext)), s_hat, P::K as nat)),
    )
}

/// The message of a ciphertext.
pub open spec fn decrypt_spec<P: ParameterSet>(
    s_hat: Seq<Seq<int>>,
    ciphertext: Seq<u8>,
) -> Seq<u8> {
    message_bytes(noisy_message::<P>(s_hat, ciphertext))
}

} // verus!
