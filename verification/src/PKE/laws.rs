//! When decryption recovers the message that was encrypted.

use vstd::arithmetic::power2::{lemma2_to64, pow2};
use vstd::prelude::*;

use super::lemma_ciphertext_sizes;
use super::scheme::{
    ciphertext_bytes, decrypt_spec, encrypt_spec, ephemeral_spec, error_spec, error_u_spec,
    error_v_spec, key_seeds, matrix_spec, noisy_message, received_u, received_v, s_hat_spec,
    secret_spec, t_hat_spec, u_spec, v_spec,
};
use crate::algebraic::field::{compress_spec, decompress_spec};
use crate::algebraic::laws::{
    law_add_associates, law_dot_commutes, law_inverse_ntt, law_key_agreement, law_ntt_dot, rq_dot,
};
use crate::algebraic::matrix::{mat_vec, transposed};
use crate::algebraic::modular::{
    lemma_residue_add, lemma_residue_sub, lemma_round_div_unique, residue, round_div,
};
use crate::algebraic::ring::{
    inverse_ntt, lemma_inverse_ntt, lemma_ntt_add, poly_add, poly_sub, tq_dot,
};
use crate::algebraic::transform::{is_poly, ntt_spec};
use crate::algebraic::vector::{vec_add, vec_inverse_ntt, vec_ntt};
use crate::encoding::bits::fits;
use crate::encoding::vectors::{
    all_polys, block, compress_vector, decompress_vector, encode_vector, law_decode_encode_vector,
    lemma_encoded_length,
};
use crate::encoding::{
    compress_poly, decode_values, decompress_poly, encode_bytes, law_decode_encode,
    law_decompress_compress, law_encode_decode, law_encoded_bits, lemma_compress_range,
    lemma_decode_range, message_bytes, message_poly, near_zero,
};
use crate::functions::{prf_spec, sha3_512, xof_input};
use crate::parameters::ParameterSet;
use crate::sampling::binomial::cbd_spec;
use crate::sampling::laws::law_sample_range;
use crate::sampling::sample_ntt_spec;

verus! {

/// What compression to `d` bits changes about an element.
pub open spec fn compression_error(f: Seq<int>, d: nat) -> Seq<int> {
    poly_sub(decompress_poly(compress_poly(f, d), d), f)
}

/// Compression to up to eleven bits changes a coefficient by at most the
/// integer nearest to `q / 2^(d + 1)`.
pub proof fn law_compression_error(f: Seq<int>, d: nat, i: int)
    requires
        is_poly(f),
        1 <= d <= 11,
        0 <= i < 256,
    ensures
        near_zero(compression_error(f, d)[i], round_div(3329, pow2(d + 1) as int)),
{
    law_decompress_compress(f[i], d);
}

/// What compression to `d` bits changes about the components of a vector.
pub open spec fn vec_compression_error(v: Seq<Seq<int>>, d: nat) -> Seq<Seq<int>> {
    Seq::new(v.len(), |i: int| compression_error(v[i], d))
}

/// The noise with which decryption finds a message: the errors of the key pair
/// and of the encryption times the secrets of the other side, and what
/// compression has changed.
pub open spec fn decryption_noise<P: ParameterSet>(
    d: Seq<u8>,
    message: Seq<u8>,
    randomness: Seq<u8>,
) -> Seq<int> {
    let k = P::K as nat;
    let u = u_spec::<P>(key_seeds::<P>(d).0, randomness);
    let v = v_spec::<P>(t_hat_spec::<P>(d), message, randomness);
    let errors_u = vec_add(
        error_u_spec::<P>(randomness),
        vec_compression_error(u, P::D_U as nat),
    );
    poly_sub(
        poly_add(
            poly_add(
                rq_dot(error_spec::<P>(d), ephemeral_spec::<P>(randomness), k),
                error_v_spec::<P>(randomness),
            ),
            compression_error(v, P::D_V as nat),
        ),
        rq_dot(secret_spec::<P>(d), errors_u, k),
    )
}

/// Whether a message bit survives noise: the noise moves the coefficient by
/// less than a quarter of `q`.
pub open spec fn tolerated(noise: int, bit: int) -> bool {
    ||| 0 <= noise <= 832 - bit
    ||| 2497 <= noise < 3329
}

/// Whether every bit of a message survives noise.
pub open spec fn message_survives(message: Seq<u8>, noise: Seq<int>) -> bool {
    forall|i: int|
        0 <= i < 256 ==> tolerated(#[trigger] noise[i], decode_values(message, 1)[i])
}

/// Compressed elements fit their width.
proof fn lemma_compressed_fits(f: Seq<int>, d: nat)
    ensures
        fits(compress_poly(f, d), d, 256),
{
    assert forall|i: int| 0 <= i < 256 implies 0 <= #[trigger] compress_poly(f, d)[i] < pow2(d) by {
        lemma_compress_range(f[i], d);
    }
}

/// What a ciphertext stands for is what was compressed.
proof fn lemma_received<P: ParameterSet>(u: Seq<Seq<int>>, v: Seq<int>)
    requires
        u.len() == P::K,
    ensures
        received_u::<P>(ciphertext_bytes::<P>(u, v)) == decompress_vector(
            compress_vector(u, P::D_U as nat),
            P::D_U as nat,
        ),
        received_v::<P>(ciphertext_bytes::<P>(u, v)) == decompress_poly(
            compress_poly(v, P::D_V as nat),
            P::D_V as nat,
        ),
{
    P::lemma_sizes();
    lemma_ciphertext_sizes::<P>();
    let (du, dv) = (P::D_U as nat, P::D_V as nat);
    let c = ciphertext_bytes::<P>(u, v);
    let cu = compress_vector(u, du);
    let cv = compress_poly(v, dv);
    lemma_encoded_length(cu, du);
    assert(c.subrange(0, 32 * P::D_U * P::K) =~= encode_vector(cu, du));
    assert(c.subrange(32 * P::D_U * P::K, c.len() as int) =~= encode_bytes(cv, dv));
    assert forall|i: int| 0 <= i < cu.len() implies (#[trigger] cu[i]).len() == 256 && fits(
        cu[i],
        du,
        256,
    ) by {
        lemma_compressed_fits(u[i], du);
    }
    law_decode_encode_vector(cu, du);
    lemma_compressed_fits(v, dv);
    law_decode_encode(cv, dv);
}

/// A decompressed element is the element plus what compression has changed.
proof fn lemma_compression_error(f: Seq<int>, d: nat)
    requires
        is_poly(f),
    ensures
        decompress_poly(compress_poly(f, d), d) == poly_add(f, compression_error(f, d)),
{
    let r = decompress_poly(compress_poly(f, d), d);
    assert forall|m: int| 0 <= m < 256 implies #[trigger] r[m] == poly_add(
        f,
        compression_error(f, d),
    )[m] by {
        lemma_residue_add(f[m], f[m], residue(r[m] - f[m]), r[m] - f[m]);
        assert(0 <= r[m] < 3329);
    }
    assert(r =~= poly_add(f, compression_error(f, d)));
}

/// The transform of the received vector part: the masked ephemeral secret and
/// the transform of the errors.
proof fn lemma_received_transform<P: ParameterSet>(rho: Seq<u8>, randomness: Seq<u8>)
    ensures
        ({
            let u = u_spec::<P>(rho, randomness);
            let y_hat = vec_ntt(ephemeral_spec::<P>(randomness));
            let errors = vec_add(
                error_u_spec::<P>(randomness),
                vec_compression_error(u, P::D_U as nat),
            );
            vec_ntt(decompress_vector(compress_vector(u, P::D_U as nat), P::D_U as nat)) == vec_add(
                mat_vec(transposed(matrix_spec(rho, P::K as nat)), y_hat),
                vec_ntt(errors),
            )
        }),
{
    let d = P::D_U as nat;
    let u = u_spec::<P>(rho, randomness);
    let y_hat = vec_ntt(ephemeral_spec::<P>(randomness));
    let e = error_u_spec::<P>(randomness);
    let c = vec_compression_error(u, d);
    let w = mat_vec(transposed(matrix_spec(rho, P::K as nat)), y_hat);
    let left = vec_ntt(decompress_vector(compress_vector(u, d), d));
    let right = vec_add(w, vec_ntt(vec_add(e, c)));
    assert forall|i: int| 0 <= i < P::K implies #[trigger] left[i] == right[i] by {
        let x = inverse_ntt(w[i]);
        law_inverse_ntt(w[i]);
        assert(u[i] == poly_add(x, e[i]));
        lemma_compression_error(u[i], d);
        law_add_associates(x, e[i], c[i]);
        lemma_ntt_add(x, poly_add(e[i], c[i]));
    }
    assert(left =~= right);
}

/// One coefficient of what decryption finds.
proof fn lemma_noise_coefficient(
    x: int,
    y: int,
    p: int,
    q: int,
    e: int,
    mu: int,
    c: int,
)
    requires
        residue(x - y) == residue(p - q),
    ensures
        residue(residue(residue(residue(x + e) + mu) + c) - y) == residue(
            mu + residue(residue(residue(p + e) + c) - q),
        ),
{
    lemma_residue_add(residue(x + e), x + e, mu, mu);
    lemma_residue_add(residue(residue(x + e) + mu), x + e + mu, c, c);
    lemma_residue_sub(residue(residue(residue(x + e) + mu) + c), x + e + mu + c, y, y);
    lemma_residue_add(residue(p + e), p + e, c, c);
    lemma_residue_sub(residue(residue(p + e) + c), p + e + c, q, q);
    lemma_residue_add(mu, mu, residue(residue(residue(p + e) + c) - q), p + e + c - q);
    lemma_residue_add(x - y, p - q, e + mu + c, e + mu + c);
}

/// Decryption finds the message polynomial plus the noise.
pub proof fn law_noisy_message<P: ParameterSet>(
    d: Seq<u8>,
    message: Seq<u8>,
    randomness: Seq<u8>,
)
    ensures
        noisy_message::<P>(
            s_hat_spec::<P>(d),
            encrypt_spec::<P>(t_hat_spec::<P>(d), key_seeds::<P>(d).0, message, randomness),
        ) == poly_add(message_poly(message), decryption_noise::<P>(d, message, randomness)),
{
    let k = P::K as nat;
    let rho = key_seeds::<P>(d).0;
    let (s, e) = (secret_spec::<P>(d), error_spec::<P>(d));
    let y = ephemeral_spec::<P>(randomness);
    let u = u_spec::<P>(rho, randomness);
    let v = v_spec::<P>(t_hat_spec::<P>(d), message, randomness);
    let c = ciphertext_bytes::<P>(u, v);
    let errors = vec_add(
        error_u_spec::<P>(randomness),
        vec_compression_error(u, P::D_U as nat),
    );
    let a = matrix_spec(rho, k);
    lemma_received::<P>(u, v);
    lemma_received_transform::<P>(rho, randomness);
    lemma_compression_error(v, P::D_V as nat);
    law_key_agreement(a, s, e, y, errors);
    let xs = inverse_ntt(tq_dot(t_hat_spec::<P>(d), vec_ntt(y), k));
    let ys = inverse_ntt(tq_dot(vec_ntt(received_u::<P>(c)), s_hat_spec::<P>(d), k));
    let (ps, qs) = (rq_dot(e, y, k), rq_dot(s, errors, k));
    let es = error_v_spec::<P>(randomness);
    let mus = message_poly(message);
    let cs = compression_error(v, P::D_V as nat);
    let left = noisy_message::<P>(s_hat_spec::<P>(d), c);
    let right = poly_add(mus, decryption_noise::<P>(d, message, randomness));
    assert(poly_sub(xs, ys) == poly_sub(ps, qs));
    assert forall|m: int| 0 <= m < 256 implies #[trigger] left[m] == right[m] by {
        assert(poly_sub(xs, ys)[m] == poly_sub(ps, qs)[m]);
        lemma_noise_coefficient(xs[m], ys[m], ps[m], qs[m], es[m], mus[m], cs[m]);
    }
    assert(left =~= right);
}

/// The bit that a residue compresses to.
proof fn lemma_compressed_bit(x: int)
    requires
        0 <= x < 3329,
    ensures
        compress_spec(x, 1) == if 833 <= x <= 2496 {
            1int
        } else {
            0
        },
{
    lemma2_to64();
    let r = if x <= 832 {
        0
    } else if x <= 2496 {
        1int
    } else {
        2
    };
    lemma_round_div_unique(2 * x, 3329, r);
}

/// The residue that a bit decompresses to.
proof fn lemma_decompressed_bit(b: int)
    requires
        b == 0 || b == 1,
    ensures
        decompress_spec(b, 1) == 1665 * b,
{
    lemma2_to64();
    lemma_round_div_unique(3329 * b, 2, 1665 * b);
}

/// A message bit is found again if and only if the noise is tolerated.
proof fn lemma_bit_survives(b: int, noise: int)
    requires
        b == 0 || b == 1,
        0 <= noise < 3329,
    ensures
        compress_spec(residue(decompress_spec(b, 1) + noise), 1) == b <==> tolerated(noise, b),
{
    lemma_decompressed_bit(b);
    let x = residue(1665 * b + noise);
    lemma_compressed_bit(x);
}

/// Encoded lists of values that fit are equal only if the values are.
proof fn lemma_encode_injective(f: Seq<int>, g: Seq<int>, d: nat)
    requires
        f.len() == 256,
        g.len() == 256,
        fits(f, d, 256),
        fits(g, d, 256),
        encode_bytes(f, d) == encode_bytes(g, d),
    ensures
        f == g,
{
    law_decode_encode(f, d);
    law_decode_encode(g, d);
}

/// A message polynomial with noise yields the message if and only if every bit
/// survives.
proof fn lemma_message_survives(message: Seq<u8>, noise: Seq<int>)
    requires
        message.len() == 32,
        is_poly(noise),
    ensures
        message_bytes(poly_add(message_poly(message), noise)) == message <==> message_survives(
            message,
            noise,
        ),
{
    lemma2_to64();
    let bits = decode_values(message, 1);
    let found = compress_poly(poly_add(message_poly(message), noise), 1);
    law_encode_decode(message, 1);
    lemma_compressed_fits(poly_add(message_poly(message), noise), 1);
    assert forall|i: int| 0 <= i < 256 implies (#[trigger] found[i] == bits[i] <==> tolerated(
        noise[i],
        bits[i],
    )) && 0 <= bits[i] < pow2(1) by {
        lemma_decode_range(message, 1, i);
        assert(0 <= noise[i] < 3329);
        lemma_bit_survives(bits[i], noise[i]);
    }
    if message_bytes(poly_add(message_poly(message), noise)) == message {
        assert(fits(bits, 1, 256));
        lemma_encode_injective(found, bits, 1);
        assert forall|i: int| 0 <= i < 256 implies tolerated(#[trigger] noise[i], bits[i]) by {
            assert(found[i] == bits[i]);
        }
    }
    if message_survives(message, noise) {
        assert forall|i: int| 0 <= i < 256 implies found[i] == bits[i] by {
            assert(tolerated(noise[i], bits[i]));
        }
        assert(found =~= bits);
    }
}

/// Decryption recovers the message that was encrypted if and only if every bit
/// of the message survives the noise.
pub proof fn law_decrypt_encrypt<P: ParameterSet>(
    d: Seq<u8>,
    message: Seq<u8>,
    randomness: Seq<u8>,
)
    requires
        message.len() == 32,
    ensures
        decrypt_spec::<P>(
            s_hat_spec::<P>(d),
            encrypt_spec::<P>(t_hat_spec::<P>(d), key_seeds::<P>(d).0, message, randomness),
        ) == message <==> message_survives(
            message,
            decryption_noise::<P>(d, message, randomness),
        ),
{
    law_noisy_message::<P>(d, message, randomness);
    lemma_message_survives(message, decryption_noise::<P>(d, message, randomness));
}

/// The two halves of the digest of the seed and the dimension are the seed of
/// the matrix and the seed of the noise, and the entry of row `i` and column
/// `j` of the matrix is drawn from the stream of the former, `j` and `i`.
pub proof fn law_matrix<P: ParameterSet>(d: Seq<u8>, i: int, j: int)
    requires
        0 <= i < P::K,
        0 <= j < P::K,
    ensures
        ({
            let digest = sha3_512(d.push(P::K as u8));
            let rho = digest.subrange(0, 32);
            &&& key_seeds::<P>(d).0 == rho
            &&& key_seeds::<P>(d).1 == digest.subrange(32, 64)
            &&& matrix_spec(rho, P::K as nat)[i][j] == sample_ntt_spec(
                rho.push(j as u8).push(i as u8),
            )
        }),
{
}

/// The secrets and the errors of a key pair are the binomial samples of the
/// streams of the second seed, the secrets first.
pub proof fn law_key_noise<P: ParameterSet>(d: Seq<u8>, i: int)
    requires
        0 <= i < P::K,
    ensures
        ({
            let sigma = sha3_512(d.push(P::K as u8)).subrange(32, 64);
            &&& secret_spec::<P>(d).len() == P::K
            &&& error_spec::<P>(d).len() == P::K
            &&& secret_spec::<P>(d)[i] == cbd_spec(P::ETA_1, prf_spec(P::ETA_1, sigma, i as u8))
            &&& error_spec::<P>(d)[i] == cbd_spec(
                P::ETA_1,
                prf_spec(P::ETA_1, sigma, (P::K + i) as u8),
            )
        }),
{
    P::lemma_sizes();
}

/// The secrets and the errors of an encryption are the binomial samples of the
/// streams of the randomness: the secrets, the errors of the vector part, and
/// the error of the last part.
pub proof fn law_encryption_noise<P: ParameterSet>(randomness: Seq<u8>, i: int)
    requires
        0 <= i < P::K,
    ensures
        ephemeral_spec::<P>(randomness).len() == P::K,
        error_u_spec::<P>(randomness).len() == P::K,
        ephemeral_spec::<P>(randomness)[i] == cbd_spec(
            P::ETA_1,
            prf_spec(P::ETA_1, randomness, i as u8),
        ),
        error_u_spec::<P>(randomness)[i] == cbd_spec(
            P::ETA_2,
            prf_spec(P::ETA_2, randomness, (P::K + i) as u8),
        ),
        error_v_spec::<P>(randomness) == cbd_spec(
            P::ETA_2,
            prf_spec(P::ETA_2, randomness, (2 * P::K) as u8),
        ),
{
    P::lemma_sizes();
}

/// A dot product in the transform domain with a transformed vector is a dot
/// product of polynomials.
proof fn lemma_inverse_dot(f: Seq<Seq<int>>, g: Seq<Seq<int>>, k: nat)
    requires
        f.len() == k,
        g.len() == k,
        all_polys(f),
    ensures
        tq_dot(f, vec_ntt(g), k) == ntt_spec(rq_dot(vec_inverse_ntt(f), g, k)),
        is_poly(rq_dot(vec_inverse_ntt(f), g, k)),
        inverse_ntt(tq_dot(f, vec_ntt(g), k)) == rq_dot(vec_inverse_ntt(f), g, k),
{
    let h = vec_inverse_ntt(f);
    assert forall|i: int| 0 <= i < k implies vec_ntt(h)[i] == f[i] by {
        assert(is_poly(f[i]));
        law_inverse_ntt(f[i]);
    }
    assert(vec_ntt(h) =~= f);
    law_ntt_dot(h, g, k);
    lemma_inverse_ntt(rq_dot(h, g, k));
}

/// A row of the matrix, or a column, holds canonical residues.
proof fn lemma_matrix_polys(rho: Seq<u8>, k: nat, i: int)
    requires
        0 <= i < k,
    ensures
        all_polys(matrix_spec(rho, k)[i]),
        all_polys(transposed(matrix_spec(rho, k))[i]),
        matrix_spec(rho, k)[i].len() == k,
        transposed(matrix_spec(rho, k))[i].len() == k,
{
    assert forall|j: int| 0 <= j < k implies is_poly(#[trigger] matrix_spec(rho, k)[i][j])
        && is_poly(transposed(matrix_spec(rho, k))[i][j]) by {
        law_sample_range(xof_input(rho, j as u8, i as u8));
        law_sample_range(xof_input(rho, i as u8, j as u8));
    }
    assert forall|j: int| 0 <= j < k implies is_poly(
        #[trigger] transposed(matrix_spec(rho, k))[i][j],
    ) by {
        assert(is_poly(matrix_spec(rho, k)[i][j]));
    }
}

/// As polynomials, the public vector is the matrix times the secret vector,
/// plus the error vector.
pub proof fn law_public_vector<P: ParameterSet>(d: Seq<u8>, i: int)
    requires
        0 <= i < P::K,
    ensures
        t_hat_spec::<P>(d).len() == P::K,
        inverse_ntt(t_hat_spec::<P>(d)[i]) == poly_add(
            rq_dot(
                vec_inverse_ntt(matrix_spec(key_seeds::<P>(d).0, P::K as nat)[i]),
                secret_spec::<P>(d),
                P::K as nat,
            ),
            error_spec::<P>(d)[i],
        ),
        inverse_ntt(s_hat_spec::<P>(d)[i]) == secret_spec::<P>(d)[i],
{
    let k = P::K as nat;
    let row = matrix_spec(key_seeds::<P>(d).0, k)[i];
    let (s, e) = (secret_spec::<P>(d), error_spec::<P>(d));
    lemma_matrix_polys(key_seeds::<P>(d).0, k, i);
    lemma_inverse_dot(row, s, k);
    let x = rq_dot(vec_inverse_ntt(row), s, k);
    lemma_ntt_add(x, e[i]);
    lemma_inverse_ntt(poly_add(x, e[i]));
    lemma_inverse_ntt(s[i]);
}

/// As polynomials, the vector part of a ciphertext is the transposed matrix
/// times the ephemeral secret, plus an error.
pub proof fn law_vector_part<P: ParameterSet>(rho: Seq<u8>, randomness: Seq<u8>, i: int)
    requires
        0 <= i < P::K,
    ensures
        u_spec::<P>(rho, randomness).len() == P::K,
        u_spec::<P>(rho, randomness)[i] == poly_add(
            rq_dot(
                vec_inverse_ntt(
                    Seq::new(P::K as nat, |j: int| matrix_spec(rho, P::K as nat)[j][i]),
                ),
                ephemeral_spec::<P>(randomness),
                P::K as nat,
            ),
            error_u_spec::<P>(randomness)[i],
        ),
{
    let k = P::K as nat;
    let column = transposed(matrix_spec(rho, k))[i];
    lemma_matrix_polys(rho, k, i);
    assert(column =~= Seq::new(k, |j: int| matrix_spec(rho, k)[j][i]));
    lemma_inverse_dot(column, ephemeral_spec::<P>(randomness), k);
}

/// As polynomials, the last part of a ciphertext is the public vector times the
/// ephemeral secret, plus an error and the message.
pub proof fn law_last_part<P: ParameterSet>(
    t_hat: Seq<Seq<int>>,
    message: Seq<u8>,
    randomness: Seq<u8>,
)
    requires
        t_hat.len() == P::K,
        all_polys(t_hat),
    ensures
        v_spec::<P>(t_hat, message, randomness) == poly_add(
            poly_add(
                rq_dot(vec_inverse_ntt(t_hat), ephemeral_spec::<P>(randomness), P::K as nat),
                error_v_spec::<P>(randomness),
            ),
            message_poly(message),
        ),
{
    lemma_inverse_dot(t_hat, ephemeral_spec::<P>(randomness), P::K as nat);
}

/// The places of the parts of a ciphertext, compressed and encoded.
pub proof fn law_ciphertext_layout<P: ParameterSet>(
    t_hat: Seq<Seq<int>>,
    rho: Seq<u8>,
    message: Seq<u8>,
    randomness: Seq<u8>,
)
    ensures
        ({
            let c = encrypt_spec::<P>(t_hat, rho, message, randomness);
            let (du, dv) = (P::D_U as nat, P::D_V as nat);
            let n = 32 * (P::D_U * P::K);
            &&& c.len() == 32 * (P::D_U * P::K + P::D_V)
            &&& c.subrange(0, n) == encode_vector(
                compress_vector(u_spec::<P>(rho, randomness), du),
                du,
            )
            &&& c.subrange(n, c.len() as int) == encode_bytes(
                compress_poly(v_spec::<P>(t_hat, message, randomness), dv),
                dv,
            )
        }),
{
    P::lemma_sizes();
    lemma_ciphertext_sizes::<P>();
    let (du, dv) = (P::D_U as nat, P::D_V as nat);
    let c = encrypt_spec::<P>(t_hat, rho, message, randomness);
    let cu = compress_vector(u_spec::<P>(rho, randomness), du);
    lemma_encoded_length(cu, du);
    let n = 32 * (P::D_U * P::K);
    assert(c.subrange(0, n) =~= encode_vector(cu, du));
    assert(c.subrange(n, c.len() as int) =~= encode_bytes(
        compress_poly(v_spec::<P>(t_hat, message, randomness), dv),
        dv,
    ));
}

/// Every coefficient that a ciphertext stands for is decompressed from the bits
/// at its place.
pub proof fn law_received<P: ParameterSet>(ciphertext: Seq<u8>, i: int, m: int)
    requires
        ciphertext.len() == 32 * (P::D_U * P::K + P::D_V),
        0 <= i < P::K,
        0 <= m < 256,
    ensures
        ({
            let (du, dv) = (P::D_U as nat, P::D_V as nat);
            let part = ciphertext.subrange(32 * du * i, 32 * du * (i + 1));
            let last = ciphertext.subrange(32 * (P::D_U * P::K), ciphertext.len() as int);
            &&& received_u::<P>(ciphertext).len() == P::K
            &&& received_u::<P>(ciphertext)[i][m] == decompress_spec(
                decode_values(part, du)[m],
                du,
            )
            &&& received_v::<P>(ciphertext)[m] == decompress_spec(decode_values(last, dv)[m], dv)
        }),
{
    let du = P::D_U as nat;
    let k = P::K as int;
    assert(32 * du * k == 32 * (du * k)) by (nonlinear_arith);
    assert(0 <= 32 * du * i <= 32 * du * (i + 1) <= 32 * du * k) by (nonlinear_arith)
        requires
            0 <= i < k,
    ;
    let front = ciphertext.subrange(0, 32 * P::D_U * P::K);
    let part = ciphertext.subrange(32 * du * i, 32 * du * (i + 1));
    assert(front.subrange(32 * du * i, 32 * du * (i + 1)) =~= part);
    assert(block(front, 32 * du, i) == part);
}

/// As polynomials, decryption takes the vector part times the secret vector off
/// the last part, and reads the nearer bit of every coefficient.
pub proof fn law_decryption<P: ParameterSet>(s: Seq<Seq<int>>, ciphertext: Seq<u8>, i: int)
    requires
        s.len() == P::K,
        all_polys(s),
        0 <= i < 256,
    ensures
        ({
            let u = received_u::<P>(ciphertext);
            let w = poly_sub(received_v::<P>(ciphertext), rq_dot(s, u, P::K as nat));
            let m = decrypt_spec::<P>(vec_ntt(s), ciphertext);
            &&& m.len() == 32
            &&& (m[i / 8] as int / (pow2((i % 8) as nat) as int)) % 2 == if 833 <= w[i] <= 2496 {
                1int
            } else {
                0int
            }
        }),
{
    lemma2_to64();
    let k = P::K as nat;
    let u = received_u::<P>(ciphertext);
    law_dot_commutes(vec_ntt(u), vec_ntt(s), k);
    let f = vec_ntt(s);
    law_ntt_dot(s, u, k);
    lemma_inverse_ntt(rq_dot(s, u, k));
    let w = poly_sub(received_v::<P>(ciphertext), rq_dot(s, u, k));
    assert(noisy_message::<P>(f, ciphertext) == w);
    lemma_compressed_fits(w, 1);
    law_encoded_bits(compress_poly(w, 1), 1, i);
    lemma_compressed_bit(w[i]);
    let bits = compress_poly(w, 1);
    assert(i / 1 == i && i % 1 == 0 && pow2(0) == 1);
    assert(bits[i] == compress_spec(w[i], 1));
    if 833 <= w[i] <= 2496 {
        assert(bits[i] == 1);
        assert((1int / 1) % 2 == 1);
    } else {
        assert(bits[i] == 0);
        assert((0int / 1) % 2 == 0);
    }
}

} // verus!
