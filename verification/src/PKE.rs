//! The public-key encryption scheme on which the key encapsulation mechanism
//! is built.
//!
//! The scheme itself is described by the functions of [`scheme`]; the types of
//! this module compute them.

pub mod laws;
pub mod scheme;

use core::marker::PhantomData;

use vstd::arithmetic::div_mod::lemma_fundamental_div_mod_converse;
use vstd::prelude::*;
use vstd::slice::slice_subrange;

use self::scheme::{
    ciphertext_bytes, decrypt_spec, encrypt_spec, encryption_key_bytes, key_seeds, key_vector,
    matrix_spec, s_hat_spec, t_hat_spec,
};
use crate::algebraic::kernels::{MUL_BOUND, NTT_BOUND, NTT_INVERSE_BOUND};
use crate::algebraic::matrix::{mat_vec, transposed};
use crate::algebraic::modular::{mont_r, mont_r_inverse};
use crate::algebraic::poly::{addable, subtractable};
use crate::algebraic::ring::{lemma_scale_round_trip, poly_scale, tq_dot};
use crate::algebraic::transform::is_poly;
use crate::algebraic::vector::{
    lemma_bounded_addable, lemma_small_sum, rq_addable, tq_addable, vec_scale, vec_zero,
};
use crate::algebraic::{
    CachedTqVector, PolynomialRingElement, RqElement, RqVector, TqElement, TqMatrix, TqVector,
};
use crate::bytes::array_32;
use crate::constant_time::equal_bytes;
use crate::encoding::vectors::{all_polys, encode_vector};
use crate::functions::{xof_input, G};
use crate::parameters::ParameterSet;
use crate::sampling::noise::CbdSampler;
use crate::sampling::sample_ntt_spec;
use crate::wipe::wipe_bytes;

verus! {

/// A dot product is a list of canonical residues.
pub proof fn lemma_dot_is_poly(f: Seq<Seq<int>>, g: Seq<Seq<int>>, count: nat)
    ensures
        is_poly(tq_dot(f, g, count)),
{
}

/// The inverse transform undoes the scaling of a dot product.
proof fn lemma_unscaled_dot(f: Seq<Seq<int>>, g: Seq<Seq<int>>, count: nat)
    ensures
        poly_scale(mont_r(), poly_scale(mont_r_inverse(), tq_dot(f, g, count))) == tq_dot(
            f,
            g,
            count,
        ),
{
    lemma_dot_is_poly(f, g, count);
    lemma_scale_round_trip(tq_dot(f, g, count));
}

/// Scaling by `R` undoes the scaling of a product of a matrix and a vector.
proof fn lemma_unscaled_product(a: Seq<Seq<Seq<int>>>, v: Seq<Seq<int>>)
    ensures
        vec_scale(mont_r(), vec_scale(mont_r_inverse(), mat_vec(a, v))) == mat_vec(a, v),
{
    let r = vec_scale(mont_r(), vec_scale(mont_r_inverse(), mat_vec(a, v)));
    assert forall|i: int| 0 <= i < a.len() implies r[i] == mat_vec(a, v)[i] by {
        lemma_unscaled_dot(a[i], v, v.len());
    }
    assert(r =~= mat_vec(a, v));
}

/// The sizes of the parts of a ciphertext.
pub proof fn lemma_ciphertext_sizes<P: ParameterSet>()
    ensures
        32 * P::D_U * P::K == (32 * P::D_U) * P::K,
        0 <= 32 * P::D_U * P::K <= 1408,
        P::CIPHERTEXT_SIZE == 32 * P::D_U * P::K + 32 * P::D_V,
        P::CIPHERTEXT_SIZE % 8 == 0,
{
    P::lemma_sizes();
    let (d, k) = (P::D_U as int, P::K as int);
    assert(32 * d * k == (32 * d) * k);
    assert(32 * (d * k) == 32 * d * k && 0 <= d * k <= 44) by (nonlinear_arith)
        requires
            0 <= d <= 11,
            0 <= k <= 4,
    ;
}

impl<P: ParameterSet> TqMatrix<P> {
    /// The public matrix of a seed.
    ///
    /// The entries are drawn four at a time, row after row; what the last four
    /// hold beyond the matrix is left out.
    pub fn expand(rho: &[u8; 32]) -> (r: Self)
        ensures
            r@ == matrix_spec(rho@, P::K as nat),
            r.has_shape(),
            r.bounded(3328),
    {
        proof {
            P::lemma_sizes();
        }
        let k: usize = P::K;
        assert(k * k <= 16) by (nonlinear_arith)
            requires
                k <= 4,
        ;
        let total: usize = k * k;
        let mut entries: Vec<TqElement> = Vec::new();
        let mut next: usize = 0;
        while next < total
            invariant
                2 <= k <= 4,
                total == k * k <= 16,
                next % 4 == 0,
                next <= total + 3,
                entries@.len() == next,
                forall|n: int|
                    0 <= n < next ==> (#[trigger] entries@[n])@ == sample_ntt_spec(
                        xof_input(rho@, (n % (k as int)) as u8, (n / (k as int)) as u8),
                    ) && entries@[n].bounded(3328),
            decreases total + 3 - next,
        {
            let mut indices: [(u8, u8); 4] = [(0, 0); 4];
            let mut lane: usize = 0;
            while lane < 4
                invariant
                    2 <= k <= 4,
                    next < 16,
                    lane <= 4,
                    forall|l: int|
                        0 <= l < lane ==> #[trigger] indices@[l] == (
                            ((next + l) % (k as int)) as u8,
                            ((next + l) / (k as int)) as u8,
                        ),
                decreases 4 - lane,
            {
                let n: usize = next + lane;
                indices[lane] = ((n % k) as u8, (n / k) as u8);
                lane = lane + 1;
            }
            let batch: [TqElement; 4] = TqElement::sample_ntt_x4(rho, indices);
            let mut taken: usize = 0;
            while taken < 4
                invariant
                    2 <= k <= 4,
                    taken <= 4,
                    entries@.len() == next + taken,
                    next <= 16,
                    forall|l: int|
                        0 <= l < 4 ==> #[trigger] indices@[l] == (
                            ((next + l) % (k as int)) as u8,
                            ((next + l) / (k as int)) as u8,
                        ),
                    forall|l: int|
                        0 <= l < 4 ==> (#[trigger] batch@[l])@ == sample_ntt_spec(
                            xof_input(rho@, indices@[l].0, indices@[l].1),
                        ) && batch@[l].bounded(3328),
                    forall|n: int|
                        0 <= n < next + taken ==> (#[trigger] entries@[n])@ == sample_ntt_spec(
                            xof_input(rho@, (n % (k as int)) as u8, (n / (k as int)) as u8),
                        ) && entries@[n].bounded(3328),
                decreases 4 - taken,
            {
                assert(indices@[taken as int] == (
                    ((next + taken) % (k as int)) as u8,
                    ((next + taken) / (k as int)) as u8,
                ));
                entries.push(batch[taken].clone());
                taken = taken + 1;
            }
            next = next + 4;
        }
        let mut rows: Vec<TqVector<P>> = Vec::new();
        let mut i: usize = 0;
        while i < k
            invariant
                k == P::K,
                2 <= k <= 4,
                i <= k,
                k * k <= 16,
                entries@.len() >= k * k,
                forall|n: int|
                    0 <= n < entries@.len() ==> (#[trigger] entries@[n])@ == sample_ntt_spec(
                        xof_input(rho@, (n % (k as int)) as u8, (n / (k as int)) as u8),
                    ) && entries@[n].bounded(3328),
                rows@.len() == i,
                forall|a: int|
                    0 <= a < i ==> (#[trigger] rows@[a])@ == matrix_spec(rho@, k as nat)[a]
                        && rows@[a].bounded(3328),
            decreases k - i,
        {
            let mut row: Vec<TqElement> = Vec::new();
            let mut j: usize = 0;
            while j < k
                invariant
                    2 <= k <= 4,
                    i < k,
                    j <= k,
                    k * k <= 16,
                    entries@.len() >= k * k,
                    forall|n: int|
                        0 <= n < entries@.len() ==> (#[trigger] entries@[n])@ == sample_ntt_spec(
                            xof_input(rho@, (n % (k as int)) as u8, (n / (k as int)) as u8),
                        ) && entries@[n].bounded(3328),
                    row@.len() == j,
                    forall|b: int|
                        0 <= b < j ==> (#[trigger] row@[b])@ == sample_ntt_spec(
                            xof_input(rho@, b as u8, i as u8),
                        ) && row@[b].bounded(3328),
                decreases k - j,
            {
                assert(0 <= i * k && i * k + j < k * k) by (nonlinear_arith)
                    requires
                        i < k,
                        j < k,
                ;
                let n: usize = i * k + j;
                proof {
                    lemma_fundamental_div_mod_converse(n as int, k as int, i as int, j as int);
                }
                row.push(entries[n].clone());
                j = j + 1;
            }
            let row: TqVector<P> = TqVector::from_vec(row);
            proof {
                assert(row@ =~= matrix_spec(rho@, k as nat)[i as int]);
            }
            rows.push(row);
            i = i + 1;
        }
        let ghost all = rows@;
        let r: Self = TqMatrix::from_rows(rows);
        proof {
            assert(r@ =~= matrix_spec(rho@, k as nat));
            assert forall|i: int, j: int| 0 <= i < P::K && 0 <= j < P::K implies (
            #[trigger] r.elements()[i][j]).bounded(3328) by {
                assert(all[i].bounded(3328));
                assert(r.elements()[i].len() == P::K);
                assert(all[i].elements()[j].bounded(3328));
            }
        }
        r
    }
}

/// The seed of a key pair.
pub struct KeyGenRandomnessSeed<P: ParameterSet>([u8; 32], PhantomData<P>);

impl<P: ParameterSet> View for KeyGenRandomnessSeed<P> {
    type V = Seq<u8>;

    closed spec fn view(&self) -> Seq<u8> {
        self.0@
    }
}

impl<P: ParameterSet> KeyGenRandomnessSeed<P> {
    /// The seed of 32 random bytes.
    pub fn new(bytes: [u8; 32]) -> (r: Self)
        ensures
            r@ == bytes@,
    {
        KeyGenRandomnessSeed(bytes, PhantomData)
    }

    /// Overwrites the seed with zeros.
    pub fn zeroize(&mut self)
        ensures
            forall|i: int| 0 <= i < 32 ==> #[trigger] final(self)@[i] == 0,
        opens_invariants none
        no_unwind
    {
        wipe_bytes(&mut self.0);
    }
}

impl<P: ParameterSet> Drop for KeyGenRandomnessSeed<P> {
    /// Overwrites the seed with zeros.
    fn drop(&mut self)
        ensures
            forall|i: int| 0 <= i < 32 ==> #[trigger] final(self)@[i] == 0,
        opens_invariants none
        no_unwind
    {
        self.zeroize();
    }
}

/// An encryption key: the public vector and the seed of the public matrix.
///
/// The transpose of the matrix is expanded once, when the key is made.
pub struct EncryptionKey<P: ParameterSet> {
    t_hat: TqVector<P>,
    rho: [u8; 32],
    a_hat_transpose: TqMatrix<P>,
}

impl<P: ParameterSet> EncryptionKey<P> {
    /// The matrix is that of the seed, and the coefficients are small enough to
    /// be multiplied.
    #[verifier::type_invariant]
    pub closed spec fn well_formed(self) -> bool {
        &&& self.t_hat.bounded(MUL_BOUND as int)
        &&& self.t_hat@.len() == P::K
        &&& self.a_hat_transpose.bounded(3328)
        &&& self.a_hat_transpose@ == transposed(matrix_spec(self.rho@, P::K as nat))
    }

    /// The public vector.
    pub closed spec fn t_hat(&self) -> Seq<Seq<int>> {
        self.t_hat@
    }

    /// The seed of the public matrix.
    pub closed spec fn rho(&self) -> Seq<u8> {
        self.rho@
    }

    /// The public vector has `K` components of canonical residues, and the seed
    /// 32 bytes.
    pub proof fn lemma_valid(&self)
        requires
            self.well_formed(),
        ensures
            self.t_hat().len() == P::K,
            all_polys(self.t_hat()),
            self.rho().len() == 32,
    {
        self.t_hat.lemma_polys();
    }

    /// The bytes of the key.
    pub fn to_bytes(&self) -> (r: Vec<u8>)
        ensures
            r@ == encryption_key_bytes(self.t_hat(), self.rho()),
            r@.len() == P::PKE_ENCRYPTION_KEY_SIZE,
    {
        proof {
            P::lemma_sizes();
        }
        let mut r: Vec<u8> = self.t_hat.byte_encode();
        r.extend_from_slice(self.rho.as_slice());
        proof {
            assert(r@ =~= encryption_key_bytes(self.t_hat(), self.rho()));
        }
        r
    }

    /// The key that bytes hold; the values of the public vector are reduced.
    pub fn from_bytes(bytes: &[u8]) -> (r: Self)
        requires
            bytes@.len() == P::PKE_ENCRYPTION_KEY_SIZE,
        ensures
            r.t_hat() == key_vector::<P>(bytes@.take(384 * P::K)),
            r.rho() == bytes@.skip(384 * P::K),
    {
        proof {
            P::lemma_sizes();
        }
        let (encoded_t, rho_bytes) = bytes.split_at(384 * P::K);
        let t_hat: TqVector<P> = TqVector::byte_decode(encoded_t);
        let rho: [u8; 32] = array_32(rho_bytes);
        let a_hat_transpose: TqMatrix<P> = TqMatrix::expand(&rho).transpose();
        proof {
            assert(bytes@.take(384 * P::K) =~= encoded_t@);
            assert(bytes@.skip(384 * P::K) =~= rho_bytes@);
            t_hat.lemma_weaken(3328, MUL_BOUND as int);
        }
        EncryptionKey { t_hat, rho, a_hat_transpose }
    }

    /// The ciphertext of a message under explicit randomness.
    pub fn encrypt(&self, message: &[u8; 32], randomness: &[u8; 32]) -> (r: Ciphertext<P>)
        ensures
            r@ == encrypt_spec::<P>(self.t_hat(), self.rho(), message@, randomness@),
    {
        proof {
            use_type_invariant(self);
            P::lemma_sizes();
        }
        let k: u8 = P::K as u8;
        let mut first: CbdSampler = CbdSampler::new(P::ETA_1, randomness, 0, k);
        let y: RqVector<P> = first.sample_vector();

        let mut noise: CbdSampler = CbdSampler::new(P::ETA_2, randomness, k, k + 1);
        let e1: RqVector<P> = noise.sample_vector();
        let e2: RqElement = noise.sample_element();

        proof {
            y.lemma_weaken(3, NTT_BOUND as int);
        }
        let y_hat: CachedTqVector<P> = CachedTqVector::from(y.ntt());
        proof {
            y_hat.lemma_weaken(1664, MUL_BOUND as int);
            self.a_hat_transpose.lemma_weaken(3328, MUL_BOUND as int);
        }
        let product: TqVector<P> = self.a_hat_transpose.times_cached(&y_hat);
        proof {
            product.lemma_weaken(4708, NTT_INVERSE_BOUND as int);
            lemma_unscaled_product(self.a_hat_transpose@, y_hat@);
        }
        let masked: RqVector<P> = product.ntt_inverse();
        proof {
            lemma_noise_addable(&masked, &e1);
        }
        let u: RqVector<P> = masked + e1;

        let mu: RqElement = RqElement::from_message(message);
        let dot: TqElement = self.t_hat.dot_cached(&y_hat);
        proof {
            dot.lemma_weaken(4708, NTT_INVERSE_BOUND as int);
            lemma_unscaled_dot(self.t_hat@, y_hat@, P::K as nat);
        }
        let shared: RqElement = dot.ntt_inverse();
        proof {
            lemma_small_addable(&shared, 3328, &e2, 3);
        }
        let noisy: RqElement = shared + e2;
        proof {
            lemma_small_sum(&noisy, &shared, 3328, &e2, 3);
            lemma_small_addable(&noisy, 3331, &mu, 3328);
        }
        let v: RqElement = noisy + mu;
        Ciphertext::from_uv(&u, &v)
    }
}

impl<P: ParameterSet> Clone for EncryptionKey<P> {
    fn clone(&self) -> (r: Self)
        ensures
            r.t_hat() == self.t_hat(),
            r.rho() == self.rho(),
    {
        proof {
            use_type_invariant(self);
        }
        EncryptionKey {
            t_hat: self.t_hat.clone(),
            rho: self.rho,
            a_hat_transpose: self.a_hat_transpose.clone(),
        }
    }
}

/// Elements with small coefficients can be added.
proof fn lemma_small_addable(f: &RqElement, a: int, g: &RqElement, b: int)
    requires
        f.bounded(a),
        g.bounded(b),
        a + b <= 32767,
    ensures
        addable(f.elements(), g.elements()),
        subtractable(f.elements(), g.elements()),
{
    f.lemma_is_poly();
    g.lemma_is_poly();
    assert forall|i: int| 0 <= i < 256 implies (#[trigger] f.elements()[i]).bounded(a)
        && g.elements()[i].bounded(b) by {}
}

/// A vector of noise can be added to an inverse transform.
proof fn lemma_noise_addable<P: ParameterSet>(v: &RqVector<P>, e: &RqVector<P>)
    requires
        v@.len() == e@.len(),
        v.bounded(3328),
        e.bounded(3),
    ensures
        rq_addable(v.elements(), e.elements()),
{
    assert forall|i: int| 0 <= i < v.elements().len() implies addable(
        (#[trigger] v.elements()[i]).elements(),
        e.elements()[i].elements(),
    ) by {
        assert(e.elements()[i].bounded(3));
        lemma_small_addable(&v.elements()[i], 3328, &e.elements()[i], 3);
    }
}

/// A decryption key: the secret vector.
///
/// The parts of a base multiplication by the vector that depend on it alone are
/// computed once, when the key is made.
pub struct DecryptionKey<P: ParameterSet> {
    s_hat: CachedTqVector<P>,
}

impl<P: ParameterSet> DecryptionKey<P> {
    /// The coefficients are small enough to be multiplied.
    #[verifier::type_invariant]
    pub closed spec fn well_formed(self) -> bool {
        &&& self.s_hat.bounded(MUL_BOUND as int)
        &&& self.s_hat@.len() == P::K
    }

    /// The secret vector.
    pub closed spec fn s_hat(&self) -> Seq<Seq<int>> {
        self.s_hat@
    }

    /// The secret vector has `K` components of canonical residues.
    pub proof fn lemma_valid(&self)
        requires
            self.well_formed(),
        ensures
            self.s_hat().len() == P::K,
            all_polys(self.s_hat()),
    {
        self.s_hat.lemma_polys();
    }

    /// The bytes of the key.
    pub fn to_bytes(&self) -> (r: Vec<u8>)
        ensures
            r@ == encode_vector(self.s_hat(), 12),
            r@.len() == P::PKE_DECRYPTION_KEY_SIZE,
    {
        proof {
            P::lemma_sizes();
        }
        self.s_hat.vector().byte_encode()
    }

    /// The key that bytes hold; the values are reduced.
    pub fn from_bytes(bytes: &[u8]) -> (r: Self)
        requires
            bytes@.len() == P::PKE_DECRYPTION_KEY_SIZE,
        ensures
            r.s_hat() == key_vector::<P>(bytes@),
    {
        let s_hat: CachedTqVector<P> = CachedTqVector::from(TqVector::byte_decode(bytes));
        proof {
            s_hat.lemma_weaken(3328, MUL_BOUND as int);
        }
        DecryptionKey { s_hat }
    }

    /// The message of a ciphertext.
    pub fn decrypt(&self, ciphertext: &Ciphertext<P>) -> (r: [u8; 32])
        ensures
            r@ == decrypt_spec::<P>(self.s_hat(), ciphertext@),
    {
        proof {
            use_type_invariant(self);
            use_type_invariant(ciphertext);
            P::lemma_sizes();
            lemma_ciphertext_sizes::<P>();
        }
        let (c1, c2) = ciphertext.as_bytes().split_at(32 * P::D_U * P::K);
        let u: RqVector<P> = RqVector::decode_decompress(c1, P::D_U);
        let v: RqElement = RqElement::decode_decompress(c2, P::D_V);
        proof {
            u.lemma_weaken(3328, NTT_BOUND as int);
        }
        let u_hat: TqVector<P> = u.ntt();
        proof {
            u_hat.lemma_weaken(1664, MUL_BOUND as int);
        }
        let dot: TqElement = u_hat.dot_cached(&self.s_hat);
        proof {
            dot.lemma_weaken(4708, NTT_INVERSE_BOUND as int);
            lemma_unscaled_dot(u_hat@, self.s_hat@, P::K as nat);
        }
        let shared: RqElement = dot.ntt_inverse();
        proof {
            lemma_small_addable(&v, 3328, &shared, 3328);
        }
        let w: RqElement = v - shared;
        w.compress_message()
    }

    /// Overwrites the secret vector with zeros.
    pub fn zeroize(&mut self)
        ensures
            final(self).s_hat() == vec_zero(P::K as nat),
        no_unwind
    {
        self.s_hat.zeroize();
        proof {
            self.s_hat.lemma_weaken(0, MUL_BOUND as int);
        }
    }
}

/// A ciphertext: the bytes of its two parts, compressed.
pub struct Ciphertext<P: ParameterSet>(Vec<u8>, PhantomData<P>);

impl<P: ParameterSet> View for Ciphertext<P> {
    type V = Seq<u8>;

    closed spec fn view(&self) -> Seq<u8> {
        self.0@
    }
}

impl<P: ParameterSet> Ciphertext<P> {
    /// A ciphertext is as long as the parameter set says.
    #[verifier::type_invariant]
    pub open spec fn has_length(self) -> bool {
        self@.len() == P::CIPHERTEXT_SIZE
    }

    /// The ciphertext of two parts.
    pub fn from_uv(u: &RqVector<P>, v: &RqElement) -> (r: Self)
        ensures
            r@ == ciphertext_bytes::<P>(u@, v@),
    {
        proof {
            use_type_invariant(u);
            P::lemma_sizes();
            lemma_ciphertext_sizes::<P>();
        }
        let mut r: Vec<u8> = u.compress_encode(P::D_U);
        let packed: [u8; 352] = v.compress_encode(P::D_V);
        r.extend_from_slice(slice_subrange(packed.as_slice(), 0, 32 * P::D_V));
        proof {
            assert(r@ =~= ciphertext_bytes::<P>(u@, v@));
        }
        Ciphertext(r, PhantomData)
    }

    /// The ciphertext that bytes hold.
    pub fn from_bytes(bytes: &[u8]) -> (r: Self)
        requires
            bytes@.len() == P::CIPHERTEXT_SIZE,
        ensures
            r@ == bytes@,
    {
        let copy: Vec<u8> = vstd::slice::slice_to_vec(bytes);
        Ciphertext(copy, PhantomData)
    }

    /// The bytes of the ciphertext.
    pub fn as_bytes(&self) -> (r: &[u8])
        ensures
            r@ == self@,
    {
        self.0.as_slice()
    }

    /// Compares two ciphertexts without a branch on their bytes: one if they
    /// are equal, and zero if they are not.
    pub fn ct_eq(&self, other: &Self) -> (r: u8)
        ensures
            r == if self@ == other@ {
                1u8
            } else {
                0u8
            },
    {
        proof {
            use_type_invariant(self);
            use_type_invariant(other);
            lemma_ciphertext_sizes::<P>();
        }
        equal_bytes(self.as_bytes(), other.as_bytes())
    }
}

/// A decryption key and the encryption key that belongs to it.
pub struct KeyPair<P: ParameterSet> {
    /// The secret key.
    pub dk_pke: DecryptionKey<P>,
    /// The public key.
    pub ek_pke: EncryptionKey<P>,
}

impl<P: ParameterSet> KeyPair<P> {
    /// The key pair of a seed.
    pub fn new_derand(seed: KeyGenRandomnessSeed<P>) -> (r: Self)
        ensures
            r.dk_pke.s_hat() == s_hat_spec::<P>(seed@),
            r.ek_pke.t_hat() == t_hat_spec::<P>(seed@),
            r.ek_pke.rho() == key_seeds::<P>(seed@).0,
    {
        proof {
            P::lemma_sizes();
        }
        let k: u8 = P::K as u8;
        let mut g_input: [u8; 33] = [0u8; 33];
        let mut i: usize = 0;
        while i < 32
            invariant
                i <= 32,
                forall|n: int| 0 <= n < i ==> #[trigger] g_input@[n] == seed@[n],
            decreases 32 - i,
        {
            g_input[i] = seed.0[i];
            i = i + 1;
        }
        g_input[32] = k;
        proof {
            assert(g_input@ =~= seed@.push(k));
        }
        let (rho, mut sigma) = G(g_input.as_slice());
        wipe_bytes(&mut g_input);

        let a_hat: TqMatrix<P> = TqMatrix::expand(&rho);

        let mut noise: CbdSampler = CbdSampler::new(P::ETA_1, &sigma, 0, 2 * k);
        let s: RqVector<P> = noise.sample_vector();
        let e: RqVector<P> = noise.sample_vector();
        wipe_bytes(&mut sigma);

        proof {
            s.lemma_weaken(3, NTT_BOUND as int);
            e.lemma_weaken(3, NTT_BOUND as int);
        }
        let s_hat: CachedTqVector<P> = CachedTqVector::from(s.ntt());
        let e_hat: TqVector<P> = e.ntt();
        proof {
            s_hat.lemma_weaken(1664, MUL_BOUND as int);
            a_hat.lemma_weaken(3328, MUL_BOUND as int);
            lemma_unscaled_product(a_hat@, s_hat@);
        }
        let product: TqVector<P> = a_hat.times_cached(&s_hat).to_montgomery();
        proof {
            lemma_tq_vectors_addable(&product, 2341, &e_hat, 1664);
        }
        let t_hat: TqVector<P> = product + e_hat;
        proof {
            assert(t_hat.bounded(2341int + 1664));
            t_hat.lemma_weaken(4005, MUL_BOUND as int);
        }
        let a_hat_transpose: TqMatrix<P> = a_hat.transpose();
        KeyPair {
            dk_pke: DecryptionKey { s_hat },
            ek_pke: EncryptionKey { t_hat, rho, a_hat_transpose },
        }
    }
}

/// Vectors with small coefficients can be added.
proof fn lemma_tq_vectors_addable<P: ParameterSet>(
    v: &TqVector<P>,
    a: int,
    w: &TqVector<P>,
    b: int,
)
    requires
        v@.len() == w@.len(),
        v.bounded(a),
        w.bounded(b),
        a + b <= 32767,
    ensures
        tq_addable(v.elements(), w.elements()),
{
    assert forall|i: int| 0 <= i < v.elements().len() implies addable(
        (#[trigger] v.elements()[i]).elements(),
        w.elements()[i].elements(),
    ) by {
        let (f, g) = (v.elements()[i], w.elements()[i]);
        f.lemma_is_poly();
        g.lemma_is_poly();
        assert(f.bounded(a));
        assert(g.bounded(b));
        lemma_bounded_addable(&f, a, &g, b);
    }
}

} // verus!
