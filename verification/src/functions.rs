//! The symmetric primitives of the scheme, all of the SHA-3 family, and their
//! batched forms.

#![allow(non_snake_case)]

use core::ops::Deref;

use sha3_selkie::{
    Absorbing, Sha3_256, Sha3_512, Shake128, Shake128X4, Shake256, Shake256X2, Shake256X4,
    Squeezing,
};
use vstd::prelude::*;

use crate::parameters::Eta;

verus! {

/// The type `sha3_selkie::Absorbing`.
#[verifier::external_type_specification]
#[verifier::external_body]
pub struct ExAbsorbing(Absorbing);

/// The type `sha3_selkie::Squeezing`.
#[verifier::external_type_specification]
#[verifier::external_body]
pub struct ExSqueezing(Squeezing);

/// The type `sha3_selkie::Shake128`: a stream of bytes once it squeezes.
#[verifier::external_type_specification]
#[verifier::external_body]
#[verifier::reject_recursive_types(Phase)]
pub struct ExShake128<Phase>(Shake128<Phase>);

/// The type `sha3_selkie::Shake128X4`: four streams of bytes once it squeezes.
#[verifier::external_type_specification]
#[verifier::external_body]
#[verifier::reject_recursive_types(Phase)]
pub struct ExShake128X4<Phase>(Shake128X4<Phase>);

/// The type `sha3_selkie::Shake256`: a stream of bytes once it squeezes.
#[verifier::external_type_specification]
#[verifier::external_body]
#[verifier::reject_recursive_types(Phase)]
pub struct ExShake256<Phase>(Shake256<Phase>);

/// The type `sha3_selkie::Shake256X2`: two streams of bytes once it squeezes.
#[verifier::external_type_specification]
#[verifier::external_body]
#[verifier::reject_recursive_types(Phase)]
pub struct ExShake256X2<Phase>(Shake256X2<Phase>);

/// The type `sha3_selkie::Shake256X4`: four streams of bytes once it squeezes.
#[verifier::external_type_specification]
#[verifier::external_body]
#[verifier::reject_recursive_types(Phase)]
pub struct ExShake256X4<Phase>(Shake256X4<Phase>);

/// The SHA3-256 digest of `input`.
pub uninterp spec fn sha3_256(input: Seq<u8>) -> Seq<u8>;

/// The SHA3-512 digest of `input`.
pub uninterp spec fn sha3_512(input: Seq<u8>) -> Seq<u8>;

/// Byte `n` of the SHAKE256 output for `input`.
pub uninterp spec fn shake256_byte(input: Seq<u8>, n: int) -> u8;

/// Byte `n` of the SHAKE128 output for `input`.
pub uninterp spec fn shake128_byte(input: Seq<u8>, n: int) -> u8;

/// What a SHAKE128 hasher has absorbed.
pub uninterp spec fn absorbed(hasher: Shake128<Absorbing>) -> Seq<u8>;

/// The bytes that a SHAKE128 reader has yet to hand out, by their distance.
pub uninterp spec fn stream(reader: Shake128<Squeezing>) -> Map<int, u8>;

/// What a SHAKE256 hasher has absorbed.
pub uninterp spec fn absorbed_256(hasher: Shake256<Absorbing>) -> Seq<u8>;

/// The bytes that a SHAKE256 reader has yet to hand out, by their distance.
pub uninterp spec fn stream_256(reader: Shake256<Squeezing>) -> Map<int, u8>;

/// The bytes that four batched SHAKE128 streams have yet to hand out, by lane
/// and distance.
pub uninterp spec fn streams_128_x4(state: Shake128X4<Squeezing>) -> Map<(int, int), u8>;

/// The bytes that two batched SHAKE256 streams have yet to hand out, by lane
/// and distance.
pub uninterp spec fn streams_256_x2(state: Shake256X2<Squeezing>) -> Map<(int, int), u8>;

/// The bytes that four batched SHAKE256 streams have yet to hand out, by lane
/// and distance.
pub uninterp spec fn streams_256_x4(state: Shake256X4<Squeezing>) -> Map<(int, int), u8>;

/// Calls `sha3_selkie::Sha3_256::digest`.
///
/// Claims that the digest depends on the input alone.
#[verifier::external_body]
fn sha3_256_digest(data: &[u8]) -> (r: [u8; 32])
    ensures
        r@ == sha3_256(data@),
{
    Sha3_256::digest(data)
}

/// Calls `sha3_selkie::Sha3_512::digest`.
///
/// Claims that the digest depends on the input alone.
#[verifier::external_body]
fn sha3_512_digest(data: &[u8]) -> (r: [u8; 64])
    ensures
        r@ == sha3_512(data@),
{
    Sha3_512::digest(data)
}

/// Calls `sha3_selkie::Shake256::new`.
///
/// Claims that the hasher has absorbed nothing.
#[verifier::external_body]
fn shake256_hasher() -> (r: Shake256<Absorbing>)
    ensures
        absorbed_256(r) == Seq::<u8>::empty(),
{
    Shake256::new()
}

/// `sha3_selkie::Shake256::update`: appends to what has been absorbed.
pub assume_specification[ Shake256::<Absorbing>::update ](
    hasher: &mut Shake256<Absorbing>,
    data: &[u8],
)
    ensures
        absorbed_256(*final(hasher)) == absorbed_256(*old(hasher)) + data@,
;

/// `sha3_selkie::Shake256::finalize_xof`: a reader at the start of the output
/// for what has been absorbed.
pub assume_specification[ Shake256::<Absorbing>::finalize_xof ](
    hasher: Shake256<Absorbing>,
) -> (r: Shake256<Squeezing>)
    ensures
        forall|n: int|
            0 <= n ==> #[trigger] stream_256(r)[n] == shake256_byte(absorbed_256(hasher), n),
;

/// `sha3_selkie::Shake256::read`: hands out the next bytes of the stream.
pub assume_specification[ Shake256::<Squeezing>::read ](
    reader: &mut Shake256<Squeezing>,
    out: &mut [u8],
)
    ensures
        final(out)@.len() == old(out)@.len(),
        forall|n: int|
            0 <= n < old(out)@.len() ==> #[trigger] final(out)@[n] == stream_256(*old(reader))[n],
        forall|n: int|
            0 <= n ==> #[trigger] stream_256(*final(reader))[n] == stream_256(*old(reader))[n
                + old(out)@.len()],
;

/// Calls `sha3_selkie::Shake128::new`.
///
/// Claims that the hasher has absorbed nothing.
#[verifier::external_body]
fn shake128_hasher() -> (r: Shake128<Absorbing>)
    ensures
        absorbed(r) == Seq::<u8>::empty(),
{
    Shake128::new()
}

/// `sha3_selkie::Shake128::update`: appends to what has been absorbed.
pub assume_specification[ Shake128::<Absorbing>::update ](
    hasher: &mut Shake128<Absorbing>,
    data: &[u8],
)
    ensures
        absorbed(*final(hasher)) == absorbed(*old(hasher)) + data@,
;

/// `sha3_selkie::Shake128::finalize_xof`: a reader at the start of the output
/// for what has been absorbed.
pub assume_specification[ Shake128::<Absorbing>::finalize_xof ](
    hasher: Shake128<Absorbing>,
) -> (r: Shake128<Squeezing>)
    ensures
        forall|n: int| 0 <= n ==> #[trigger] stream(r)[n] == shake128_byte(absorbed(hasher), n),
;

/// `sha3_selkie::Shake128::read`: hands out the next bytes of the stream.
pub assume_specification[ Shake128::<Squeezing>::read ](
    reader: &mut Shake128<Squeezing>,
    out: &mut [u8],
)
    ensures
        final(out)@.len() == old(out)@.len(),
        forall|n: int|
            0 <= n < old(out)@.len() ==> #[trigger] final(out)@[n] == stream(*old(reader))[n],
        forall|n: int|
            0 <= n ==> #[trigger] stream(*final(reader))[n] == stream(*old(reader))[n
                + old(out)@.len()],
;

/// Calls `sha3_selkie::Shake128X4::absorb`.
///
/// Claims that lane `i` stands at the start of the output for input `i`.
#[verifier::external_body]
fn shake128_x4_absorb(inputs: &[[u8; 34]; 4]) -> (r: Shake128X4<Squeezing>)
    ensures
        forall|i: int, n: int|
            0 <= i < 4 && 0 <= n ==> #[trigger] streams_128_x4(r)[(i, n)] == shake128_byte(
                inputs@[i]@,
                n,
            ),
{
    Shake128X4::absorb(inputs.each_ref().map(<[u8; 34]>::as_slice))
}

/// Calls `sha3_selkie::Shake128X4::squeeze` with equal lengths.
///
/// Claims that each lane hands out the next bytes of its own stream.
#[verifier::external_body]
pub(crate) fn shake128_x4_squeeze<const B: usize>(
    state: &mut Shake128X4<Squeezing>,
    lanes: &mut [[u8; B]; 4],
)
    ensures
        forall|i: int, n: int|
            0 <= i < 4 && 0 <= n < B ==> #[trigger] final(lanes)@[i]@[n] == streams_128_x4(
                *old(state),
            )[(i, n)],
        forall|i: int, n: int|
            0 <= i < 4 && 0 <= n ==> #[trigger] streams_128_x4(*final(state))[(i, n)]
                == streams_128_x4(*old(state))[(i, n + B)],
{
    let [l0, l1, l2, l3] = lanes;
    state.squeeze([l0, l1, l2, l3]);
}

/// Calls `sha3_selkie::Shake256X2::absorb`.
///
/// Claims that lane `i` stands at the start of the output for input `i`.
#[verifier::external_body]
fn shake256_x2_absorb(inputs: &[[u8; 33]; 2]) -> (r: Shake256X2<Squeezing>)
    ensures
        forall|i: int, n: int|
            0 <= i < 2 && 0 <= n ==> #[trigger] streams_256_x2(r)[(i, n)] == shake256_byte(
                inputs@[i]@,
                n,
            ),
{
    Shake256X2::absorb(inputs.each_ref().map(<[u8; 33]>::as_slice))
}

/// Calls `sha3_selkie::Shake256X2::squeeze` with equal lengths.
///
/// Claims that each lane hands out the next bytes of its own stream.
#[verifier::external_body]
fn shake256_x2_squeeze<const B: usize>(state: &mut Shake256X2<Squeezing>, lanes: &mut [[u8; B]; 2])
    ensures
        forall|i: int, n: int|
            0 <= i < 2 && 0 <= n < B ==> #[trigger] final(lanes)@[i]@[n] == streams_256_x2(
                *old(state),
            )[(i, n)],
        forall|i: int, n: int|
            0 <= i < 2 && 0 <= n ==> #[trigger] streams_256_x2(*final(state))[(i, n)]
                == streams_256_x2(*old(state))[(i, n + B)],
{
    let [l0, l1] = lanes;
    state.squeeze([l0, l1]);
}

/// Calls `sha3_selkie::Shake256X4::absorb`.
///
/// Claims that lane `i` stands at the start of the output for input `i`.
#[verifier::external_body]
fn shake256_x4_absorb(inputs: &[[u8; 33]; 4]) -> (r: Shake256X4<Squeezing>)
    ensures
        forall|i: int, n: int|
            0 <= i < 4 && 0 <= n ==> #[trigger] streams_256_x4(r)[(i, n)] == shake256_byte(
                inputs@[i]@,
                n,
            ),
{
    Shake256X4::absorb(inputs.each_ref().map(<[u8; 33]>::as_slice))
}

/// Calls `sha3_selkie::Shake256X4::squeeze` with equal lengths.
///
/// Claims that each lane hands out the next bytes of its own stream.
#[verifier::external_body]
fn shake256_x4_squeeze<const B: usize>(state: &mut Shake256X4<Squeezing>, lanes: &mut [[u8; B]; 4])
    ensures
        forall|i: int, n: int|
            0 <= i < 4 && 0 <= n < B ==> #[trigger] final(lanes)@[i]@[n] == streams_256_x4(
                *old(state),
            )[(i, n)],
        forall|i: int, n: int|
            0 <= i < 4 && 0 <= n ==> #[trigger] streams_256_x4(*final(state))[(i, n)]
                == streams_256_x4(*old(state))[(i, n + B)],
{
    let [l0, l1, l2, l3] = lanes;
    state.squeeze([l0, l1, l2, l3]);
}

/// The input of one pseudorandom stream: the seed, then the domain separator.
pub open spec fn prf_input(s: Seq<u8>, b: u8) -> Seq<u8> {
    s.push(b)
}

/// The `64 * eta` bytes that the pseudorandom function yields.
pub open spec fn prf_spec(eta: Eta, s: Seq<u8>, b: u8) -> Seq<u8> {
    Seq::new(64 * eta.number(), |n: int| shake256_byte(prf_input(s, b), n))
}

/// The output of [`PRF`], exactly `64 * eta` bytes.
pub enum PrfOutput {
    /// `eta = 2`.
    Eta2([u8; 128]),
    /// `eta = 3`.
    Eta3([u8; 192]),
}

impl View for PrfOutput {
    type V = Seq<u8>;

    open spec fn view(&self) -> Seq<u8> {
        match self {
            PrfOutput::Eta2(bytes) => bytes@,
            PrfOutput::Eta3(bytes) => bytes@,
        }
    }
}

impl PrfOutput {
    /// The bytes.
    pub fn as_slice(&self) -> (r: &[u8])
        ensures
            r@ == self@,
    {
        match self {
            PrfOutput::Eta2(bytes) => bytes.as_slice(),
            PrfOutput::Eta3(bytes) => bytes.as_slice(),
        }
    }
}

impl Deref for PrfOutput {
    type Target = [u8];

    fn deref(&self) -> (r: &[u8])
        ensures
            r@ == self@,
    {
        self.as_slice()
    }
}

/// The output of a batched [`PRF`]: `N` lanes of exactly `64 * eta` bytes.
pub enum PrfBatch<const N: usize> {
    /// `eta = 2`.
    Eta2([[u8; 128]; N]),
    /// `eta = 3`.
    Eta3([[u8; 192]; N]),
}

impl<const N: usize> PrfBatch<N> {
    /// The bytes of a lane.
    pub open spec fn lane_view(&self, i: int) -> Seq<u8> {
        match self {
            PrfBatch::Eta2(lanes) => lanes@[i]@,
            PrfBatch::Eta3(lanes) => lanes@[i]@,
        }
    }

    /// The inputs of consecutive streams: the seed, then `b`, `b + 1`, and so
    /// on, wrapping around after 255.
    fn inputs(s: &[u8; 32], b: u8) -> (r: [[u8; 33]; N])
        requires
            N <= 256,
        ensures
            forall|i: int|
                0 <= i < N ==> (#[trigger] r@[i])@ == prf_input(s@, ((b + i) % 256) as u8),
    {
        let mut inputs: [[u8; 33]; N] = [[0u8; 33]; N];
        let mut lane: usize = 0;
        while lane < N
            invariant
                lane <= N <= 256,
                forall|i: int|
                    0 <= i < lane ==> (#[trigger] inputs@[i])@ == prf_input(
                        s@,
                        ((b + i) % 256) as u8,
                    ),
            decreases N - lane,
        {
            inputs[lane] = prf_input_bytes(s, b.wrapping_add(lane as u8));
            lane = lane + 1;
        }
        inputs
    }

    /// A lane's output bytes.
    pub fn lane(&self, index: usize) -> (r: &[u8])
        requires
            index < N,
        ensures
            r@ == self.lane_view(index as int),
    {
        match self {
            PrfBatch::Eta2(lanes) => lanes[index].as_slice(),
            PrfBatch::Eta3(lanes) => lanes[index].as_slice(),
        }
    }

    /// Each lane's output bytes, in lane order.
    pub fn lanes(&self) -> (r: Vec<&[u8]>)
        ensures
            r@.len() == N,
            forall|i: int| 0 <= i < N ==> (#[trigger] r@[i])@ == self.lane_view(i),
    {
        let mut r: Vec<&[u8]> = Vec::new();
        let mut i: usize = 0;
        while i < N
            invariant
                i <= N,
                r@.len() == i,
                forall|k: int| 0 <= k < i ==> (#[trigger] r@[k])@ == self.lane_view(k),
            decreases N - i,
        {
            r.push(self.lane(i));
            i = i + 1;
        }
        r
    }
}

/// The input of one pseudorandom stream, assembled.
fn prf_input_bytes(s: &[u8; 32], b: u8) -> (r: [u8; 33])
    ensures
        r@ == prf_input(s@, b),
{
    let mut input: [u8; 33] = [0u8; 33];
    let mut i: usize = 0;
    while i < 32
        invariant
            i <= 32,
            forall|k: int| 0 <= k < i ==> #[trigger] input@[k] == s@[k],
        decreases 32 - i,
    {
        input[i] = s[i];
        i = i + 1;
    }
    input[32] = b;
    proof {
        assert(input@ =~= prf_input(s@, b));
    }
    input
}

/// The pseudorandom function: SHAKE256 of the seed `s` and the domain separator
/// `b`, `64 * eta` bytes.
pub fn PRF(eta: Eta, s: &[u8; 32], b: u8) -> (r: PrfOutput)
    ensures
        r@ == prf_spec(eta, s@, b),
{
    let mut hasher: Shake256<Absorbing> = shake256_hasher();
    hasher.update(s);
    hasher.update(&[b]);
    proof {
        assert(absorbed_256(hasher) =~= prf_input(s@, b));
    }
    let mut reader: Shake256<Squeezing> = hasher.finalize_xof();
    match eta {
        Eta::Two => {
            let mut bytes: [u8; 128] = [0u8; 128];
            reader.read(&mut bytes);
            proof {
                assert(bytes@ =~= prf_spec(eta, s@, b));
            }
            PrfOutput::Eta2(bytes)
        },
        Eta::Three => {
            let mut bytes: [u8; 192] = [0u8; 192];
            reader.read(&mut bytes);
            proof {
                assert(bytes@ =~= prf_spec(eta, s@, b));
            }
            PrfOutput::Eta3(bytes)
        },
    }
}

/// Two consecutive [`PRF`] streams, of the domain separators `b` and `b + 1`.
pub fn PRF_x2(eta: Eta, s: &[u8; 32], b: u8) -> (r: PrfBatch<2>)
    ensures
        forall|i: int|
            0 <= i < 2 ==> #[trigger] r.lane_view(i) == prf_spec(eta, s@, ((b + i) % 256) as u8),
{
    let inputs: [[u8; 33]; 2] = PrfBatch::<2>::inputs(s, b);
    let mut state: Shake256X2<Squeezing> = shake256_x2_absorb(&inputs);
    match eta {
        Eta::Two => {
            let mut lanes: [[u8; 128]; 2] = [[0u8; 128]; 2];
            shake256_x2_squeeze::<128>(&mut state, &mut lanes);
            let r: PrfBatch<2> = PrfBatch::Eta2(lanes);
            proof {
                assert forall|i: int| 0 <= i < 2 implies #[trigger] r.lane_view(i) == prf_spec(
                    eta,
                    s@,
                    ((b + i) % 256) as u8,
                ) by {
                    assert(inputs@[i]@ == prf_input(s@, ((b + i) % 256) as u8));
                    assert(lanes@[i]@ =~= prf_spec(eta, s@, ((b + i) % 256) as u8));
                }
            }
            r
        },
        Eta::Three => {
            let mut lanes: [[u8; 192]; 2] = [[0u8; 192]; 2];
            shake256_x2_squeeze::<192>(&mut state, &mut lanes);
            let r: PrfBatch<2> = PrfBatch::Eta3(lanes);
            proof {
                assert forall|i: int| 0 <= i < 2 implies #[trigger] r.lane_view(i) == prf_spec(
                    eta,
                    s@,
                    ((b + i) % 256) as u8,
                ) by {
                    assert(inputs@[i]@ == prf_input(s@, ((b + i) % 256) as u8));
                    assert(lanes@[i]@ =~= prf_spec(eta, s@, ((b + i) % 256) as u8));
                }
            }
            r
        },
    }
}

/// Four consecutive [`PRF`] streams, of the domain separators `b` to `b + 3`.
pub fn PRF_x4(eta: Eta, s: &[u8; 32], b: u8) -> (r: PrfBatch<4>)
    ensures
        forall|i: int|
            0 <= i < 4 ==> #[trigger] r.lane_view(i) == prf_spec(eta, s@, ((b + i) % 256) as u8),
{
    let inputs: [[u8; 33]; 4] = PrfBatch::<4>::inputs(s, b);
    let mut state: Shake256X4<Squeezing> = shake256_x4_absorb(&inputs);
    match eta {
        Eta::Two => {
            let mut lanes: [[u8; 128]; 4] = [[0u8; 128]; 4];
            shake256_x4_squeeze::<128>(&mut state, &mut lanes);
            let r: PrfBatch<4> = PrfBatch::Eta2(lanes);
            proof {
                assert forall|i: int| 0 <= i < 4 implies #[trigger] r.lane_view(i) == prf_spec(
                    eta,
                    s@,
                    ((b + i) % 256) as u8,
                ) by {
                    assert(inputs@[i]@ == prf_input(s@, ((b + i) % 256) as u8));
                    assert(lanes@[i]@ =~= prf_spec(eta, s@, ((b + i) % 256) as u8));
                }
            }
            r
        },
        Eta::Three => {
            let mut lanes: [[u8; 192]; 4] = [[0u8; 192]; 4];
            shake256_x4_squeeze::<192>(&mut state, &mut lanes);
            let r: PrfBatch<4> = PrfBatch::Eta3(lanes);
            proof {
                assert forall|i: int| 0 <= i < 4 implies #[trigger] r.lane_view(i) == prf_spec(
                    eta,
                    s@,
                    ((b + i) % 256) as u8,
                ) by {
                    assert(inputs@[i]@ == prf_input(s@, ((b + i) % 256) as u8));
                    assert(lanes@[i]@ =~= prf_spec(eta, s@, ((b + i) % 256) as u8));
                }
            }
            r
        },
    }
}

/// The hash `H`: SHA3-256.
pub fn H(preimage: &[u8]) -> (r: [u8; 32])
    ensures
        r@ == sha3_256(preimage@),
{
    sha3_256_digest(preimage)
}

/// The 32 bytes that `J` yields for `z` and `c`.
pub open spec fn j_spec(z: Seq<u8>, c: Seq<u8>) -> Seq<u8> {
    Seq::new(32, |n: int| shake256_byte(z + c, n))
}

/// `J` hashes the list whose first bytes are `z` and whose other bytes are `c`.
pub proof fn law_rejection_hash(z: Seq<u8>, c: Seq<u8>, input: Seq<u8>, n: int)
    requires
        input.len() == z.len() + c.len(),
        forall|i: int| 0 <= i < z.len() ==> #[trigger] input[i] == z[i],
        forall|i: int| 0 <= i < c.len() ==> input[z.len() + i] == #[trigger] c[i],
        0 <= n < 32,
    ensures
        j_spec(z, c).len() == 32,
        j_spec(z, c)[n] == shake256_byte(input, n),
{
    assert forall|i: int| 0 <= i < input.len() implies input[i] == (z + c)[i] by {
        if i >= z.len() {
            assert(c[i - z.len()] == input[z.len() + (i - z.len())]);
        }
    }
    assert(input =~= z + c);
}

/// `G` yields the halves of a digest, in order.
pub proof fn law_halves(preimage: Seq<u8>, i: int)
    requires
        sha3_512(preimage).len() == 64,
        0 <= i < 32,
    ensures
        g_spec(preimage).0.len() == 32,
        g_spec(preimage).1.len() == 32,
        g_spec(preimage).0[i] == sha3_512(preimage)[i],
        g_spec(preimage).1[i] == sha3_512(preimage)[32 + i],
{
}

/// The pseudorandom function yields 64 bytes for each unit of `eta`, of the
/// list that ends in the domain separator.
pub proof fn law_prf(eta: Eta, s: Seq<u8>, b: u8, input: Seq<u8>, n: int)
    requires
        input.len() == s.len() + 1,
        forall|i: int| 0 <= i < s.len() ==> #[trigger] input[i] == s[i],
        input[s.len() as int] == b,
    ensures
        prf_spec(eta, s, b).len() == if eta == Eta::Two {
            128nat
        } else {
            192nat
        },
        0 <= n < prf_spec(eta, s, b).len() ==> prf_spec(eta, s, b)[n] == shake256_byte(input, n),
{
    assert(input =~= prf_input(s, b));
}

/// An extendable-output stream is that of the list that ends in both indices.
pub proof fn law_xof_input(rho: Seq<u8>, i: u8, j: u8)
    ensures
        xof_input(rho, i, j).len() == rho.len() + 2,
        xof_input(rho, i, j)[rho.len() as int] == i,
        xof_input(rho, i, j)[rho.len() as int + 1] == j,
        forall|k: int| 0 <= k < rho.len() ==> #[trigger] xof_input(rho, i, j)[k] == rho[k],
{
}

/// The hash `J`: the first 32 bytes of SHAKE256 of `z` followed by `c`.
pub fn J(z: &[u8; 32], c: &[u8]) -> (r: [u8; 32])
    ensures
        r@ == j_spec(z@, c@),
        forall|n: int| 0 <= n < 32 ==> #[trigger] r@[n] == shake256_byte(z@ + c@, n),
{
    let mut hasher: Shake256<Absorbing> = shake256_hasher();
    hasher.update(z);
    hasher.update(c);
    proof {
        assert(absorbed_256(hasher) =~= z@ + c@);
    }
    let mut reader: Shake256<Squeezing> = hasher.finalize_xof();
    let mut r: [u8; 32] = [0u8; 32];
    reader.read(&mut r);
    proof {
        assert(r@ =~= j_spec(z@, c@));
    }
    r
}

/// The two halves that `G` yields.
pub open spec fn g_spec(preimage: Seq<u8>) -> (Seq<u8>, Seq<u8>) {
    (sha3_512(preimage).subrange(0, 32), sha3_512(preimage).subrange(32, 64))
}

/// The hash `G`: SHA3-512, in two halves.
pub fn G(preimage: &[u8]) -> (r: ([u8; 32], [u8; 32]))
    ensures
        r.0@ == g_spec(preimage@).0,
        r.1@ == g_spec(preimage@).1,
{
    let digest: [u8; 64] = sha3_512_digest(preimage);
    let mut a: [u8; 32] = [0u8; 32];
    let mut b: [u8; 32] = [0u8; 32];
    let mut i: usize = 0;
    while i < 32
        invariant
            i <= 32,
            forall|k: int| 0 <= k < i ==> #[trigger] a@[k] == digest@[k],
            forall|k: int| 0 <= k < i ==> #[trigger] b@[k] == digest@[32 + k],
        decreases 32 - i,
    {
        a[i] = digest[i];
        b[i] = digest[32 + i];
        i = i + 1;
    }
    proof {
        assert(a@ =~= digest@.subrange(0, 32));
        assert(b@ =~= digest@.subrange(32, 64));
    }
    (a, b)
}

/// The input of an extendable-output stream.
pub open spec fn xof_input(rho: Seq<u8>, i: u8, j: u8) -> Seq<u8> {
    rho.push(i).push(j)
}

/// The extendable-output function: a reader of SHAKE128 of `rho`, `i` and `j`.
pub fn XOF(rho: &[u8; 32], i: u8, j: u8) -> (r: Shake128<Squeezing>)
    ensures
        forall|n: int|
            0 <= n ==> #[trigger] stream(r)[n] == shake128_byte(xof_input(rho@, i, j), n),
{
    let mut hasher: Shake128<Absorbing> = shake128_hasher();
    hasher.update(rho);
    hasher.update(&[i, j]);
    proof {
        assert(absorbed(hasher) =~= xof_input(rho@, i, j));
    }
    hasher.finalize_xof()
}

/// Four [`XOF`] streams over one `rho`, one for each pair of indices.
pub fn XOF_x4(rho: &[u8; 32], indices: [(u8, u8); 4]) -> (r: Shake128X4<Squeezing>)
    ensures
        forall|l: int, n: int|
            0 <= l < 4 && 0 <= n ==> #[trigger] streams_128_x4(r)[(l, n)] == shake128_byte(
                xof_input(rho@, indices@[l].0, indices@[l].1),
                n,
            ),
{
    let mut seeds: [[u8; 34]; 4] = [[0u8; 34]; 4];
    let mut lane: usize = 0;
    while lane < 4
        invariant
            lane <= 4,
            forall|l: int|
                0 <= l < lane ==> (#[trigger] seeds@[l])@ == xof_input(
                    rho@,
                    indices@[l].0,
                    indices@[l].1,
                ),
        decreases 4 - lane,
    {
        let (i, j) = indices[lane];
        seeds[lane] = xof_input_bytes(rho, i, j);
        lane = lane + 1;
    }
    let r: Shake128X4<Squeezing> = shake128_x4_absorb(&seeds);
    proof {
        assert forall|l: int, n: int| 0 <= l < 4 && 0 <= n implies #[trigger] streams_128_x4(
            r,
        )[(l, n)] == shake128_byte(xof_input(rho@, indices@[l].0, indices@[l].1), n) by {
            assert(seeds@[l]@ == xof_input(rho@, indices@[l].0, indices@[l].1));
        }
    }
    r
}

/// The input of an extendable-output stream, assembled.
fn xof_input_bytes(rho: &[u8; 32], i: u8, j: u8) -> (r: [u8; 34])
    ensures
        r@ == xof_input(rho@, i, j),
{
    let mut input: [u8; 34] = [0u8; 34];
    let mut k: usize = 0;
    while k < 32
        invariant
            k <= 32,
            forall|m: int| 0 <= m < k ==> #[trigger] input@[m] == rho@[m],
        decreases 32 - k,
    {
        input[k] = rho[k];
        k = k + 1;
    }
    input[32] = i;
    input[33] = j;
    proof {
        assert(input@ =~= xof_input(rho@, i, j));
    }
    input
}

} // verus!
