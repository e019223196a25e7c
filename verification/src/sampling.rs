//! Sampling of ring elements from pseudorandom bytes.
//!
//! [`TqElement::sample_ntt`] draws a uniform element of the transform domain by
//! rejection. The elements of [`binomial`] and [`noise`] are small elements of
//! the standard domain, drawn from the centered binomial distribution.

use sha3_selkie::{Shake128, Shake128X4, Squeezing};
use vstd::prelude::*;

use crate::algebraic::kernels::zeros;
use crate::algebraic::{FieldElement, PolynomialRingElement, TqElement};
use crate::functions::{
    shake128_byte, shake128_x4_squeeze, stream, streams_128_x4, xof_input, XOF_x4, XOF,
};

pub mod binomial;
pub mod laws;
pub mod noise;

verus! {

/// The twelve low bits of triple `t` of a list of bytes.
pub open spec fn low_candidate(bytes: Seq<u8>, t: int) -> int {
    bytes[3 * t] + 256 * (bytes[3 * t + 1] % 16)
}

/// The twelve high bits of triple `t` of a list of bytes.
pub open spec fn high_candidate(bytes: Seq<u8>, t: int) -> int {
    bytes[3 * t + 1] / 16 + 16 * bytes[3 * t + 2]
}

/// A candidate if it is below `q`, and nothing otherwise.
pub open spec fn keep(candidate: int) -> Seq<int> {
    if candidate < 3329 {
        seq![candidate]
    } else {
        Seq::empty()
    }
}

/// The candidates below `q` of the first `triples` triples, in order.
pub open spec fn accepted(bytes: Seq<u8>, triples: nat) -> Seq<int>
    decreases triples,
{
    if triples == 0 {
        Seq::empty()
    } else {
        let t = (triples - 1) as nat;
        accepted(bytes, t) + keep(low_candidate(bytes, t as int)) + keep(
            high_candidate(bytes, t as int),
        )
    }
}

proof fn lemma_candidates(b0: u8, b1: u8, b2: u8)
    by (bit_vector)
    ensures
        b0 as u16 | ((b1 & 0x0f) as u16) << 8 == b0 + 256 * (b1 % 16),
        (b1 as u16) >> 4 | (b2 as u16) << 4 == b1 / 16 + 16 * b2,
{
}

/// A list that is being filled with the candidates that have been accepted.
pub type RejectBuffer = [FieldElement; 256];

/// Whether the first `count` entries of a buffer hold as much of a list of
/// candidates as fits.
pub open spec fn holds(buffer: Seq<FieldElement>, count: int, list: Seq<int>) -> bool {
    &&& count == if list.len() < 256 {
        list.len() as int
    } else {
        256
    }
    &&& forall|i: int| 0 <= i < count ==> (#[trigger] buffer[i]).rep() == list[i]
}

/// Appends a candidate to a buffer if it is below `q` and there is room.
fn offer(candidate: u16, out: &mut RejectBuffer, count: &mut usize, Ghost(list): Ghost<Seq<int>>)
    requires
        holds(old(out)@, *old(count) as int, list),
    ensures
        holds(final(out)@, *final(count) as int, list + keep(candidate as int)),
        forall|i: int|
            *final(count) <= i < 256 ==> #[trigger] final(out)@[i] == old(out)@[i],
{
    if candidate < 3329 && *count < 256 {
        out[*count] = FieldElement::new(candidate);
        *count = *count + 1;
    }
}

/// Appends the candidates of `bytes` that are below `q` to the first `count`
/// entries of a buffer, until it is full.
///
/// Every three bytes hold two candidates of twelve bits; one or two bytes at
/// the end are not read.
pub fn reject(bytes: &[u8], out: &mut RejectBuffer, count: &mut usize)
    requires
        *old(count) <= 256,
    ensures
        ({
            let list = Seq::new(*old(count) as nat, |i: int| old(out)@[i].rep()) + accepted(
                bytes@,
                bytes@.len() / 3,
            );
            holds(final(out)@, *final(count) as int, list)
        }),
        forall|i: int| *final(count) <= i < 256 ==> #[trigger] final(out)@[i] == old(out)@[i],
{
    let ghost start = Seq::new(*count as nat, |i: int| out@[i].rep());
    let ghost before = out@;
    let length: usize = bytes.len();
    let triples: usize = length / 3;
    let mut t: usize = 0;
    proof {
        assert(start + accepted(bytes@, 0) =~= start);
    }
    while t < triples
        invariant
            t <= triples,
            triples == bytes@.len() / 3,
            bytes@.len() == length,
            holds(out@, *count as int, start + accepted(bytes@, t as nat)),
            forall|i: int| *count <= i < 256 ==> #[trigger] out@[i] == before[i],
        decreases triples - t,
    {
        assert(3 * t + 3 <= bytes@.len());
        let (b0, b1, b2) = (bytes[3 * t], bytes[3 * t + 1], bytes[3 * t + 2]);
        proof {
            lemma_candidates(b0, b1, b2);
        }
        let d1: u16 = b0 as u16 | ((b1 & 0x0f) as u16) << 8;
        let d2: u16 = (b1 as u16) >> 4 | (b2 as u16) << 4;
        let ghost list = start + accepted(bytes@, t as nat);
        offer(d1, out, count, Ghost(list));
        offer(d2, out, count, Ghost(list + keep(d1 as int)));
        t = t + 1;
        proof {
            assert(list + keep(d1 as int) + keep(d2 as int) =~= start + accepted(bytes@, t as nat));
        }
    }
}

/// The first `length` bytes of the stream of an extendable-output input.
pub open spec fn xof_prefix(input: Seq<u8>, length: nat) -> Seq<u8> {
    Seq::new(length, |n: int| shake128_byte(input, n))
}

/// How many blocks of a stream are read at most.
pub const BLOCK_LIMIT: u64 = 0xffff_ffff_ffff_ffff;

/// The element of the transform domain that rejection sampling draws from the
/// stream of an extendable-output input: the first 256 candidates below `q`.
///
/// Reading stops at [`BLOCK_LIMIT`] blocks of 168 bytes; coefficients that a
/// stream has not supplied by then are zero.
pub open spec fn sample_ntt_spec(input: Seq<u8>) -> Seq<int> {
    sampled(accepted(xof_prefix(input, 168 * BLOCK_LIMIT as nat), 56 * BLOCK_LIMIT as nat))
}

/// The first 256 entries of a list, with zeros for those that it lacks.
pub open spec fn sampled(list: Seq<int>) -> Seq<int> {
    Seq::new(
        256,
        |i: int|
            if i < list.len() {
                list[i]
            } else {
                0
            },
    )
}

/// Candidates depend only on the bytes that hold them.
proof fn lemma_accepted_same(x: Seq<u8>, y: Seq<u8>, triples: nat)
    requires
        forall|i: int| 0 <= i < 3 * triples ==> #[trigger] x[i] == y[i],
    ensures
        accepted(x, triples) == accepted(y, triples),
    decreases triples,
{
    if triples > 0 {
        lemma_accepted_same(x, y, (triples - 1) as nat);
    }
}

/// The candidates of a stream are those of its blocks in turn.
proof fn lemma_accepted_append(whole: Seq<u8>, block: Seq<u8>, first: nat, more: nat)
    requires
        forall|i: int| 0 <= i < 3 * more ==> whole[3 * first + i] == #[trigger] block[i],
    ensures
        accepted(whole, first + more) == accepted(whole, first) + accepted(block, more),
    decreases more,
{
    if more == 0 {
        assert(accepted(whole, first) + accepted(block, 0) =~= accepted(whole, first));
    } else {
        let m = (more - 1) as nat;
        lemma_accepted_append(whole, block, first, m);
        let t = (first + m) as int;
        assert(whole[3 * t] == block[3 * (m as int)]);
        assert(whole[3 * t + 1] == block[3 * (m as int) + 1]);
        assert(whole[3 * t + 2] == block[3 * (m as int) + 2]);
        assert(accepted(whole, first + more) =~= accepted(whole, first) + accepted(block, more));
    }
}

/// More bytes only add candidates.
proof fn lemma_accepted_prefix(bytes: Seq<u8>, first: nat, more: nat)
    ensures
        accepted(bytes, first).len() <= accepted(bytes, first + more).len(),
        forall|i: int|
            0 <= i < accepted(bytes, first).len() ==> #[trigger] accepted(bytes, first + more)[i]
                == accepted(bytes, first)[i],
    decreases more,
{
    if more > 0 {
        lemma_accepted_prefix(bytes, first, (more - 1) as nat);
    }
}

/// What rejection sampling has collected after a number of blocks.
spec fn collected(input: Seq<u8>, blocks: nat) -> Seq<int> {
    accepted(xof_prefix(input, 168 * blocks), 56 * blocks)
}

/// A buffer that holds what a number of blocks yield, and zeros after it.
spec fn filled(buffer: Seq<FieldElement>, count: int, input: Seq<u8>, blocks: nat) -> bool {
    &&& holds(buffer, count, collected(input, blocks))
    &&& forall|i: int| count <= i < 256 ==> (#[trigger] buffer[i]).rep() == 0
}

/// Reading on from a number of blocks.
proof fn lemma_collected_more(input: Seq<u8>, blocks: nat, more: nat, block: Seq<u8>)
    requires
        block.len() == 168 * more,
        forall|n: int|
            0 <= n < 168 * more ==> #[trigger] block[n] == shake128_byte(input, n + 168 * blocks),
    ensures
        collected(input, blocks + more) == collected(input, blocks) + accepted(block, 56 * more),
{
    let whole = xof_prefix(input, 168 * (blocks + more));
    let part = xof_prefix(input, 168 * blocks);
    assert forall|i: int| 0 <= i < 3 * (56 * more) implies whole[3 * (56 * blocks) + i]
        == #[trigger] block[i] by {}
    lemma_accepted_append(whole, block, 56 * blocks, 56 * more);
    lemma_accepted_same(whole, part, 56 * blocks);
    assert(56 * (blocks + more) == 56 * blocks + 56 * more);
}

/// A buffer keeps up with the blocks that are offered to it.
proof fn lemma_filled_more(
    before: Seq<FieldElement>,
    had: int,
    after: Seq<FieldElement>,
    count: int,
    input: Seq<u8>,
    blocks: nat,
    more: nat,
    block: Seq<u8>,
)
    requires
        0 <= had <= 256,
        filled(before, had, input, blocks),
        block.len() == 168 * more,
        forall|n: int|
            0 <= n < 168 * more ==> #[trigger] block[n] == shake128_byte(input, n + 168 * blocks),
        holds(
            after,
            count,
            Seq::new(had as nat, |i: int| before[i].rep()) + accepted(block, 56 * more),
        ),
        forall|i: int| count <= i < 256 ==> #[trigger] after[i] == before[i],
    ensures
        filled(after, count, input, blocks + more),
        count <= 256,
{
    let start = Seq::new(had as nat, |i: int| before[i].rep());
    let old_list = collected(input, blocks);
    let new_list = collected(input, blocks + more);
    lemma_collected_more(input, blocks, more, block);
    if had < 256 {
        assert(start =~= old_list);
    } else {
        assert forall|i: int| 0 <= i < 256 implies (#[trigger] after[i]).rep() == new_list[i] by {
            assert(after[i].rep() == (start + accepted(block, 56 * more))[i]);
            assert(before[i].rep() == old_list[i]);
        }
    }
}

/// Every candidate that is kept is a canonical residue.
proof fn lemma_accepted_range(bytes: Seq<u8>, triples: nat)
    ensures
        forall|i: int|
            0 <= i < accepted(bytes, triples).len() ==> 0 <= #[trigger] accepted(bytes, triples)[i]
                < 3329,
    decreases triples,
{
    if triples > 0 {
        let t = (triples - 1) as nat;
        lemma_accepted_range(bytes, t);
        let (low, high) = (low_candidate(bytes, t as int), high_candidate(bytes, t as int));
        let list = accepted(bytes, t);
        assert forall|i: int| 0 <= i < accepted(bytes, triples).len() implies 0
            <= #[trigger] accepted(bytes, triples)[i] < 3329 by {
            if i < list.len() {
                assert(accepted(bytes, triples)[i] == list[i]);
            }
        }
    }
}

/// The coefficients of a sampled element are canonical residues.
pub proof fn lemma_sampled_range(input: Seq<u8>, i: int)
    requires
        0 <= i < 256,
    ensures
        0 <= sample_ntt_spec(input)[i] < 3329,
{
    lemma_accepted_range(
        xof_prefix(input, 168 * BLOCK_LIMIT as nat),
        56 * BLOCK_LIMIT as nat,
    );
}

/// Whether four batched streams stand behind a number of blocks.
spec fn lanes_at(state: Shake128X4<Squeezing>, inputs: Seq<Seq<u8>>, blocks: nat) -> bool {
    forall|l: int, n: int|
        0 <= l < 4 && 0 <= n ==> #[trigger] streams_128_x4(state)[(l, n)] == shake128_byte(
            inputs[l],
            n + 168 * blocks,
        )
}

/// Batched streams advance by what is squeezed from them.
proof fn lemma_lanes_advance(
    before: Shake128X4<Squeezing>,
    after: Shake128X4<Squeezing>,
    inputs: Seq<Seq<u8>>,
    blocks: nat,
    more: nat,
)
    requires
        lanes_at(before, inputs, blocks),
        forall|l: int, n: int|
            0 <= l < 4 && 0 <= n ==> #[trigger] streams_128_x4(after)[(l, n)] == streams_128_x4(
                before,
            )[(l, n + 168 * more)],
    ensures
        lanes_at(after, inputs, blocks + more),
{
    assert forall|l: int, n: int| 0 <= l < 4 && 0 <= n implies #[trigger] streams_128_x4(
        after,
    )[(l, n)] == shake128_byte(inputs[l], n + 168 * (blocks + more)) by {
        let m = n + 168 * more;
        assert(streams_128_x4(after)[(l, n)] == streams_128_x4(before)[(l, m)]);
        assert(m + 168 * blocks == n + 168 * (blocks + more));
    }
}

/// A full buffer, or one that has seen every block, holds the sampled element.
proof fn lemma_filled(buffer: Seq<FieldElement>, count: int, input: Seq<u8>, blocks: nat)
    requires
        buffer.len() == 256,
        filled(buffer, count, input, blocks),
        blocks <= BLOCK_LIMIT,
        count == 256 || blocks == BLOCK_LIMIT,
    ensures
        forall|i: int|
            0 <= i < 256 ==> (#[trigger] buffer[i]).rep() == sample_ntt_spec(input)[i],
{
    let limit = BLOCK_LIMIT as nat;
    let more = (limit - blocks) as nat;
    let whole = xof_prefix(input, 168 * limit);
    let part = xof_prefix(input, 168 * blocks);
    lemma_accepted_same(whole, part, 56 * blocks);
    lemma_accepted_prefix(whole, 56 * blocks, 56 * more);
    assert(56 * limit == 56 * blocks + 56 * more);
    let list = accepted(whole, 56 * limit);
    assert forall|i: int| 0 <= i < 256 implies (#[trigger] buffer[i]).rep() == sampled(list)[i] by {
        if i < count {
            assert(list[i] == collected(input, blocks)[i]);
        }
    }
}

impl TqElement {
    /// Draws an element of the transform domain by rejection from the stream
    /// of `rho`, `i` and `j`.
    ///
    /// Reads the stream one block at a time, takes every three bytes as two
    /// candidates of twelve bits, and keeps each candidate below `q` until 256
    /// coefficients have been collected.
    pub fn sample_ntt(rho: &[u8; 32], i: u8, j: u8) -> (r: Self)
        ensures
            r@ == sample_ntt_spec(xof_input(rho@, i, j)),
            r.bounded(3328),
    {
        let ghost input = xof_input(rho@, i, j);
        let mut reader: Shake128<Squeezing> = XOF(rho, i, j);
        let mut buffer: RejectBuffer = zeros();
        let mut count: usize = 0;
        let mut block: [u8; 168] = [0u8; 168];
        let mut blocks: u64 = 0;
        proof {
            assert(collected(input, 0) =~= Seq::empty());
        }
        while count < 256 && blocks < BLOCK_LIMIT
            invariant
                count <= 256,
                blocks <= BLOCK_LIMIT,
                filled(buffer@, count as int, input, blocks as nat),
                forall|n: int|
                    0 <= n ==> #[trigger] stream(reader)[n] == shake128_byte(
                        input,
                        n + 168 * blocks,
                    ),
            decreases BLOCK_LIMIT - blocks,
        {
            let ghost before = reader;
            let ghost (held, had) = (buffer@, count);
            reader.read(&mut block);
            proof {
                assert forall|n: int| 0 <= n < 168 implies #[trigger] block@[n] == shake128_byte(
                    input,
                    n + 168 * blocks as nat,
                ) by {
                    assert(block@[n] == stream(before)[n]);
                }
                assert forall|n: int| 0 <= n implies #[trigger] stream(reader)[n] == shake128_byte(
                    input,
                    n + 168 * (blocks + 1),
                ) by {
                    assert(stream(reader)[n] == stream(before)[n + 168]);
                }
            }
            reject(&block, &mut buffer, &mut count);
            proof {
                lemma_filled_more(
                    held,
                    had as int,
                    buffer@,
                    count as int,
                    input,
                    blocks as nat,
                    1,
                    block@,
                );
            }
            blocks = blocks + 1;
        }
        proof {
            lemma_filled(buffer@, count as int, input, blocks as nat);
        }
        Self::from_reject_buffer(&buffer, Ghost(input))
    }

    /// The element whose coefficients a full buffer holds.
    fn from_reject_buffer(buffer: &RejectBuffer, Ghost(input): Ghost<Seq<u8>>) -> (r: Self)
        requires
            forall|i: int|
                0 <= i < 256 ==> (#[trigger] buffer@[i]).rep() == sample_ntt_spec(input)[i],
        ensures
            r@ == sample_ntt_spec(input),
            r.bounded(3328),
    {
        let r: TqElement = TqElement::new(*buffer);
        proof {
            assert forall|i: int| 0 <= i < 256 implies 0 <= #[trigger] sample_ntt_spec(input)[i]
                < 3329 by {
                lemma_sampled_range(input, i);
            }
            assert forall|i: int| 0 <= i < 256 implies r@[i] == sample_ntt_spec(input)[i] by {
                assert(r.elements()[i] == buffer@[i]);
            }
            assert(r@ =~= sample_ntt_spec(input));
        }
        r
    }

    /// Draws four elements at once; each equals [`TqElement::sample_ntt`] of the
    /// same `rho` and pair of indices.
    pub fn sample_ntt_x4(rho: &[u8; 32], indices: [(u8, u8); 4]) -> (r: [Self; 4])
        ensures
            forall|l: int|
                0 <= l < 4 ==> (#[trigger] r@[l])@ == sample_ntt_spec(
                    xof_input(rho@, indices@[l].0, indices@[l].1),
                ) && r@[l].bounded(3328),
    {
        let ghost inputs = Seq::new(4, |l: int| xof_input(rho@, indices@[l].0, indices@[l].1));
        let mut state: Shake128X4<Squeezing> = XOF_x4(rho, indices);
        let mut buffers: [RejectBuffer; 4] = [zeros(); 4];
        let mut counts: [usize; 4] = [0usize; 4];
        let mut first: [[u8; 504]; 4] = [[0u8; 504]; 4];
        proof {
            assert forall|l: int| 0 <= l < 4 implies filled(
                (#[trigger] buffers@[l])@,
                counts@[l] as int,
                inputs[l],
                0,
            ) by {
                assert(collected(inputs[l], 0) =~= Seq::empty());
            }
        }
        let ghost start = state;
        shake128_x4_squeeze::<504>(&mut state, &mut first);
        proof {
            assert forall|l: int, n: int| 0 <= l < 4 && 0 <= n < 504 implies #[trigger] first@[l]@[n]
                == shake128_byte(inputs[l], n + 168 * 0nat) by {
                assert(first@[l]@[n] == streams_128_x4(start)[(l, n)]);
            }
            lemma_lanes_advance(start, state, inputs, 0, 3);
        }
        let mut done: bool = Self::reject_into(
            &first,
            &mut buffers,
            &mut counts,
            Ghost(inputs),
            Ghost(0),
            Ghost(3),
        );
        let mut blocks: u64 = 3;
        while !done && blocks < BLOCK_LIMIT
            invariant
                inputs.len() == 4,
                3 <= blocks <= BLOCK_LIMIT,
                done == (forall|l: int| 0 <= l < 4 ==> #[trigger] counts@[l] >= 256),
                forall|l: int|
                    0 <= l < 4 ==> #[trigger] counts@[l] <= 256 && filled(
                        buffers@[l]@,
                        counts@[l] as int,
                        inputs[l],
                        blocks as nat,
                    ),
                lanes_at(state, inputs, blocks as nat),
            decreases BLOCK_LIMIT - blocks,
        {
            let mut next: [[u8; 168]; 4] = [[0u8; 168]; 4];
            let ghost before = state;
            shake128_x4_squeeze::<168>(&mut state, &mut next);
            proof {
                assert forall|l: int, n: int| 0 <= l < 4 && 0 <= n < 168 implies #[trigger] next@[l]@[n]
                    == shake128_byte(inputs[l], n + 168 * blocks as nat) by {
                    assert(next@[l]@[n] == streams_128_x4(before)[(l, n)]);
                }
                lemma_lanes_advance(before, state, inputs, blocks as nat, 1);
            }
            done = Self::reject_into(
                &next,
                &mut buffers,
                &mut counts,
                Ghost(inputs),
                Ghost(blocks as nat),
                Ghost(1),
            );
            blocks = blocks + 1;
        }
        proof {
            assert forall|l: int| 0 <= l < 4 implies forall|i: int|
                0 <= i < 256 ==> (#[trigger] (#[trigger] buffers@[l])@[i]).rep() == sample_ntt_spec(
                    inputs[l],
                )[i] by {
                assert(counts@[l] <= 256);
                lemma_filled(buffers@[l]@, counts@[l] as int, inputs[l], blocks as nat);
            }
        }
        [
            Self::from_reject_buffer(&buffers[0], Ghost(inputs[0])),
            Self::from_reject_buffer(&buffers[1], Ghost(inputs[1])),
            Self::from_reject_buffer(&buffers[2], Ghost(inputs[2])),
            Self::from_reject_buffer(&buffers[3], Ghost(inputs[3])),
        ]
    }

    /// Offers one squeezed run of bytes per lane to the buffers, and tells
    /// whether every lane is full.
    fn reject_into<const B: usize>(
        runs: &[[u8; B]; 4],
        buffers: &mut [RejectBuffer; 4],
        counts: &mut [usize; 4],
        Ghost(inputs): Ghost<Seq<Seq<u8>>>,
        Ghost(blocks): Ghost<nat>,
        Ghost(more): Ghost<nat>,
    ) -> (done: bool)
        requires
            B == 168 * more,
            inputs.len() == 4,
            forall|l: int|
                0 <= l < 4 ==> #[trigger] old(counts)@[l] <= 256 && filled(
                    old(buffers)@[l]@,
                    old(counts)@[l] as int,
                    inputs[l],
                    blocks,
                ),
            forall|l: int, n: int|
                0 <= l < 4 && 0 <= n < B ==> #[trigger] runs@[l]@[n] == shake128_byte(
                    inputs[l],
                    n + 168 * blocks,
                ),
        ensures
            done == (forall|l: int| 0 <= l < 4 ==> #[trigger] final(counts)@[l] >= 256),
            forall|l: int|
                0 <= l < 4 ==> #[trigger] final(counts)@[l] <= 256 && filled(
                    final(buffers)@[l]@,
                    final(counts)@[l] as int,
                    inputs[l],
                    blocks + more,
                ),
    {
        let mut done: bool = true;
        let mut lane: usize = 0;
        while lane < 4
            invariant
                lane <= 4,
                B == 168 * more,
                inputs.len() == 4,
                forall|l: int, n: int|
                    0 <= l < 4 && 0 <= n < B ==> #[trigger] runs@[l]@[n] == shake128_byte(
                        inputs[l],
                        n + 168 * blocks,
                    ),
                forall|l: int|
                    lane <= l < 4 ==> #[trigger] counts@[l] <= 256 && filled(
                        buffers@[l]@,
                        counts@[l] as int,
                        inputs[l],
                        blocks,
                    ),
                forall|l: int|
                    0 <= l < lane ==> #[trigger] counts@[l] <= 256 && filled(
                        buffers@[l]@,
                        counts@[l] as int,
                        inputs[l],
                        blocks + more,
                    ),
                done == (forall|l: int| 0 <= l < lane ==> #[trigger] counts@[l] >= 256),
            decreases 4 - lane,
        {
            let mut buffer: RejectBuffer = buffers[lane];
            let mut count: usize = counts[lane];
            let ghost input = inputs[lane as int];
            proof {
                assert(counts@[lane as int] <= 256);
            }
            let ghost before = buffer@;
            let ghost had = count;
            reject(&runs[lane], &mut buffer, &mut count);
            proof {
                lemma_filled_more(
                    before,
                    had as int,
                    buffer@,
                    count as int,
                    input,
                    blocks,
                    more,
                    runs@[lane as int]@,
                );
            }
            let ghost old_counts = counts@;
            buffers[lane] = buffer;
            counts[lane] = count;
            proof {
                assert(counts@ =~= old_counts.update(lane as int, count));
                assert(forall|l: int| 0 <= l < lane ==> counts@[l] == #[trigger] old_counts[l]);
            }
            if count < 256 {
                done = false;
                assert(counts@[lane as int] < 256);
            }
            lane = lane + 1;
        }
        done
    }
}

} // verus!
