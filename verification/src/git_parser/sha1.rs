//! SHA-1 (FIPS 180-4), used to compute commit object hashes.
use vstd::prelude::*;

use crate::git_parser::hex::{encode_lower, hex_lower};

verus! {

/// Addition modulo 2^32.
pub open spec fn add32(x: u32, y: u32) -> u32 {
    if x + y > u32::MAX {
        (x + y - 0x1_0000_0000) as u32
    } else {
        (x + y) as u32
    }
}

pub open spec fn rotl1(x: u32) -> u32 {
    (x << 1u32) | (x >> 31u32)
}

pub open spec fn rotl5(x: u32) -> u32 {
    (x << 5u32) | (x >> 27u32)
}

pub open spec fn rotl30(x: u32) -> u32 {
    (x << 30u32) | (x >> 2u32)
}

/// The big-endian word at bytes `4i .. 4i + 4` of a block.
pub open spec fn block_word(block: Seq<u8>, i: int) -> u32 {
    ((block[4 * i] as u32) << 24u32) | ((block[4 * i + 1] as u32) << 16u32) | ((block[4 * i
        + 2] as u32) << 8u32) | (block[4 * i + 3] as u32)
}

/// The message schedule `W_t`.
pub open spec fn schedule(block: Seq<u8>, t: int) -> u32
    decreases t,
{
    if t < 16 {
        block_word(block, t)
    } else {
        rotl1(
            schedule(block, t - 3) ^ schedule(block, t - 8) ^ schedule(block, t - 14) ^ schedule(
                block,
                t - 16,
            ),
        )
    }
}

/// The logical function `f_t`.
pub open spec fn round_f(t: int, b: u32, c: u32, d: u32) -> u32 {
    if t < 20 {
        (b & c) | (!b & d)
    } else if t < 40 {
        b ^ c ^ d
    } else if t < 60 {
        (b & c) | (b & d) | (c & d)
    } else {
        b ^ c ^ d
    }
}

/// The round constant `K_t`.
pub open spec fn round_k(t: int) -> u32 {
    if t < 20 {
        0x5A827999
    } else if t < 40 {
        0x6ED9EBA1
    } else if t < 60 {
        0x8F1BBCDC
    } else {
        0xCA62C1D6
    }
}

/// The working variables `(a, b, c, d, e)`.
pub struct Words {
    pub a: u32,
    pub b: u32,
    pub c: u32,
    pub d: u32,
    pub e: u32,
}

pub open spec fn round(s: Words, t: int, w: u32) -> Words {
    Words {
        a: add32(add32(add32(add32(rotl5(s.a), round_f(t, s.b, s.c, s.d)), s.e), round_k(t)), w),
        b: s.a,
        c: rotl30(s.b),
        d: s.c,
        e: s.d,
    }
}

/// The working variables after the first `t` rounds on a block.
pub open spec fn rounds(block: Seq<u8>, init: Words, t: nat) -> Words
    decreases t,
{
    if t == 0 {
        init
    } else {
        let prev = rounds(block, init, (t - 1) as nat);
        round(prev, t - 1, schedule(block, t - 1))
    }
}

pub open spec fn words_of(h: Seq<u32>) -> Words {
    Words { a: h[0], b: h[1], c: h[2], d: h[3], e: h[4] }
}

/// The hash value after one more 64-byte block.
pub open spec fn compress(h: Seq<u32>, block: Seq<u8>) -> Seq<u32> {
    let r = rounds(block, words_of(h), 80);
    seq![add32(h[0], r.a), add32(h[1], r.b), add32(h[2], r.c), add32(h[3], r.d), add32(h[4], r.e)]
}

pub open spec fn initial_hash() -> Seq<u32> {
    seq![0x67452301u32, 0xEFCDAB89u32, 0x98BADCFEu32, 0x10325476u32, 0xC3D2E1F0u32]
}

/// The big-endian bytes of a 64-bit number.
pub open spec fn be64(v: u64) -> Seq<u8> {
    seq![
        (v >> 56u64) as u8,
        (v >> 48u64) as u8,
        (v >> 40u64) as u8,
        (v >> 32u64) as u8,
        (v >> 24u64) as u8,
        (v >> 16u64) as u8,
        (v >> 8u64) as u8,
        v as u8,
    ]
}

/// The big-endian bytes of a 32-bit number.
pub open spec fn be32(v: u32) -> Seq<u8> {
    seq![(v >> 24u32) as u8, (v >> 16u32) as u8, (v >> 8u32) as u8, v as u8]
}

/// The number of zero bytes between the `0x80` marker and the length.
pub open spec fn zero_count(len: nat) -> nat {
    ((55 - len as int) % 64) as nat
}

/// The padded message: the message, `0x80`, zeros up to 56 modulo 64, and the
/// bit length as a big-endian 64-bit number.
pub open spec fn pad(msg: Seq<u8>) -> Seq<u8> {
    msg + seq![0x80u8] + Seq::new(zero_count(msg.len()), |i: int| 0u8) + be64(
        (msg.len() * 8) as u64,
    )
}

/// The hash value after the first `n` blocks of `m`.
pub open spec fn hash_blocks(m: Seq<u8>, n: nat) -> Seq<u32>
    decreases n,
{
    if n == 0 {
        initial_hash()
    } else {
        compress(hash_blocks(m, (n - 1) as nat), m.subrange(64 * (n - 1), 64 * n as int))
    }
}

/// The 20-byte SHA-1 digest of a message.
pub open spec fn sha1(msg: Seq<u8>) -> Seq<u8> {
    let p = pad(msg);
    let h = hash_blocks(p, p.len() / 64);
    be32(h[0]) + be32(h[1]) + be32(h[2]) + be32(h[3]) + be32(h[4])
}

fn rotl1_exec(x: u32) -> (r: u32)
    ensures
        r == rotl1(x),
{
    (x << 1u32) | (x >> 31u32)
}

fn rotl5_exec(x: u32) -> (r: u32)
    ensures
        r == rotl5(x),
{
    (x << 5u32) | (x >> 27u32)
}

fn rotl30_exec(x: u32) -> (r: u32)
    ensures
        r == rotl30(x),
{
    (x << 30u32) | (x >> 2u32)
}

/// One application of the compression function to `state`.
pub fn process_block(state: &mut [u32; 5], block: &[u8])
    requires
        block@.len() >= 64,
    ensures
        final(state)@ == compress(old(state)@, block@),
{
    let mut w: Vec<u32> = Vec::new();
    let mut i: usize = 0;
    while i < 16
        invariant
            i <= 16,
            block@.len() >= 64,
            w@.len() == i,
            forall|j: int| 0 <= j < i ==> w@[j] == #[trigger] schedule(block@, j),
        decreases 16 - i,
    {
        let word = ((block[i * 4] as u32) << 24u32) | ((block[i * 4 + 1] as u32) << 16u32) | ((
        block[i * 4 + 2] as u32) << 8u32) | (block[i * 4 + 3] as u32);
        w.push(word);
        assert(w@[i as int] == schedule(block@, i as int));
        i = i + 1;
    }
    while i < 80
        invariant
            16 <= i <= 80,
            w@.len() == i,
            forall|j: int| 0 <= j < i ==> w@[j] == #[trigger] schedule(block@, j),
        decreases 80 - i,
    {
        let x = rotl1_exec(w[i - 3] ^ w[i - 8] ^ w[i - 14] ^ w[i - 16]);
        proof {
            assert(w@[i - 3] == schedule(block@, i - 3));
            assert(w@[i - 8] == schedule(block@, i - 8));
            assert(w@[i - 14] == schedule(block@, i - 14));
            assert(w@[i - 16] == schedule(block@, i - 16));
        }
        w.push(x);
        assert(w@[i as int] == schedule(block@, i as int));
        i = i + 1;
    }
    let ghost init = words_of(state@);
    let mut a = state[0];
    let mut b = state[1];
    let mut c = state[2];
    let mut d = state[3];
    let mut e = state[4];
    let mut t: usize = 0;
    while t < 80
        invariant
            t <= 80,
            w@.len() == 80,
            forall|j: int| 0 <= j < 80 ==> w@[j] == #[trigger] schedule(block@, j),
            rounds(block@, init, t as nat) == (Words { a, b, c, d, e }),
        decreases 80 - t,
    {
        let (f, k): (u32, u32) = if t < 20 {
            ((b & c) | (!b & d), 0x5A827999u32)
        } else if t < 40 {
            (b ^ c ^ d, 0x6ED9EBA1u32)
        } else if t < 60 {
            ((b & c) | (b & d) | (c & d), 0x8F1BBCDCu32)
        } else {
            (b ^ c ^ d, 0xCA62C1D6u32)
        };
        let temp = rotl5_exec(a).wrapping_add(f).wrapping_add(e).wrapping_add(k).wrapping_add(
            w[t],
        );
        assert(w@[t as int] == schedule(block@, t as int));
        e = d;
        d = c;
        c = rotl30_exec(b);
        b = a;
        a = temp;
        t = t + 1;
    }
    let ghost old_state = state@;
    let n0 = state[0].wrapping_add(a);
    let n1 = state[1].wrapping_add(b);
    let n2 = state[2].wrapping_add(c);
    let n3 = state[3].wrapping_add(d);
    let n4 = state[4].wrapping_add(e);
    state.set(0, n0);
    state.set(1, n1);
    state.set(2, n2);
    state.set(3, n3);
    state.set(4, n4);
    assert(state@ =~= compress(old_state, block@));
}

/// The big-endian bytes of the first `k` words of `h`.
pub open spec fn words_be(h: Seq<u32>, k: nat) -> Seq<u8>
    decreases k,
{
    if k == 0 {
        seq![]
    } else {
        words_be(h, (k - 1) as nat) + be32(h[k - 1])
    }
}

/// The message padded to a whole number of 64-byte blocks.
fn pad_message(data: &[u8]) -> (r: Vec<u8>)
    requires
        data@.len() < 0x2000_0000_0000_0000,
    ensures
        r@ == pad(data@),
{
    let mut padded: Vec<u8> = Vec::new();
    let mut i: usize = 0;
    while i < data.len()
        invariant
            i <= data@.len(),
            padded@ == data@.take(i as int),
        decreases data.len() - i,
    {
        padded.push(data[i]);
        assert(data@.take(i + 1) =~= data@.take(i as int).push(data@[i as int]));
        i = i + 1;
    }
    assert(data@.take(data@.len() as int) =~= data@);
    let bit_len: u64 = (data.len() as u64) * 8;
    padded.push(0x80);
    let zeros: usize = (119 - data.len() % 64) % 64;
    assert(zeros == zero_count(data@.len()));
    let mut z: usize = 0;
    while z < zeros
        invariant
            z <= zeros,
            zeros == zero_count(data@.len()),
            data@.len() < 0x2000_0000_0000_0000,
            padded@ == data@ + seq![0x80u8] + Seq::new(z as nat, |k: int| 0u8),
        decreases zeros - z,
    {
        padded.push(0);
        assert(Seq::new((z + 1) as nat, |k: int| 0u8) =~= Seq::new(z as nat, |k: int| 0u8).push(
            0u8,
        ));
        z = z + 1;
    }
    padded.push((bit_len >> 56u64) as u8);
    padded.push((bit_len >> 48u64) as u8);
    padded.push((bit_len >> 40u64) as u8);
    padded.push((bit_len >> 32u64) as u8);
    padded.push((bit_len >> 24u64) as u8);
    padded.push((bit_len >> 16u64) as u8);
    padded.push((bit_len >> 8u64) as u8);
    padded.push(bit_len as u8);
    assert(padded@ =~= pad(data@));
    padded
}

/// The big-endian bytes of the five state words.
fn digest_bytes(state: &[u32; 5]) -> (r: Vec<u8>)
    ensures
        r@ == words_be(state@, 5),
{
    let mut digest: Vec<u8> = Vec::new();
    let mut k: usize = 0;
    while k < 5
        invariant
            k <= 5,
            state@.len() == 5,
            digest@ == words_be(state@, k as nat),
        decreases 5 - k,
    {
        let word = state[k];
        digest.push((word >> 24u32) as u8);
        digest.push((word >> 16u32) as u8);
        digest.push((word >> 8u32) as u8);
        digest.push(word as u8);
        assert(digest@ =~= words_be(state@, (k + 1) as nat));
        k = k + 1;
    }
    digest
}

/// The SHA-1 digest of `data` as 40 lowercase hex digits.
pub fn compute_sha1(data: &[u8]) -> (r: String)
    requires
        data@.len() < 0x2000_0000_0000_0000,
    ensures
        r@ == hex_lower(sha1(data@)),
{
    let padded = pad_message(data);
    let plen = padded.len();
    let nblocks = plen / 64;
    assert(padded@.len() % 64 == 0);
    let mut state: [u32; 5] = [0x67452301u32, 0xEFCDAB89u32, 0x98BADCFEu32, 0x10325476u32, 0xC3D2E1F0u32];
    assert(state@ =~= initial_hash());
    let mut n: usize = 0;
    while n < nblocks
        invariant
            n <= nblocks,
            plen == padded@.len(),
            nblocks * 64 == plen,
            state@ == hash_blocks(padded@, n as nat),
        decreases nblocks - n,
    {
        let block = vstd::slice::slice_subrange(padded.as_slice(), 64 * n, 64 * n + 64);
        process_block(&mut state, block);
        n = n + 1;
    }
    let digest = digest_bytes(&state);
    proof {
        reveal_with_fuel(words_be, 6);
        assert(digest@ =~= sha1(data@));
    }
    encode_lower(digest.as_slice())
}

} // verus!
