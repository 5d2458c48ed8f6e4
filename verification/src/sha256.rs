//! SHA-256 (FIPS 180-4) over byte slices, with the standard's definition
//! written out as spec functions and every executable step proved against it.
use vstd::prelude::*;

verus! {

/// The initial hash value H(0).
pub const INITIAL_STATE: [u32; 8] = [
    0x6a09e667, 0xbb67ae85, 0x3c6ef372, 0xa54ff53a, 0x510e527f, 0x9b05688c, 0x1f83d9ab, 0x5be0cd19,
];

/// The sixty-four round constants.
pub const K: [u32; 64] = [
    0x428a2f98, 0x71374491, 0xb5c0fbcf, 0xe9b5dba5, 0x3956c25b, 0x59f111f1, 0x923f82a4, 0xab1c5ed5,
    0xd807aa98, 0x12835b01, 0x243185be, 0x550c7dc3, 0x72be5d74, 0x80deb1fe, 0x9bdc06a7, 0xc19bf174,
    0xe49b69c1, 0xefbe4786, 0x0fc19dc6, 0x240ca1cc, 0x2de92c6f, 0x4a7484aa, 0x5cb0a9dc, 0x76f988da,
    0x983e5152, 0xa831c66d, 0xb00327c8, 0xbf597fc7, 0xc6e00bf3, 0xd5a79147, 0x06ca6351, 0x14292967,
    0x27b70a85, 0x2e1b2138, 0x4d2c6dfc, 0x53380d13, 0x650a7354, 0x766a0abb, 0x81c2c92e, 0x92722c85,
    0xa2bfe8a1, 0xa81a664b, 0xc24b8b70, 0xc76c51a3, 0xd192e819, 0xd6990624, 0xf40e3585, 0x106aa070,
    0x19a4c116, 0x1e376c08, 0x2748774c, 0x34b0bcb5, 0x391c0cb3, 0x4ed8aa4a, 0x5b9cca4f, 0x682e6ff3,
    0x748f82ee, 0x78a5636f, 0x84c87814, 0x8cc70208, 0x90befffa, 0xa4506ceb, 0xbef9a3f7, 0xc67178f2,
];

// ---------------------------------------------------------------------------
// The standard, as spec functions
// ---------------------------------------------------------------------------

/// Right rotation of a 32-bit word by `n` places, `0 < n < 32`.
pub open spec fn rotr(x: u32, n: u32) -> u32 {
    (x >> n) | (x << ((32 - n) as u32))
}

pub open spec fn ssig0(x: u32) -> u32 {
    rotr(x, 7) ^ rotr(x, 18) ^ (x >> 3u32)
}

pub open spec fn ssig1(x: u32) -> u32 {
    rotr(x, 17) ^ rotr(x, 19) ^ (x >> 10u32)
}

pub open spec fn bsig0(x: u32) -> u32 {
    rotr(x, 2) ^ rotr(x, 13) ^ rotr(x, 22)
}

pub open spec fn bsig1(x: u32) -> u32 {
    rotr(x, 6) ^ rotr(x, 11) ^ rotr(x, 25)
}

pub open spec fn ch_spec(x: u32, y: u32, z: u32) -> u32 {
    (x & y) ^ (!x & z)
}

pub open spec fn maj_spec(x: u32, y: u32, z: u32) -> u32 {
    (x & y) ^ (x & z) ^ (y & z)
}

/// Number of zero bytes between the 0x80 marker and the length field.
pub open spec fn pad_zero_count(len: nat) -> nat {
    ((119 - (len % 64) as int) % 64) as nat
}

/// The big-endian bytes of a 64-bit value.
pub open spec fn u64_be_bytes(x: u64) -> Seq<u8> {
    seq![
        (x >> 56u64) as u8,
        (x >> 48u64) as u8,
        (x >> 40u64) as u8,
        (x >> 32u64) as u8,
        (x >> 24u64) as u8,
        (x >> 16u64) as u8,
        (x >> 8u64) as u8,
        x as u8,
    ]
}

/// The padded message: the input, the marker byte 0x80, zeros, and the
/// input's length in bits as a big-endian 64-bit integer.
pub open spec fn pad_spec(msg: Seq<u8>) -> Seq<u8> {
    msg + seq![0x80u8] + Seq::new(pad_zero_count(msg.len()), |i: int| 0u8) + u64_be_bytes(
        (msg.len() * 8) as u64,
    )
}

/// The 32-bit big-endian word that starts at byte `i`.
pub open spec fn be_word(b: Seq<u8>, i: int) -> u32 {
    ((b[i] as u32) << 24u32) | ((b[i + 1] as u32) << 16u32) | ((b[i + 2] as u32) << 8u32) | (
    b[i + 3] as u32)
}

/// The sixteen words of block number `blk` of a padded message.
pub open spec fn block_words(p: Seq<u8>, blk: int) -> Seq<u32> {
    Seq::new(16, |j: int| be_word(p, blk * 64 + 4 * j))
}

/// Word `t` of the message schedule of a block.
pub open spec fn schedule_word(w: Seq<u32>, t: nat) -> u32
    decreases t,
{
    if t < 16 {
        w[t as int]
    } else {
        ssig1(schedule_word(w, (t - 2) as nat)).wrapping_add(
            schedule_word(w, (t - 7) as nat),
        ).wrapping_add(ssig0(schedule_word(w, (t - 15) as nat))).wrapping_add(
            schedule_word(w, (t - 16) as nat),
        )
    }
}

/// The whole 64-word message schedule.
pub open spec fn schedule_spec(w: Seq<u32>) -> Seq<u32> {
    Seq::new(64, |t: int| schedule_word(w, t as nat))
}

/// One compression round on the working variables a..h.
pub open spec fn round_step(s: Seq<u32>, k: u32, w: u32) -> Seq<u32> {
    let t1 = s[7].wrapping_add(bsig1(s[4])).wrapping_add(ch_spec(s[4], s[5], s[6])).wrapping_add(
        k,
    ).wrapping_add(w);
    let t2 = bsig0(s[0]).wrapping_add(maj_spec(s[0], s[1], s[2]));
    seq![t1.wrapping_add(t2), s[0], s[1], s[2], s[3].wrapping_add(t1), s[4], s[5], s[6]]
}

/// The working variables after the first `t` rounds.
pub open spec fn rounds(s: Seq<u32>, sched: Seq<u32>, t: nat) -> Seq<u32>
    decreases t,
{
    if t == 0 {
        s
    } else {
        round_step(rounds(s, sched, (t - 1) as nat), K@[t - 1], sched[t - 1])
    }
}

/// The compression function: the hash value after one block.
pub open spec fn compress_spec(h: Seq<u32>, w: Seq<u32>) -> Seq<u32> {
    let r = rounds(h, schedule_spec(w), 64);
    Seq::new(8, |i: int| h[i].wrapping_add(r[i]))
}

/// The hash value after the first `n` blocks of a padded message.
pub open spec fn hash_state(p: Seq<u8>, n: nat) -> Seq<u32>
    decreases n,
{
    if n == 0 {
        INITIAL_STATE@
    } else {
        compress_spec(hash_state(p, (n - 1) as nat), block_words(p, n - 1))
    }
}

/// Byte `k` (0 = most significant) of a word.
pub open spec fn word_byte(w: u32, k: int) -> u8 {
    if k == 0 {
        (w >> 24u32) as u8
    } else if k == 1 {
        (w >> 16u32) as u8
    } else if k == 2 {
        (w >> 8u32) as u8
    } else {
        w as u8
    }
}

/// The 32-byte digest of a final hash value.
pub open spec fn state_bytes(h: Seq<u32>) -> Seq<u8> {
    Seq::new(32, |i: int| word_byte(h[i / 4], i % 4))
}

/// SHA-256 of a message.
pub open spec fn sha256_spec(msg: Seq<u8>) -> Seq<u8> {
    let p = pad_spec(msg);
    state_bytes(hash_state(p, p.len() / 64))
}

/// A message that SHA-256 accepts and that can be padded in memory.
pub open spec fn hashable(msg: Seq<u8>) -> bool {
    &&& msg.len() * 8 <= u64::MAX
    &&& msg.len() + 72 <= usize::MAX
}

/// Lowercase hexadecimal digit of a value below 16.
pub open spec fn hex_digit(n: u8) -> u8 {
    if n < 10 {
        (n + 48) as u8
    } else {
        (n + 87) as u8
    }
}

/// Two lowercase hexadecimal digits per byte, most significant first.
pub open spec fn hex_lower(d: Seq<u8>) -> Seq<u8> {
    Seq::new(2 * d.len(), |i: int| if i % 2 == 0 { hex_digit(d[i / 2] / 16) } else { hex_digit(d[i / 2] % 16) })
}

// ---------------------------------------------------------------------------
// Arithmetic facts
// ---------------------------------------------------------------------------

proof fn lemma_padded_len(len: nat)
    ensures
        (len + 1 + pad_zero_count(len) + 8) % 64 == 0,
        (len + 1 + pad_zero_count(len)) % 64 == 56,
        pad_zero_count(len) < 64,
{
    let r = (len % 64) as int;
    assert(len == 64 * (len / 64) + r) by {
        vstd::arithmetic::div_mod::lemma_fundamental_div_mod(len as int, 64);
    }
    let q = (len / 64) as int;
    if r <= 55 {
        assert(pad_zero_count(len) == 55 - r);
        assert(len + 1 + pad_zero_count(len) + 8 == 64 * q + 64);
        assert((64 * q + 64) % 64 == 0) by {
            vstd::arithmetic::div_mod::lemma_mod_multiples_basic(q + 1, 64);
        }
        assert((64 * q + 56) % 64 == 56) by {
            vstd::arithmetic::div_mod::lemma_mod_multiples_vanish(q, 56, 64);
        }
    } else {
        assert(pad_zero_count(len) == 119 - r);
        assert(len + 1 + pad_zero_count(len) + 8 == 64 * q + 128);
        assert((64 * q + 128) % 64 == 0) by {
            vstd::arithmetic::div_mod::lemma_mod_multiples_basic(q + 2, 64);
        }
        assert((64 * (q + 1) + 56) % 64 == 56) by {
            vstd::arithmetic::div_mod::lemma_mod_multiples_vanish(q + 1, 56, 64);
        }
    }
}

// ---------------------------------------------------------------------------
// Executable code
// ---------------------------------------------------------------------------

fn rotate_right(x: u32, n: u32) -> (r: u32)
    requires
        0 < n < 32,
    ensures
        r == rotr(x, n),
{
    (x >> n) | (x << (32 - n))
}

fn small_sigma0(x: u32) -> (r: u32)
    ensures
        r == ssig0(x),
{
    rotate_right(x, 7) ^ rotate_right(x, 18) ^ (x >> 3)
}

fn small_sigma1(x: u32) -> (r: u32)
    ensures
        r == ssig1(x),
{
    rotate_right(x, 17) ^ rotate_right(x, 19) ^ (x >> 10)
}

fn big_sigma0(x: u32) -> (r: u32)
    ensures
        r == bsig0(x),
{
    rotate_right(x, 2) ^ rotate_right(x, 13) ^ rotate_right(x, 22)
}

fn big_sigma1(x: u32) -> (r: u32)
    ensures
        r == bsig1(x),
{
    rotate_right(x, 6) ^ rotate_right(x, 11) ^ rotate_right(x, 25)
}

fn ch(x: u32, y: u32, z: u32) -> (r: u32)
    ensures
        r == ch_spec(x, y, z),
{
    (x & y) ^ (!x & z)
}

fn maj(x: u32, y: u32, z: u32) -> (r: u32)
    ensures
        r == maj_spec(x, y, z),
{
    (x & y) ^ (x & z) ^ (y & z)
}

/// Pads a message as SHA-256 requires: the input bytes, one 0x80 byte, zeros
/// up to 56 modulo 64, then the bit length as a big-endian 64-bit integer.
pub fn pad_sha256(input: &[u8]) -> (bytes: Vec<u8>)
    requires
        hashable(input@),
    ensures
        bytes@ == pad_spec(input@),
        bytes@.len() % 64 == 0,
        bytes@.len() == input@.len() + 1 + pad_zero_count(input@.len()) + 8,
        bytes@.subrange(0, input@.len() as int) == input@,
{
    proof {
        lemma_padded_len(input@.len());
    }
    let bit_length: u64 = (input.len() as u64) * 8;
    let mut bytes: Vec<u8> = Vec::new();
    let mut i: usize = 0;
    while i < input.len()
        invariant
            i <= input@.len(),
            bytes@ == input@.subrange(0, i as int),
        decreases input@.len() - i,
    {
        bytes.push(input[i]);
        i += 1;
    }
    assert(bytes@ == input@);
    bytes.push(0x80);
    let zeros: usize = (119 - (input.len() % 64)) % 64;
    assert(zeros == pad_zero_count(input@.len()));
    let mut j: usize = 0;
    while j < zeros
        invariant
            j <= zeros,
            zeros == pad_zero_count(input@.len()),
            hashable(input@),
            bytes@ == input@ + seq![0x80u8] + Seq::new(j as nat, |k: int| 0u8),
        decreases zeros - j,
    {
        bytes.push(0);
        j += 1;
        assert(bytes@ =~= input@ + seq![0x80u8] + Seq::new(j as nat, |k: int| 0u8));
    }
    bytes.push((bit_length >> 56) as u8);
    bytes.push((bit_length >> 48) as u8);
    bytes.push((bit_length >> 40) as u8);
    bytes.push((bit_length >> 32) as u8);
    bytes.push((bit_length >> 24) as u8);
    bytes.push((bit_length >> 16) as u8);
    bytes.push((bit_length >> 8) as u8);
    bytes.push(bit_length as u8);
    assert(bytes@ =~= pad_spec(input@));
    assert(bytes@.subrange(0, input@.len() as int) =~= input@);
    bytes
}

/// The sixteen big-endian words of the block that starts at `start`.
fn block_to_words(padded: &Vec<u8>, start: usize) -> (words: [u32; 16])
    requires
        start + 64 <= padded@.len(),
    ensures
        words@ == Seq::new(16, |j: int| be_word(padded@, start + 4 * j)),
{
    let mut words: [u32; 16] = [0u32; 16];
    let mut j: usize = 0;
    while j < 16
        invariant
            j <= 16,
            start + 64 <= padded.len(),
            padded.len() == padded@.len(),
            forall|k: int| 0 <= k < j ==> words@[k] == be_word(padded@, start + 4 * k),
        decreases 16 - j,
    {
        let i = start + 4 * j;
        let w: u32 = ((padded[i] as u32) << 24) | ((padded[i + 1] as u32) << 16) | ((padded[i
            + 2] as u32) << 8) | (padded[i + 3] as u32);
        words[j] = w;
        j += 1;
    }
    assert(words@ =~= Seq::new(16, |j: int| be_word(padded@, start + 4 * j)));
    words
}

/// Expands sixteen words into the 64-word message schedule.
fn message_schedule(words: &[u32; 16]) -> (schedule: [u32; 64])
    ensures
        schedule@ == schedule_spec(words@),
{
    let mut schedule: [u32; 64] = [0u32; 64];
    let mut t: usize = 0;
    while t < 64
        invariant
            t <= 64,
            forall|k: int| 0 <= k < t ==> schedule@[k] == schedule_word(words@, k as nat),
        decreases 64 - t,
    {
        if t < 16 {
            schedule[t] = words[t];
        } else {
            let v = small_sigma1(schedule[t - 2]).wrapping_add(schedule[t - 7]).wrapping_add(
                small_sigma0(schedule[t - 15]),
            ).wrapping_add(schedule[t - 16]);
            schedule[t] = v;
        }
        assert(schedule@[t as int] == schedule_word(words@, t as nat));
        t += 1;
    }
    assert(schedule@ =~= schedule_spec(words@));
    schedule
}

/// Applies the compression function to one block.
fn compress(state: &[u32; 8], schedule: &[u32; 64]) -> (next: [u32; 8])
    ensures
        next@ == Seq::new(8, |i: int| state@[i].wrapping_add(rounds(state@, schedule@, 64)[i])),
{
    let mut a = state[0];
    let mut b = state[1];
    let mut c = state[2];
    let mut d = state[3];
    let mut e = state[4];
    let mut f = state[5];
    let mut g = state[6];
    let mut h = state[7];
    assert(seq![a, b, c, d, e, f, g, h] =~= rounds(state@, schedule@, 0));
    let mut t: usize = 0;
    while t < 64
        invariant
            t <= 64,
            seq![a, b, c, d, e, f, g, h] == rounds(state@, schedule@, t as nat),
        decreases 64 - t,
    {
        let temp1 = h.wrapping_add(big_sigma1(e)).wrapping_add(ch(e, f, g)).wrapping_add(
            K[t],
        ).wrapping_add(schedule[t]);
        let temp2 = big_sigma0(a).wrapping_add(maj(a, b, c));
        let ghost prev = seq![a, b, c, d, e, f, g, h];
        h = g;
        g = f;
        f = e;
        e = d.wrapping_add(temp1);
        d = c;
        c = b;
        b = a;
        a = temp1.wrapping_add(temp2);
        t += 1;
        assert(seq![a, b, c, d, e, f, g, h] =~= round_step(prev, K@[t - 1], schedule@[t - 1]));
    }
    let ghost r = rounds(state@, schedule@, 64);
    let next: [u32; 8] = [
        state[0].wrapping_add(a),
        state[1].wrapping_add(b),
        state[2].wrapping_add(c),
        state[3].wrapping_add(d),
        state[4].wrapping_add(e),
        state[5].wrapping_add(f),
        state[6].wrapping_add(g),
        state[7].wrapping_add(h),
    ];
    assert(next@ =~= Seq::new(8, |i: int| state@[i].wrapping_add(r[i])));
    next
}

/// The blocks `0..n` of a padded message, as words.
pub open spec fn blocks_of(p: Seq<u8>, n: nat) -> Seq<Seq<u32>> {
    Seq::new(n, |i: int| block_words(p, i))
}

/// `h` compressed with each of `blocks` in turn, the first block first.
pub open spec fn compress_all(h: Seq<u32>, blocks: Seq<Seq<u32>>) -> Seq<u32>
    decreases blocks.len(),
{
    if blocks.len() == 0 {
        h
    } else {
        compress_all(compress_spec(h, blocks[0]), blocks.drop_first())
    }
}

/// Compressing one more block continues from where the others left off.
proof fn lemma_compress_all_push(h: Seq<u32>, blocks: Seq<Seq<u32>>, b: Seq<u32>)
    ensures
        compress_all(h, blocks.push(b)) == compress_spec(compress_all(h, blocks), b),
    decreases blocks.len(),
{
    if blocks.len() > 0 {
        assert(blocks.push(b)[0] == blocks[0]);
        assert(blocks.push(b).drop_first() =~= blocks.drop_first().push(b));
        lemma_compress_all_push(compress_spec(h, blocks[0]), blocks.drop_first(), b);
    } else {
        let one = blocks.push(b);
        assert(one[0] == b);
        assert(one.drop_first() =~= Seq::<Seq<u32>>::empty());
        assert(compress_all(compress_spec(h, b), one.drop_first()) == compress_spec(h, b));
    }
}

/// The blocks are chained: the hash value after block `n` is the
/// compression of the hash value after the blocks before it with block `n`.
pub proof fn lemma_hash_chains(p: Seq<u8>, n: nat)
    ensures
        hash_state(p, n + 1) == compress_spec(hash_state(p, n), block_words(p, n as int)),
{
}

/// The hash value after `n` blocks is H(0) compressed with blocks `0`, `1`,
/// ..., `n - 1` in that order, each from the value the one before it left.
pub proof fn lemma_hash_state_compresses_in_order(p: Seq<u8>, n: nat)
    ensures
        hash_state(p, n) == compress_all(INITIAL_STATE@, blocks_of(p, n)),
    decreases n,
{
    if n == 0 {
        assert(blocks_of(p, 0) =~= Seq::<Seq<u32>>::empty());
    } else {
        let m = (n - 1) as nat;
        lemma_hash_state_compresses_in_order(p, m);
        assert(blocks_of(p, n) =~= blocks_of(p, m).push(block_words(p, m as int)));
        lemma_compress_all_push(INITIAL_STATE@, blocks_of(p, m), block_words(p, m as int));
    }
}

/// The digest of a message is the final hash value of its padded blocks, all
/// compressed in order from H(0), written big-endian.
pub proof fn lemma_digest_chains_every_block(msg: Seq<u8>)
    ensures
        sha256_spec(msg) == state_bytes(
            compress_all(INITIAL_STATE@, blocks_of(pad_spec(msg), pad_spec(msg).len() / 64)),
        ),
{
    lemma_hash_state_compresses_in_order(pad_spec(msg), pad_spec(msg).len() / 64);
}

/// The SHA-256 digest of `input`.
pub fn sha256(input: &[u8]) -> (digest: [u8; 32])
    requires
        hashable(input@),
    ensures
        digest@ == sha256_spec(input@),
        digest@ == state_bytes(
            compress_all(INITIAL_STATE@, blocks_of(pad_spec(input@), pad_spec(input@).len() / 64)),
        ),
{
    proof {
        lemma_digest_chains_every_block(input@);
    }
    let padded = pad_sha256(input);
    let nblocks = padded.len() / 64;
    let mut state: [u32; 8] = INITIAL_STATE;
    let mut blk: usize = 0;
    while blk < nblocks
        invariant
            blk <= nblocks,
            nblocks == padded@.len() / 64,
            padded@.len() % 64 == 0,
            padded@ == pad_spec(input@),
            padded.len() == padded@.len(),
            state@ == hash_state(padded@, blk as nat),
        decreases nblocks - blk,
    {
        assert(blk * 64 + 64 <= padded.len()) by (nonlinear_arith)
            requires
                blk < nblocks,
                nblocks == padded.len() / 64,
                padded.len() % 64 == 0,
        ;
        let words = block_to_words(&padded, blk * 64);
        assert(words@ =~= block_words(padded@, blk as int));
        let schedule = message_schedule(&words);
        state = compress(&state, &schedule);
        blk += 1;
        assert(state@ =~= hash_state(padded@, blk as nat));
    }
    let mut output: [u8; 32] = [0u8; 32];
    let mut i: usize = 0;
    while i < 8
        invariant
            i <= 8,
            forall|j: int| 0 <= j < 4 * i ==> output@[j] == word_byte(state@[j / 4], j % 4),
        decreases 8 - i,
    {
        let s = state[i];
        output[4 * i] = (s >> 24) as u8;
        output[4 * i + 1] = (s >> 16) as u8;
        output[4 * i + 2] = (s >> 8) as u8;
        output[4 * i + 3] = s as u8;
        i += 1;
    }
    assert(output@ =~= state_bytes(state@));
    output
}

/// Lowercase hexadecimal text of a digest, two digits per byte.
pub fn digest_to_hex(digest: &[u8; 32]) -> (output: String)
    ensures
        output@.len() == 64,
        vstd::utf8::encode_utf8(output@) == hex_lower(digest@),
{
    let mut bytes: Vec<u8> = Vec::new();
    let mut i: usize = 0;
    while i < 32
        invariant
            i <= 32,
            bytes@ == hex_lower(digest@.subrange(0, i as int)),
        decreases 32 - i,
    {
        let hi = hex_digit_exec(digest[i] / 16);
        let lo = hex_digit_exec(digest[i] % 16);
        bytes.push(hi);
        bytes.push(lo);
        i += 1;
        assert(bytes@ =~= hex_lower(digest@.subrange(0, i as int)));
    }
    assert(digest@.subrange(0, 32) =~= digest@);
    crate::text::ascii_string(bytes)
}

pub(crate) fn hex_digit_exec(n: u8) -> (d: u8)
    requires
        n < 16,
    ensures
        d == hex_digit(n),
        d < 128,
{
    if n < 10 {
        n + 48
    } else {
        n + 87
    }
}

} // verus!
