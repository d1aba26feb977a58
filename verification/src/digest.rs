//! A verified SHA-256 digest engine.
//!
//! The algorithm is the standard one: a Merkle-Damgard construction over
//! 64-byte blocks, with the usual padding rule (a single 1 bit, zero fill,
//! then the 64-bit big-endian bit length) and a 64-round compression
//! function.  `sha256_hex` is the specification-level digest; the executable
//! engine is proved to compute exactly that, so two equal byte streams always
//! produce equal digests.

use vstd::prelude::*;

use crate::text::push_char;

verus! {

/// One round of addition modulo 2^32, written through the standard
/// wrapping addition so specifications and code coincide.
pub open spec fn wadd(x: u32, y: u32) -> u32 {
    x.wrapping_add(y)
}

/// Right rotation of a 32-bit word by `n` places, `0 < n < 32`.
pub open spec fn rotr(x: u32, n: u32) -> u32
    recommends
        0 < n < 32,
{
    ((x >> n) | (x << ((32 - n) as u32))) as u32
}

/// The big sigma-0 function of the compression rounds.
pub open spec fn bsig0(x: u32) -> u32 {
    rotr(x, 2) ^ rotr(x, 13) ^ rotr(x, 22)
}

/// The big sigma-1 function of the compression rounds.
pub open spec fn bsig1(x: u32) -> u32 {
    rotr(x, 6) ^ rotr(x, 11) ^ rotr(x, 25)
}

/// The small sigma-0 function of the message schedule.
pub open spec fn ssig0(x: u32) -> u32 {
    rotr(x, 7) ^ rotr(x, 18) ^ (x >> 3u32)
}

/// The small sigma-1 function of the message schedule.
pub open spec fn ssig1(x: u32) -> u32 {
    rotr(x, 17) ^ rotr(x, 19) ^ (x >> 10u32)
}

/// The choose function: each bit of `e` selects the bit of `f` or `g`.
pub open spec fn ch(e: u32, f: u32, g: u32) -> u32 {
    (e & f) ^ ((!e) & g)
}

/// The majority function over three words.
pub open spec fn maj(a: u32, b: u32, c: u32) -> u32 {
    (a & b) ^ (a & c) ^ (b & c)
}

/// The 32-bit word read big-endian from bytes `4*i .. 4*i + 4` of `b`.
pub open spec fn be_word(b: Seq<u8>, i: int) -> u32
    recommends
        0 <= i,
        4 * i + 4 <= b.len(),
{
    (b[4 * i] * 0x1000000 + b[4 * i + 1] * 0x10000 + b[4 * i + 2] * 0x100 + b[4 * i + 3]) as u32
}

/// Word `i` of the message schedule of a 64-byte block.
pub open spec fn schedule(b: Seq<u8>, i: int) -> u32
    recommends
        b.len() == 64,
        0 <= i < 64,
    decreases i,
{
    if i < 16 {
        be_word(b, i)
    } else {
        wadd(wadd(wadd(schedule(b, i - 16), ssig0(schedule(b, i - 15))), schedule(b, i - 7)),
            ssig1(schedule(b, i - 2)))
    }
}

/// The initial hash state.
pub open spec fn sha_h0() -> Seq<u32> {
    seq![
        0x6a09e667u32,
        0xbb67ae85u32,
        0x3c6ef372u32,
        0xa54ff53au32,
        0x510e527fu32,
        0x9b05688cu32,
        0x1f83d9abu32,
        0x5be0cd19u32,
    ]
}

/// One compression round applied to the eight working words.
pub open spec fn sha_round(b: Seq<u8>, st: Seq<u32>, i: int) -> Seq<u32>
    recommends
        b.len() == 64,
        st.len() == 8,
        0 <= i < 64,
{
    let t1 = wadd(wadd(wadd(wadd(st[7], bsig1(st[4])), ch(st[4], st[5], st[6])), sha_k(i)),
        schedule(b, i));
    let t2 = wadd(bsig0(st[0]), maj(st[0], st[1], st[2]));
    seq![wadd(t1, t2), st[0], st[1], st[2], wadd(st[3], t1), st[4], st[5], st[6]]
}

/// The working words after the first `n` compression rounds.
pub open spec fn sha_rounds(b: Seq<u8>, st: Seq<u32>, n: int) -> Seq<u32>
    recommends
        b.len() == 64,
        st.len() == 8,
        0 <= n <= 64,
    decreases n,
{
    if n <= 0 {
        st
    } else {
        sha_round(b, sha_rounds(b, st, n - 1), n - 1)
    }
}

/// The hash state after absorbing one 64-byte block.
pub open spec fn sha_process(st: Seq<u32>, b: Seq<u8>) -> Seq<u32>
    recommends
        b.len() == 64,
        st.len() == 8,
{
    let r = sha_rounds(b, st, 64);
    Seq::new(8, |i: int| wadd(st[i], r[i]))
}

/// The hash state after absorbing a whole sequence of 64-byte blocks.
pub open spec fn sha_blocks(st: Seq<u32>, msg: Seq<u8>) -> Seq<u32>
    recommends
        msg.len() % 64 == 0,
    decreases msg.len(),
{
    if msg.len() < 64 {
        st
    } else {
        sha_blocks(sha_process(st, msg.take(64)), msg.skip(64))
    }
}

/// The eight bytes of `n` in big-endian order.
pub open spec fn be64_bytes(n: nat) -> Seq<u8> {
    seq![
        ((n / 0x100000000000000) % 256) as u8,
        ((n / 0x1000000000000) % 256) as u8,
        ((n / 0x10000000000) % 256) as u8,
        ((n / 0x100000000) % 256) as u8,
        ((n / 0x1000000) % 256) as u8,
        ((n / 0x10000) % 256) as u8,
        ((n / 0x100) % 256) as u8,
        (n % 256) as u8,
    ]
}

/// The number of zero bytes the padding inserts after the 0x80 marker.
pub open spec fn pad_zeroes(len: nat) -> nat {
    ((64 - ((len + 9) % 64)) % 64) as nat
}

/// A message extended by the standard padding: 0x80, zero fill, and the
/// 64-bit big-endian count of message bits.
pub open spec fn sha_pad(msg: Seq<u8>) -> Seq<u8> {
    msg + seq![0x80u8] + Seq::new(pad_zeroes(msg.len()), |i: int| 0u8) + be64_bytes(msg.len() * 8)
}

/// The eight 32-bit words of the digest of `msg`.
pub open spec fn sha256_words(msg: Seq<u8>) -> Seq<u32> {
    sha_blocks(sha_h0(), sha_pad(msg))
}

/// The hexadecimal digit character for `n` in `0 .. 16`.
pub open spec fn hex_digit(n: int) -> char {
    if n == 0 { '0' }
    else if n == 1 { '1' }
    else if n == 2 { '2' }
    else if n == 3 { '3' }
    else if n == 4 { '4' }
    else if n == 5 { '5' }
    else if n == 6 { '6' }
    else if n == 7 { '7' }
    else if n == 8 { '8' }
    else if n == 9 { '9' }
    else if n == 10 { 'a' }
    else if n == 11 { 'b' }
    else if n == 12 { 'c' }
    else if n == 13 { 'd' }
    else if n == 14 { 'e' }
    else { 'f' }
}

/// The eight lower-case hex characters of a 32-bit word, high nibble first.
pub open spec fn u32_hex(x: u32) -> Seq<char> {
    seq![
        hex_digit((x as int / 0x10000000) % 16),
        hex_digit((x as int / 0x1000000) % 16),
        hex_digit((x as int / 0x100000) % 16),
        hex_digit((x as int / 0x10000) % 16),
        hex_digit((x as int / 0x1000) % 16),
        hex_digit((x as int / 0x100) % 16),
        hex_digit((x as int / 0x10) % 16),
        hex_digit(x as int % 16),
    ]
}

/// The hex rendering of the first `n` digest words of `msg`.
pub open spec fn sha256_hex_prefix(msg: Seq<u8>, n: int) -> Seq<char>
    recommends
        0 <= n <= 8,
    decreases n,
{
    if n <= 0 {
        Seq::empty()
    } else {
        sha256_hex_prefix(msg, n - 1) + u32_hex(sha256_words(msg)[n - 1])
    }
}

/// The 64-character lower-case hexadecimal SHA-256 digest of `msg`.
pub open spec fn sha256_hex(msg: Seq<u8>) -> Seq<char> {
    sha256_hex_prefix(msg, 8)
}

/// The round constant of round `i` of the compression function.
pub open spec fn sha_k(i: int) -> u32 {
    if i == 0 {
        0x428a2f98
    } else
    if i == 1 {
        0x71374491
    } else
    if i == 2 {
        0xb5c0fbcf
    } else
    if i == 3 {
        0xe9b5dba5
    } else
    if i == 4 {
        0x3956c25b
    } else
    if i == 5 {
        0x59f111f1
    } else
    if i == 6 {
        0x923f82a4
    } else
    if i == 7 {
        0xab1c5ed5
    } else
    if i == 8 {
        0xd807aa98
    } else
    if i == 9 {
        0x12835b01
    } else
    if i == 10 {
        0x243185be
    } else
    if i == 11 {
        0x550c7dc3
    } else
    if i == 12 {
        0x72be5d74
    } else
    if i == 13 {
        0x80deb1fe
    } else
    if i == 14 {
        0x9bdc06a7
    } else
    if i == 15 {
        0xc19bf174
    } else
    if i == 16 {
        0xe49b69c1
    } else
    if i == 17 {
        0xefbe4786
    } else
    if i == 18 {
        0x0fc19dc6
    } else
    if i == 19 {
        0x240ca1cc
    } else
    if i == 20 {
        0x2de92c6f
    } else
    if i == 21 {
        0x4a7484aa
    } else
    if i == 22 {
        0x5cb0a9dc
    } else
    if i == 23 {
        0x76f988da
    } else
    if i == 24 {
        0x983e5152
    } else
    if i == 25 {
        0xa831c66d
    } else
    if i == 26 {
        0xb00327c8
    } else
    if i == 27 {
        0xbf597fc7
    } else
    if i == 28 {
        0xc6e00bf3
    } else
    if i == 29 {
        0xd5a79147
    } else
    if i == 30 {
        0x06ca6351
    } else
    if i == 31 {
        0x14292967
    } else
    if i == 32 {
        0x27b70a85
    } else
    if i == 33 {
        0x2e1b2138
    } else
    if i == 34 {
        0x4d2c6dfc
    } else
    if i == 35 {
        0x53380d13
    } else
    if i == 36 {
        0x650a7354
    } else
    if i == 37 {
        0x766a0abb
    } else
    if i == 38 {
        0x81c2c92e
    } else
    if i == 39 {
        0x92722c85
    } else
    if i == 40 {
        0xa2bfe8a1
    } else
    if i == 41 {
        0xa81a664b
    } else
    if i == 42 {
        0xc24b8b70
    } else
    if i == 43 {
        0xc76c51a3
    } else
    if i == 44 {
        0xd192e819
    } else
    if i == 45 {
        0xd6990624
    } else
    if i == 46 {
        0xf40e3585
    } else
    if i == 47 {
        0x106aa070
    } else
    if i == 48 {
        0x19a4c116
    } else
    if i == 49 {
        0x1e376c08
    } else
    if i == 50 {
        0x2748774c
    } else
    if i == 51 {
        0x34b0bcb5
    } else
    if i == 52 {
        0x391c0cb3
    } else
    if i == 53 {
        0x4ed8aa4a
    } else
    if i == 54 {
        0x5b9cca4f
    } else
    if i == 55 {
        0x682e6ff3
    } else
    if i == 56 {
        0x748f82ee
    } else
    if i == 57 {
        0x78a5636f
    } else
    if i == 58 {
        0x84c87814
    } else
    if i == 59 {
        0x8cc70208
    } else
    if i == 60 {
        0x90befffa
    } else
    if i == 61 {
        0xa4506ceb
    } else
    if i == 62 {
        0xbef9a3f7
    } else {
        0xc67178f2
    }
}

/// The round constant of round `i`, as executable code.
fn sha_k_at(i: usize) -> (r: u32)
    requires
        i < 64,
    ensures
        r == sha_k(i as int),
{
    match i {
        0 => 0x428a2f98,
        1 => 0x71374491,
        2 => 0xb5c0fbcf,
        3 => 0xe9b5dba5,
        4 => 0x3956c25b,
        5 => 0x59f111f1,
        6 => 0x923f82a4,
        7 => 0xab1c5ed5,
        8 => 0xd807aa98,
        9 => 0x12835b01,
        10 => 0x243185be,
        11 => 0x550c7dc3,
        12 => 0x72be5d74,
        13 => 0x80deb1fe,
        14 => 0x9bdc06a7,
        15 => 0xc19bf174,
        16 => 0xe49b69c1,
        17 => 0xefbe4786,
        18 => 0x0fc19dc6,
        19 => 0x240ca1cc,
        20 => 0x2de92c6f,
        21 => 0x4a7484aa,
        22 => 0x5cb0a9dc,
        23 => 0x76f988da,
        24 => 0x983e5152,
        25 => 0xa831c66d,
        26 => 0xb00327c8,
        27 => 0xbf597fc7,
        28 => 0xc6e00bf3,
        29 => 0xd5a79147,
        30 => 0x06ca6351,
        31 => 0x14292967,
        32 => 0x27b70a85,
        33 => 0x2e1b2138,
        34 => 0x4d2c6dfc,
        35 => 0x53380d13,
        36 => 0x650a7354,
        37 => 0x766a0abb,
        38 => 0x81c2c92e,
        39 => 0x92722c85,
        40 => 0xa2bfe8a1,
        41 => 0xa81a664b,
        42 => 0xc24b8b70,
        43 => 0xc76c51a3,
        44 => 0xd192e819,
        45 => 0xd6990624,
        46 => 0xf40e3585,
        47 => 0x106aa070,
        48 => 0x19a4c116,
        49 => 0x1e376c08,
        50 => 0x2748774c,
        51 => 0x34b0bcb5,
        52 => 0x391c0cb3,
        53 => 0x4ed8aa4a,
        54 => 0x5b9cca4f,
        55 => 0x682e6ff3,
        56 => 0x748f82ee,
        57 => 0x78a5636f,
        58 => 0x84c87814,
        59 => 0x8cc70208,
        60 => 0x90befffa,
        61 => 0xa4506ceb,
        62 => 0xbef9a3f7,
        _ => 0xc67178f2,
    }
}

/// Zero bytes used by the padding rule.
pub open spec fn zeroes(n: nat) -> Seq<u8> {
    Seq::new(n, |i: int| 0u8)
}

/// Right rotation of a 32-bit word, as executable code.
fn rotr_word(x: u32, n: u32) -> (r: u32)
    requires
        0 < n < 32,
    ensures
        r == rotr(x, n),
{
    (x >> n) | (x << (32 - n))
}

/// Applies the compression function to the 64-byte block of `data` that
/// starts at `off`, updating the eight-word hash state in place.
fn process_block(state: &mut Vec<u32>, data: &Vec<u8>, off: usize)
    requires
        old(state)@.len() == 8,
        off + 64 <= data@.len(),
    ensures
        final(state)@ == sha_process(old(state)@, data@.subrange(off as int, off as int + 64)),
        final(state)@.len() == 8,
{
    let ghost blk = data@.subrange(off as int, off as int + 64);
    let ghost st0 = state@;
    let dlen = data.len();

    // Message schedule.
    let mut w: Vec<u32> = Vec::new();
    let mut i: usize = 0;
    while i < 16
        invariant
            dlen == data@.len(),
            off + 64 <= dlen,
            blk == data@.subrange(off as int, off as int + 64),
            i <= 16,
            w@.len() == i,
            forall|j: int| 0 <= j < i ==> w@[j] == schedule(blk, j),
        decreases 16 - i,
    {
        let word: u32 = (data[off + 4 * i] as u32) * 0x1000000 + (data[off + 4 * i + 1] as u32)
            * 0x10000 + (data[off + 4 * i + 2] as u32) * 0x100 + (data[off + 4 * i + 3] as u32);
        w.push(word);
        assert(w@[i as int] == be_word(blk, i as int));
        i += 1;
    }
    while i < 64
        invariant
            blk.len() == 64,
            16 <= i <= 64,
            w@.len() == i,
            forall|j: int| 0 <= j < i ==> w@[j] == schedule(blk, j),
        decreases 64 - i,
    {
        let x15: u32 = w[i - 15];
        let x2: u32 = w[i - 2];
        let x16: u32 = w[i - 16];
        let x7: u32 = w[i - 7];
        let s0: u32 = rotr_word(x15, 7) ^ rotr_word(x15, 18) ^ (x15 >> 3u32);
        let s1: u32 = rotr_word(x2, 17) ^ rotr_word(x2, 19) ^ (x2 >> 10u32);
        let word: u32 = x16.wrapping_add(s0).wrapping_add(x7).wrapping_add(s1);
        w.push(word);
        proof {
            assert(s0 == ssig0(schedule(blk, i - 15)));
            assert(s1 == ssig1(schedule(blk, i - 2)));
            assert(word == wadd(
                wadd(wadd(schedule(blk, i - 16), ssig0(schedule(blk, i - 15))), schedule(
                    blk,
                    i - 7,
                )),
                ssig1(schedule(blk, i - 2)),
            ));
            assert(w@[i as int] == schedule(blk, i as int));
        }
        i += 1;
    }

    // Sixty-four compression rounds over the eight working words.
    let mut a: u32 = state[0];
    let mut b: u32 = state[1];
    let mut c: u32 = state[2];
    let mut d: u32 = state[3];
    let mut e: u32 = state[4];
    let mut f: u32 = state[5];
    let mut g: u32 = state[6];
    let mut h: u32 = state[7];
    assert((seq![a, b, c, d, e, f, g, h]) =~= sha_rounds(blk, st0, 0));
    i = 0;
    while i < 64
        invariant
            blk.len() == 64,
            st0.len() == 8,
            i <= 64,
            w@.len() == 64,
            forall|j: int| 0 <= j < 64 ==> w@[j] == schedule(blk, j),
            (seq![a, b, c, d, e, f, g, h]) == sha_rounds(blk, st0, i as int),
        decreases 64 - i,
    {
        let ghost prev = sha_rounds(blk, st0, i as int);
        let bs1: u32 = rotr_word(e, 6) ^ rotr_word(e, 11) ^ rotr_word(e, 25);
        let chv: u32 = (e & f) ^ ((!e) & g);
        let t1: u32 = h.wrapping_add(bs1).wrapping_add(chv).wrapping_add(sha_k_at(i))
            .wrapping_add(w[i]);
        let bs0: u32 = rotr_word(a, 2) ^ rotr_word(a, 13) ^ rotr_word(a, 22);
        let mj: u32 = (a & b) ^ (a & c) ^ (b & c);
        let t2: u32 = bs0.wrapping_add(mj);
        h = g;
        g = f;
        f = e;
        e = d.wrapping_add(t1);
        d = c;
        c = b;
        b = a;
        a = t1.wrapping_add(t2);
        i += 1;
        assert((seq![a, b, c, d, e, f, g, h]) =~= sha_round(blk, prev, i - 1));
    }

    // Fold the round output back into the hash state.
    let mut out: Vec<u32> = Vec::new();
    out.push(state[0].wrapping_add(a));
    out.push(state[1].wrapping_add(b));
    out.push(state[2].wrapping_add(c));
    out.push(state[3].wrapping_add(d));
    out.push(state[4].wrapping_add(e));
    out.push(state[5].wrapping_add(f));
    out.push(state[6].wrapping_add(g));
    out.push(state[7].wrapping_add(h));
    assert(out@ =~= sha_process(st0, blk));
    *state = out;
}

/// Chaining the block function over a concatenation splits into two runs,
/// provided the first part is whole blocks.
proof fn lemma_sha_blocks_append(st: Seq<u32>, x: Seq<u8>, y: Seq<u8>)
    requires
        x.len() % 64 == 0,
    ensures
        sha_blocks(st, x + y) == sha_blocks(sha_blocks(st, x), y),
    decreases x.len(),
{
    if x.len() == 0 {
        assert(x + y =~= y);
        assert(sha_blocks(st, x) == st);
    } else {
        assert(x.len() >= 64);
        assert((x + y).take(64) =~= x.take(64));
        assert((x + y).skip(64) =~= x.skip(64) + y);
        assert(x.skip(64).len() % 64 == 0);
        lemma_sha_blocks_append(sha_process(st, x.take(64)), x.skip(64), y);
    }
}

/// Running the block function over a single whole block is one application
/// of the compression function.
proof fn lemma_sha_blocks_single(st: Seq<u32>, b: Seq<u8>)
    requires
        b.len() == 64,
    ensures
        sha_blocks(st, b) == sha_process(st, b),
{
    assert(b.take(64) =~= b);
    assert(b.skip(64) =~= Seq::<u8>::empty());
    assert(sha_blocks(sha_process(st, b.take(64)), b.skip(64)) == sha_process(st, b));
}

/// The hexadecimal digit character for `n`, as executable code.
fn hex_char(n: u8) -> (c: char)
    requires
        n < 16,
    ensures
        c == hex_digit(n as int),
{
    match n {
        0 => '0',
        1 => '1',
        2 => '2',
        3 => '3',
        4 => '4',
        5 => '5',
        6 => '6',
        7 => '7',
        8 => '8',
        9 => '9',
        10 => 'a',
        11 => 'b',
        12 => 'c',
        13 => 'd',
        14 => 'e',
        _ => 'f',
    }
}

/// A streaming SHA-256 engine.  Input arrives through `update` in chunks of
/// any size; the engine buffers at most one 64-byte block, so its memory use
/// is independent of the input size.
pub struct Sha256 {
    state: Vec<u32>,
    buf: Vec<u8>,
    length: u64,
    bytes: Ghost<Seq<u8>>,
}

impl Sha256 {
    /// The byte stream absorbed so far.
    pub closed spec fn bytes_seen(self) -> Seq<u8> {
        self.bytes@
    }

    /// The processed prefix of the stream: everything but the buffered tail.
    pub closed spec fn processed(self) -> Seq<u8> {
        self.bytes@.take(self.bytes@.len() - self.buf@.len())
    }

    /// The engine's internal consistency: the buffer holds the unprocessed
    /// tail of the stream and the state is the block function folded over
    /// the processed prefix.
    pub closed spec fn wf(self) -> bool {
        &&& self.state@.len() == 8
        &&& self.buf@.len() < 64
        &&& self.buf@.len() <= self.bytes@.len()
        &&& self.length == self.bytes@.len()
        &&& self.bytes@.len() < 0x2000000000000000
        &&& (self.bytes@.len() - self.buf@.len()) % 64 == 0
        &&& self.buf@ == self.bytes@.skip(self.bytes@.len() - self.buf@.len())
        &&& self.state@ == sha_blocks(sha_h0(), self.processed())
    }

    pub fn new() -> (s: Sha256)
        ensures
            s.wf(),
            s.bytes_seen() == Seq::<u8>::empty(),
    {
        let mut state: Vec<u32> = Vec::new();
        state.push(0x6a09e667);
        state.push(0xbb67ae85);
        state.push(0x3c6ef372);
        state.push(0xa54ff53a);
        state.push(0x510e527f);
        state.push(0x9b05688c);
        state.push(0x1f83d9ab);
        state.push(0x5be0cd19);
        assert(state@ =~= sha_h0());
        let s = Sha256 { state, buf: Vec::new(), length: 0, bytes: Ghost(Seq::empty()) };
        assert(s.processed() =~= Seq::<u8>::empty());
        s
    }

    /// Absorbs `input`, processing each 64-byte block as soon as it fills.
    pub fn update(&mut self, input: &[u8])
        requires
            old(self).wf(),
            old(self).bytes_seen().len() + input@.len() < 0x2000000000000000,
        ensures
            final(self).wf(),
            final(self).bytes_seen() == old(self).bytes_seen() + input@,
    {
        let n = input.len();
        let mut j: usize = 0;
        while j < n
            invariant
                self.wf(),
                input@.len() == n,
                j <= n,
                self.bytes@.len() + (n - j) < 0x2000000000000000,
                self.bytes_seen() == old(self).bytes_seen() + input@.take(j as int),
            decreases n - j,
        {
            let ghost before = *self;
            let byte = input[j];
            self.buf.push(byte);
            self.length = self.length + 1;
            proof {
                self.bytes@ = self.bytes@ + seq![byte];
                assert(input@.take(j + 1) =~= input@.take(j as int) + seq![byte]);
                assert(self.bytes_seen() =~= old(self).bytes_seen() + input@.take(j + 1));
                assert(self.processed() =~= before.processed());
                assert(self.buf@ =~= self.bytes@.skip(self.bytes@.len() - self.buf@.len()));
            }
            if self.buf.len() == 64 {
                let ghost full = self.buf@;
                process_block(&mut self.state, &self.buf, 0);
                self.buf = Vec::new();
                proof {
                    assert(full.subrange(0, 64) =~= full);
                    lemma_sha_blocks_append(sha_h0(), before.processed(), full);
                    lemma_sha_blocks_single(sha_blocks(sha_h0(), before.processed()), full);
                    assert(before.processed() + full =~= self.bytes@);
                    assert(self.processed() =~= self.bytes@);
                    assert(self.bytes@.skip(self.bytes@.len() as int) =~= Seq::<u8>::empty());
                    assert((self.bytes@.len() - self.buf@.len()) == before.processed().len()
                        + 64);
                    assert((before.processed().len() + 64) % 64 == 0) by (nonlinear_arith)
                        requires
                            before.processed().len() % 64 == 0,
                    ;
                }
            }
            j += 1;
        }
        assert(input@.take(n as int) =~= input@);
    }

    /// Pads the stream and produces its digest as 64 lower-case hex
    /// characters.
    #[verifier::rlimit(100)]
    pub fn finish(self) -> (r: String)
        requires
            self.wf(),
        ensures
            r@ == sha256_hex(self.bytes_seen()),
    {
        let Sha256 { mut state, mut buf, length, bytes } = self;
        let ghost msg = bytes@;
        let ghost pre = msg.take(msg.len() - buf@.len());
        let ghost tail0 = buf@;
        let bit_len: u64 = length * 8;
        buf.push(0x80);
        let rem: usize = (buf.len() + 8) % 64;
        let z: usize = (64 - rem) % 64;
        proof {
            assert(buf@ =~= tail0 + seq![0x80u8] + zeroes(0));
        }
        let mut t: usize = 0;
        while t < z
            invariant
                t <= z,
                z < 64,
                tail0.len() < 64,
                buf@ == tail0 + seq![0x80u8] + zeroes(t as nat),
            decreases z - t,
        {
            buf.push(0);
            proof {
                assert(buf@ =~= tail0 + seq![0x80u8] + zeroes((t + 1) as nat));
            }
            t += 1;
        }
        let b0: u8 = ((bit_len / 0x100000000000000) % 256) as u8;
        let b1: u8 = ((bit_len / 0x1000000000000) % 256) as u8;
        let b2: u8 = ((bit_len / 0x10000000000) % 256) as u8;
        let b3: u8 = ((bit_len / 0x100000000) % 256) as u8;
        let b4: u8 = ((bit_len / 0x1000000) % 256) as u8;
        let b5: u8 = ((bit_len / 0x10000) % 256) as u8;
        let b6: u8 = ((bit_len / 0x100) % 256) as u8;
        let b7: u8 = (bit_len % 256) as u8;
        buf.push(b0);
        buf.push(b1);
        buf.push(b2);
        buf.push(b3);
        buf.push(b4);
        buf.push(b5);
        buf.push(b6);
        buf.push(b7);
        proof {
            assert((seq![b0, b1, b2, b3, b4, b5, b6, b7]) =~= be64_bytes(msg.len() * 8));
            assert(buf@ =~= tail0 + seq![0x80u8] + zeroes(z as nat) + be64_bytes(msg.len() * 8));
            lemma_pad_shape(msg, pre, tail0, z as nat);
            assert(pre + buf@ =~= sha_pad(msg));
            assert(pre.len() % 64 == 0);
            lemma_sha_blocks_append(sha_h0(), pre, buf@);
        }
        let ghost st_pre = state@;
        if buf.len() == 64 {
            process_block(&mut state, &buf, 0);
            proof {
                assert(buf@.subrange(0, 64) =~= buf@);
                lemma_sha_blocks_single(st_pre, buf@);
            }
        } else {
            assert(buf@.len() == 128);
            process_block(&mut state, &buf, 0);
            process_block(&mut state, &buf, 64);
            proof {
                assert(buf@.take(64) =~= buf@.subrange(0, 64));
                assert(buf@.skip(64) =~= buf@.subrange(64, 128));
                lemma_sha_blocks_single(
                    sha_process(st_pre, buf@.subrange(0, 64)),
                    buf@.subrange(64, 128),
                );
            }
        }
        assert(state@ == sha256_words(msg));

        let mut out = String::new();
        assert(out@ =~= sha256_hex_prefix(msg, 0));
        let mut k: usize = 0;
        while k < 8
            invariant
                state@ == sha256_words(msg),
                state@.len() == 8,
                k <= 8,
                out@ == sha256_hex_prefix(msg, k as int),
            decreases 8 - k,
    {
            let x: u32 = state[k];
            push_char(&mut out, hex_char(((x / 0x10000000) % 16) as u8));
            push_char(&mut out, hex_char(((x / 0x1000000) % 16) as u8));
            push_char(&mut out, hex_char(((x / 0x100000) % 16) as u8));
            push_char(&mut out, hex_char(((x / 0x10000) % 16) as u8));
            push_char(&mut out, hex_char(((x / 0x1000) % 16) as u8));
            push_char(&mut out, hex_char(((x / 0x100) % 16) as u8));
            push_char(&mut out, hex_char(((x / 0x10) % 16) as u8));
            push_char(&mut out, hex_char((x % 16) as u8));
            proof {
                assert(out@ =~= sha256_hex_prefix(msg, k as int) + u32_hex(
                    sha256_words(msg)[k as int],
                ));
            }
            k += 1;
        }
        out
    }
}

/// The executable padding appended to the buffered tail reproduces the
/// specification-level padding of the whole message.
proof fn lemma_pad_shape(msg: Seq<u8>, pre: Seq<u8>, tail0: Seq<u8>, z: nat)
    requires
        pre == msg.take(msg.len() - tail0.len()),
        tail0 == msg.skip(msg.len() - tail0.len()),
        tail0.len() <= msg.len(),
        pre.len() % 64 == 0,
        tail0.len() < 64,
        z == ((64 - (((tail0.len() + 1) + 8) % 64)) % 64),
    ensures
        z == pad_zeroes(msg.len()),
        pre + (tail0 + seq![0x80u8] + zeroes(z) + be64_bytes(msg.len() * 8)) =~= sha_pad(msg),
        (tail0 + seq![0x80u8] + zeroes(z) + be64_bytes(msg.len() * 8)).len() % 64 == 0,
        (tail0 + seq![0x80u8] + zeroes(z) + be64_bytes(msg.len() * 8)).len() == 64 || (tail0
            + seq![0x80u8] + zeroes(z) + be64_bytes(msg.len() * 8)).len() == 128,
{
    assert(pre.len() + tail0.len() == msg.len());
    assert((msg.len() + 9) % 64 == (tail0.len() + 9) % 64) by (nonlinear_arith)
        requires
            pre.len() % 64 == 0,
            pre.len() + tail0.len() == msg.len(),
    ;
    assert(z == pad_zeroes(msg.len()));
    let padded = tail0 + seq![0x80u8] + zeroes(z) + be64_bytes(msg.len() * 8);
    assert(padded.len() == tail0.len() + 9 + z);
    assert((tail0.len() + 9 + z) % 64 == 0) by (nonlinear_arith)
        requires
            z == ((64 - ((tail0.len() + 9) % 64)) % 64),
    ;
    assert(padded.len() < 137);
    assert(padded.len() % 64 == 0);
    assert(padded.len() == 64 || padded.len() == 128);
    assert(pre + padded =~= sha_pad(msg));
}

/// The digest of a byte slice: the whole stream absorbed at once.
pub fn calculate_checksum(data: &[u8]) -> (r: String)
    requires
        data@.len() < 0x2000000000000000,
    ensures
        r@ == sha256_hex(data@),
{
    let mut h = Sha256::new();
    h.update(data);
    proof {
        assert(Seq::<u8>::empty() + data@ =~= data@);
    }
    h.finish()
}

/// The digest rendering always has exactly 64 characters.
pub proof fn lemma_sha256_hex_len(msg: Seq<u8>)
    ensures
        sha256_hex(msg).len() == 64,
{
    lemma_sha256_hex_prefix_len(msg, 8);
}

proof fn lemma_sha256_hex_prefix_len(msg: Seq<u8>, n: int)
    requires
        0 <= n <= 8,
    ensures
        sha256_hex_prefix(msg, n).len() == 8 * n,
    decreases n,
{
    if n > 0 {
        lemma_sha256_hex_prefix_len(msg, n - 1);
    }
}

} // verus!
