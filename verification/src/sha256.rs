//! The digest SHA-256, taken piece by piece.

use crate::contents::{hex, to_hex};
use vstd::prelude::*;

verus! {

/// The eight words that a digest is made of.
#[derive(Debug, Clone, Copy, PartialEq, Eq, Structural)]
pub struct Words {
    pub a: u32,
    pub b: u32,
    pub c: u32,
    pub d: u32,
    pub e: u32,
    pub f: u32,
    pub g: u32,
    pub h: u32,
}

/// The words before anything was taken in.
pub open spec fn initial() -> Words {
    Words {
        a: 0x6a09e667,
        b: 0xbb67ae85,
        c: 0x3c6ef372,
        d: 0xa54ff53a,
        e: 0x510e527f,
        f: 0x9b05688c,
        g: 0x1f83d9ab,
        h: 0x5be0cd19,
    }
}

/// The constants of the rounds.
pub open spec fn round_constants() -> Seq<u32> {
    seq![
        0x428a2f98u32, 0x71374491, 0xb5c0fbcf, 0xe9b5dba5, 0x3956c25b, 0x59f111f1, 0x923f82a4, 0xab1c5ed5,
        0xd807aa98, 0x12835b01, 0x243185be, 0x550c7dc3, 0x72be5d74, 0x80deb1fe, 0x9bdc06a7, 0xc19bf174,
        0xe49b69c1, 0xefbe4786, 0x0fc19dc6, 0x240ca1cc, 0x2de92c6f, 0x4a7484aa, 0x5cb0a9dc, 0x76f988da,
        0x983e5152, 0xa831c66d, 0xb00327c8, 0xbf597fc7, 0xc6e00bf3, 0xd5a79147, 0x06ca6351, 0x14292967,
        0x27b70a85, 0x2e1b2138, 0x4d2c6dfc, 0x53380d13, 0x650a7354, 0x766a0abb, 0x81c2c92e, 0x92722c85,
        0xa2bfe8a1, 0xa81a664b, 0xc24b8b70, 0xc76c51a3, 0xd192e819, 0xd6990624, 0xf40e3585, 0x106aa070,
        0x19a4c116, 0x1e376c08, 0x2748774c, 0x34b0bcb5, 0x391c0cb3, 0x4ed8aa4a, 0x5b9cca4f, 0x682e6ff3,
        0x748f82ee, 0x78a5636f, 0x84c87814, 0x8cc70208, 0x90befffa, 0xa4506ceb, 0xbef9a3f7, 0xc67178f2,
    ]
}

fn round_table() -> (r: Vec<u32>)
    ensures
        r@ == round_constants(),
{
    let r: Vec<u32> = vec![
        0x428a2f98, 0x71374491, 0xb5c0fbcf, 0xe9b5dba5, 0x3956c25b, 0x59f111f1, 0x923f82a4, 0xab1c5ed5,
        0xd807aa98, 0x12835b01, 0x243185be, 0x550c7dc3, 0x72be5d74, 0x80deb1fe, 0x9bdc06a7, 0xc19bf174,
        0xe49b69c1, 0xefbe4786, 0x0fc19dc6, 0x240ca1cc, 0x2de92c6f, 0x4a7484aa, 0x5cb0a9dc, 0x76f988da,
        0x983e5152, 0xa831c66d, 0xb00327c8, 0xbf597fc7, 0xc6e00bf3, 0xd5a79147, 0x06ca6351, 0x14292967,
        0x27b70a85, 0x2e1b2138, 0x4d2c6dfc, 0x53380d13, 0x650a7354, 0x766a0abb, 0x81c2c92e, 0x92722c85,
        0xa2bfe8a1, 0xa81a664b, 0xc24b8b70, 0xc76c51a3, 0xd192e819, 0xd6990624, 0xf40e3585, 0x106aa070,
        0x19a4c116, 0x1e376c08, 0x2748774c, 0x34b0bcb5, 0x391c0cb3, 0x4ed8aa4a, 0x5b9cca4f, 0x682e6ff3,
        0x748f82ee, 0x78a5636f, 0x84c87814, 0x8cc70208, 0x90befffa, 0xa4506ceb, 0xbef9a3f7, 0xc67178f2,
    ];
    assert(r@ =~= round_constants());
    r
}

/// A word turned to the right.
pub open spec fn turned(x: u32, n: u32) -> u32 {
    (x >> n) | (x << ((32 - n) as u32))
}

fn rotate_right(x: u32, n: u32) -> (r: u32)
    requires
        0 < n < 32,
    ensures
        r == turned(x, n),
{
    (x >> n) | (x << (32 - n))
}

/// The word at position `i` of a block, the highest byte first.
pub open spec fn block_word(block: Seq<u8>, i: int) -> u32 {
    (block[4 * i] * 0x100_0000 + block[4 * i + 1] * 0x1_0000 + block[4 * i + 2] * 0x100 + block[4 * i + 3]) as u32
}

/// The word that a block gives to a round.
pub open spec fn scheduled(block: Seq<u8>, i: int) -> u32
    decreases i,
{
    if i < 16 {
        block_word(block, i)
    } else {
        let x = scheduled(block, i - 15);
        let y = scheduled(block, i - 2);
        scheduled(block, i - 16).wrapping_add(turned(x, 7) ^ turned(x, 18) ^ (x >> 3)).wrapping_add(
            scheduled(block, i - 7),
        ).wrapping_add(turned(y, 17) ^ turned(y, 19) ^ (y >> 10))
    }
}

/// The words after a round.
pub open spec fn round_of(s: Words, k: u32, w: u32) -> Words {
    let t1 = s.h.wrapping_add(turned(s.e, 6) ^ turned(s.e, 11) ^ turned(s.e, 25)).wrapping_add(
        (s.e & s.f) ^ (!s.e & s.g),
    ).wrapping_add(k).wrapping_add(w);
    let t2 = (turned(s.a, 2) ^ turned(s.a, 13) ^ turned(s.a, 22)).wrapping_add(
        (s.a & s.b) ^ (s.a & s.c) ^ (s.b & s.c),
    );
    Words {
        a: t1.wrapping_add(t2),
        b: s.a,
        c: s.b,
        d: s.c,
        e: s.d.wrapping_add(t1),
        f: s.e,
        g: s.f,
        h: s.g,
    }
}

/// The words after the first `n` rounds on a block.
pub open spec fn rounds(s: Words, block: Seq<u8>, n: int) -> Words
    decreases n,
{
    if n <= 0 {
        s
    } else {
        round_of(rounds(s, block, n - 1), round_constants()[n - 1], scheduled(block, n - 1))
    }
}

pub open spec fn sum(s: Words, t: Words) -> Words {
    Words {
        a: s.a.wrapping_add(t.a),
        b: s.b.wrapping_add(t.b),
        c: s.c.wrapping_add(t.c),
        d: s.d.wrapping_add(t.d),
        e: s.e.wrapping_add(t.e),
        f: s.f.wrapping_add(t.f),
        g: s.g.wrapping_add(t.g),
        h: s.h.wrapping_add(t.h),
    }
}

/// The words after a block was taken in.
pub open spec fn compressed(s: Words, block: Seq<u8>) -> Words {
    sum(s, rounds(s, block, 64))
}

/// The words after the first `n` blocks of a message.
pub open spec fn absorbed(m: Seq<u8>, n: int) -> Words
    decreases n,
{
    if n <= 0 {
        initial()
    } else {
        compressed(absorbed(m, n - 1), m.subrange(64 * (n - 1), 64 * n))
    }
}

/// The bytes of a number, the highest first.
pub open spec fn high_first(v: nat, n: nat) -> Seq<u8>
    decreases n,
{
    if n == 0 {
        seq![]
    } else {
        high_first(v / 256, (n - 1) as nat).push((v % 256) as u8)
    }
}

/// How many zeros fill up a message.
pub open spec fn fill(len: nat) -> nat {
    ((119 - len % 64) % 64) as nat
}

pub open spec fn zeros(n: nat) -> Seq<u8> {
    Seq::new(n, |i: int| 0u8)
}

/// A message filled up to whole blocks: a bit, zeros, and its length in bits.
pub open spec fn padded(m: Seq<u8>) -> Seq<u8> {
    m.push(0x80u8) + zeros(fill(m.len())) + high_first(8 * m.len(), 8)
}

pub open spec fn word_bytes(w: Words) -> Seq<u8> {
    high_first(w.a as nat, 4) + high_first(w.b as nat, 4) + high_first(w.c as nat, 4) + high_first(
        w.d as nat,
        4,
    ) + high_first(w.e as nat, 4) + high_first(w.f as nat, 4) + high_first(w.g as nat, 4) + high_first(
        w.h as nat,
        4,
    )
}

/// The digest of a message.
pub open spec fn digest(m: Seq<u8>) -> Seq<u8> {
    word_bytes(absorbed(padded(m), padded(m).len() as int / 64))
}

fn block_word_of(block: &Vec<u8>, i: usize) -> (r: u32)
    requires
        block@.len() == 64,
        i < 16,
    ensures
        r == block_word(block@, i as int),
{
    block[4 * i] as u32 * 0x100_0000 + block[4 * i + 1] as u32 * 0x1_0000 + block[4 * i + 2] as u32 * 0x100
        + block[4 * i + 3] as u32
}

fn schedule(block: &Vec<u8>) -> (w: Vec<u32>)
    requires
        block@.len() == 64,
    ensures
        w@.len() == 64,
        forall|i: int| 0 <= i < 64 ==> #[trigger] w@[i] == scheduled(block@, i),
{
    let mut w: Vec<u32> = Vec::new();
    let mut i: usize = 0;
    while i < 64
        invariant
            block@.len() == 64,
            i <= 64,
            w@.len() == i,
            forall|j: int| 0 <= j < i ==> #[trigger] w@[j] == scheduled(block@, j),
        decreases 64 - i,
    {
        let next: u32 = if i < 16 {
            block_word_of(block, i)
        } else {
            let x: u32 = w[i - 15];
            let y: u32 = w[i - 2];
            let s0: u32 = rotate_right(x, 7) ^ rotate_right(x, 18) ^ (x >> 3);
            let s1: u32 = rotate_right(y, 17) ^ rotate_right(y, 19) ^ (y >> 10);
            w[i - 16].wrapping_add(s0).wrapping_add(w[i - 7]).wrapping_add(s1)
        };
        assert(next == scheduled(block@, i as int));
        w.push(next);
        i += 1;
    }
    w
}

fn round(s: Words, k: u32, w: u32) -> (r: Words)
    ensures
        r == round_of(s, k, w),
{
    let s1: u32 = rotate_right(s.e, 6) ^ rotate_right(s.e, 11) ^ rotate_right(s.e, 25);
    let ch: u32 = (s.e & s.f) ^ (!s.e & s.g);
    let t1: u32 = s.h.wrapping_add(s1).wrapping_add(ch).wrapping_add(k).wrapping_add(w);
    let s0: u32 = rotate_right(s.a, 2) ^ rotate_right(s.a, 13) ^ rotate_right(s.a, 22);
    let maj: u32 = (s.a & s.b) ^ (s.a & s.c) ^ (s.b & s.c);
    let t2: u32 = s0.wrapping_add(maj);
    Words {
        a: t1.wrapping_add(t2),
        b: s.a,
        c: s.b,
        d: s.c,
        e: s.d.wrapping_add(t1),
        f: s.e,
        g: s.f,
        h: s.g,
    }
}

/// Takes a block into the words.
pub fn compress(s: Words, block: &Vec<u8>) -> (r: Words)
    requires
        block@.len() == 64,
    ensures
        r == compressed(s, block@),
{
    let w = schedule(block);
    let k = round_table();
    let mut t: Words = s;
    let mut i: usize = 0;
    while i < 64
        invariant
            i <= 64,
            k@ == round_constants(),
            k@.len() == 64,
            w@.len() == 64,
            forall|j: int| 0 <= j < 64 ==> #[trigger] w@[j] == scheduled(block@, j),
            t == rounds(s, block@, i as int),
        decreases 64 - i,
    {
        t = round(t, k[i], w[i]);
        i += 1;
    }
    Words {
        a: s.a.wrapping_add(t.a),
        b: s.b.wrapping_add(t.b),
        c: s.c.wrapping_add(t.c),
        d: s.d.wrapping_add(t.d),
        e: s.e.wrapping_add(t.e),
        f: s.f.wrapping_add(t.f),
        g: s.g.wrapping_add(t.g),
        h: s.h.wrapping_add(t.h),
    }
}

/// A digest in the making.
pub struct Sha256 {
    words: Words,
    /// What was taken in behind the last whole block.
    rest: Vec<u8>,
    total: u64,
    /// All that was taken in.
    fed: Ghost<Seq<u8>>,
}

impl View for Sha256 {
    type V = Seq<u8>;

    /// All that was taken in.
    closed spec fn view(&self) -> Seq<u8> {
        self.fed@
    }
}

impl Sha256 {
    spec fn holds(&self) -> bool {
        let n = self.fed@.len() as int / 64;
        self.words == absorbed(self.fed@, n) && self.rest@ == self.fed@.skip(64 * n)
    }

    /// What is kept is right for what was taken in.
    pub closed spec fn wf(&self) -> bool {
        self.holds() && self.total == self.fed@.len()
    }

    pub fn new() -> (r: Self)
        ensures
            r.wf(),
            r@ == Seq::<u8>::empty(),
    {
        let rest: Vec<u8> = Vec::new();
        let ghost none = Seq::<u8>::empty();
        assert(rest@ =~= none.skip(0));
        Sha256 {
            words: Words {
                a: 0x6a09e667,
                b: 0xbb67ae85,
                c: 0x3c6ef372,
                d: 0xa54ff53a,
                e: 0x510e527f,
                f: 0x9b05688c,
                g: 0x1f83d9ab,
                h: 0x5be0cd19,
            },
            rest,
            total: 0,
            fed: Ghost(none),
        }
    }

    fn take_byte(&mut self, b: u8)
        requires
            old(self).holds(),
        ensures
            final(self).holds(),
            final(self).fed@ == old(self).fed@.push(b),
            final(self).total == old(self).total,
    {
        let ghost m = self.fed@;
        let ghost n = m.len() as int / 64;
        self.rest.push(b);
        self.fed = Ghost(m.push(b));
        proof {
            lemma_absorbed_push(m, b, n);
            assert(self.rest@ =~= m.push(b).skip(64 * n));
        }
        if self.rest.len() == 64 {
            self.words = compress(self.words, &self.rest);
            assert(self.rest@ =~= m.push(b).subrange(64 * n, 64 * (n + 1)));
            self.rest = Vec::new();
            assert(self.rest@ =~= m.push(b).skip(64 * (n + 1)));
            assert(m.push(b).len() as int / 64 == n + 1);
        } else {
            assert(m.push(b).len() as int / 64 == n);
        }
    }

    /// Takes in a piece.
    pub fn update(&mut self, data: &[u8])
        requires
            old(self).wf(),
            8 * (old(self)@.len() + data@.len()) <= u64::MAX,
        ensures
            final(self).wf(),
            final(self)@ == old(self)@ + data@,
    {
        let ghost before = self.fed@;
        assert(before + data@.take(0) =~= before);
        let mut i: usize = 0;
        while i < data.len()
            invariant
                i <= data@.len(),
                self.holds(),
                self.fed@ == before + data@.take(i as int),
                self.total == before.len(),
            decreases data@.len() - i,
        {
            self.take_byte(data[i]);
            i += 1;
            assert(self.fed@ =~= before + data@.take(i as int));
        }
        assert(data@.take(i as int) =~= data@);
        self.total = self.total + data.len() as u64;
    }

    /// The digest of all that was taken in, in hexadecimal.
    pub fn hexdigest(self) -> (r: String)
        requires
            self.wf(),
            8 * self@.len() <= u64::MAX,
        ensures
            r@ == hex(digest(self@)),
    {
        let ghost m = self.fed@;
        let mut s = self;
        let bits: u64 = s.total * 8;
        let n: usize = s.rest.len();
        let z: usize = (119 - n) % 64;
        assert(n == m.len() % 64);
        s.take_byte(0x80);
        let mut i: usize = 0;
        assert(s.fed@ =~= m.push(0x80u8) + zeros(0));
        while i < z
            invariant
                i <= z,
                s.holds(),
                s.fed@ == m.push(0x80u8) + zeros(i as nat),
            decreases z - i,
        {
            s.take_byte(0);
            i += 1;
            assert(s.fed@ =~= m.push(0x80u8) + zeros(i as nat));
        }
        let tail = bytes_of_u64(bits);
        let ghost body = s.fed@;
        assert(body + tail@.take(0) =~= body);
        let mut j: usize = 0;
        while j < tail.len()
            invariant
                j <= tail@.len(),
                s.holds(),
                s.fed@ == body + tail@.take(j as int),
            decreases tail@.len() - j,
        {
            s.take_byte(tail[j]);
            j += 1;
            assert(s.fed@ =~= body + tail@.take(j as int));
        }
        assert(tail@.take(j as int) =~= tail@);
        assert(s.fed@ =~= padded(m));
        let out = bytes_of_words(s.words);
        to_hex(out.as_slice())
    }
}

proof fn lemma_absorbed_push(m: Seq<u8>, b: u8, n: int)
    requires
        64 * n <= m.len(),
    ensures
        absorbed(m.push(b), n) == absorbed(m, n),
    decreases n,
{
    if n > 0 {
        lemma_absorbed_push(m, b, n - 1);
        assert(m.push(b).subrange(64 * (n - 1), 64 * n) =~= m.subrange(64 * (n - 1), 64 * n));
    }
}

fn bytes_of_u64(v: u64) -> (r: Vec<u8>)
    ensures
        r@ == high_first(v as nat, 8),
{
    let mut r = bytes_of_u32((v / 0x1_0000_0000) as u32);
    let low = bytes_of_u32((v % 0x1_0000_0000) as u32);
    let ghost high = r@;
    r.push(low[0]);
    r.push(low[1]);
    r.push(low[2]);
    r.push(low[3]);
    proof {
        reveal_with_fuel(high_first, 9);
        lemma_halves(v as nat);
        assert(r@ =~= high_first(v as nat, 8));
    }
    r
}

fn bytes_of_u32(v: u32) -> (r: Vec<u8>)
    ensures
        r@ == high_first(v as nat, 4),
        r@.len() == 4,
{
    let r: Vec<u8> = vec![
        (v / 0x100_0000) as u8,
        (v / 0x1_0000 % 256) as u8,
        (v / 0x100 % 256) as u8,
        (v % 256) as u8,
    ];
    proof {
        reveal_with_fuel(high_first, 5);
        assert(r@ =~= high_first(v as nat, 4));
    }
    r
}

proof fn lemma_halves(v: nat)
    requires
        v <= u64::MAX,
    ensures
        ({
            let h = v / 0x1_0000_0000;
            let l = v % 0x1_0000_0000;
            &&& l % 256 == v % 256
            &&& l / 256 % 256 == v / 256 % 256
            &&& l / 256 / 256 % 256 == v / 256 / 256 % 256
            &&& l / 256 / 256 / 256 % 256 == v / 256 / 256 / 256 % 256
            &&& v / 256 / 256 / 256 / 256 == h
        }),
{
}

fn bytes_of_words(w: Words) -> (r: Vec<u8>)
    ensures
        r@ == word_bytes(w),
{
    let mut r = bytes_of_u32(w.a);
    append(&mut r, bytes_of_u32(w.b));
    append(&mut r, bytes_of_u32(w.c));
    append(&mut r, bytes_of_u32(w.d));
    append(&mut r, bytes_of_u32(w.e));
    append(&mut r, bytes_of_u32(w.f));
    append(&mut r, bytes_of_u32(w.g));
    append(&mut r, bytes_of_u32(w.h));
    r
}

fn append(out: &mut Vec<u8>, more: Vec<u8>)
    ensures
        final(out)@ == old(out)@ + more@,
{
    crate::seqs::push_all(out, more.as_slice());
}

/// A digest does not depend on how its message was cut into pieces.
pub proof fn law_pieces_do_not_matter(a: Seq<u8>, b: Seq<u8>, c: Seq<u8>)
    ensures
        digest((a + b) + c) == digest(a + (b + c)),
{
    assert((a + b) + c =~= a + (b + c));
}

/// A message is filled up to whole blocks, and keeps its own bytes in front.
pub proof fn law_padded(m: Seq<u8>)
    ensures
        padded(m).len() % 64 == 0,
        m.is_prefix_of(padded(m)),
        padded(m)[m.len() as int] == 0x80u8,
{
    lemma_high_first_len(8 * m.len(), 8);
}

proof fn lemma_high_first_len(v: nat, n: nat)
    ensures
        high_first(v, n).len() == n,
    decreases n,
{
    if n > 0 {
        lemma_high_first_len(v / 256, (n - 1) as nat);
    }
}

} // verus!
