use vstd::prelude::*;

use crate::tuple::{Request, Tuple, Value};

verus! {

/// A number of seconds to wait.
pub type Timeout = u64;

/// A command of the node's text interface.
#[derive(Debug, PartialEq)]
pub enum Command {
    Out(Tuple<Value>),
    In(Tuple<Request>, Timeout),
    Rd(Tuple<Request>, Timeout),
    Inp(Tuple<Request>),
    Rdp(Tuple<Request>),
    Help,
    Exit,
}

/// `256` to the power `n`: one more than the largest integer `n` bytes hold.
pub open spec fn pow256(n: nat) -> nat
    decreases n,
{
    if n == 0 {
        1
    } else {
        256 * pow256((n - 1) as nat)
    }
}

/// The `n` low bytes of `x`, least significant first.
pub open spec fn le_bytes(x: nat, n: nat) -> Seq<u8>
    decreases n,
{
    if n == 0 {
        Seq::empty()
    } else {
        seq![(x % 256) as u8] + le_bytes(x / 256, (n - 1) as nat)
    }
}

/// The integer that the bytes `b` spell, least significant first.
pub open spec fn le_value(b: Seq<u8>) -> nat
    decreases b.len(),
{
    if b.len() == 0 {
        0
    } else {
        b[0] as nat + 256 * le_value(b.drop_first())
    }
}

/// The 32-bit two's complement pattern of `x`.
pub open spec fn i32_bits(x: i32) -> nat {
    if x < 0 {
        (x + 0x1_0000_0000) as nat
    } else {
        x as nat
    }
}

/// The wire form of a `u8`.
pub open spec fn u8_le(x: u8) -> Seq<u8> {
    le_bytes(x as nat, 1)
}

/// The wire form of a `u16`: two bytes, little-endian.
pub open spec fn u16_le(x: u16) -> Seq<u8> {
    le_bytes(x as nat, 2)
}

/// The wire form of an `i32`: its two's complement pattern in four bytes, little-endian.
pub open spec fn i32_le(x: i32) -> Seq<u8> {
    le_bytes(i32_bits(x), 4)
}

/// The wire form of a `u64`: eight bytes, little-endian.
pub open spec fn u64_le(x: nat) -> Seq<u8> {
    le_bytes(x, 8)
}

pub proof fn lemma_pow256_positive(n: nat)
    ensures
        pow256(n) >= 1,
    decreases n,
{
    if n > 0 {
        lemma_pow256_positive((n - 1) as nat);
    }
}

pub proof fn lemma_le_bytes_len(x: nat, n: nat)
    ensures
        le_bytes(x, n).len() == n,
    decreases n,
{
    if n > 0 {
        lemma_le_bytes_len(x / 256, (n - 1) as nat);
    }
}

pub proof fn lemma_le_value_bound(b: Seq<u8>)
    ensures
        le_value(b) < pow256(b.len()),
    decreases b.len(),
{
    if b.len() > 0 {
        lemma_le_value_bound(b.drop_first());
    }
}

/// Reading back the bytes of an integer that fits gives the integer.
pub proof fn lemma_le_value_of_bytes(x: nat, n: nat)
    requires
        x < pow256(n),
    ensures
        le_value(le_bytes(x, n)) == x,
    decreases n,
{
    if n == 0 {
    } else {
        lemma_le_value_of_bytes(x / 256, (n - 1) as nat);
        lemma_le_bytes_len(x / 256, (n - 1) as nat);
        let b = le_bytes(x, n);
        assert(b.drop_first() == le_bytes(x / 256, (n - 1) as nat));
    }
}

/// Writing the integer that some bytes spell gives back those bytes.
pub proof fn lemma_le_bytes_of_value(b: Seq<u8>)
    ensures
        le_bytes(le_value(b), b.len()) == b,
    decreases b.len(),
{
    if b.len() > 0 {
        lemma_le_bytes_of_value(b.drop_first());
        let v = le_value(b);
        assert(v % 256 == b[0] as nat);
        assert(v / 256 == le_value(b.drop_first()));
        assert(b == seq![b[0]] + b.drop_first());
    }
}

/// Splitting `s` after `n` bytes as an `n`-byte integer and what follows: the
/// pairs `(x, rest)` with `s == le_bytes(x, n) + rest` and `x` in range are
/// exactly one, given by the first `n` bytes.
pub proof fn lemma_le_split(s: Seq<u8>, n: nat, x: nat, rest: Seq<u8>)
    requires
        n <= s.len(),
    ensures
        (x < pow256(n) && s == le_bytes(x, n) + rest) <==> (x == le_value(s.take(n as int)) && rest
            == s.skip(n as int)),
{
    lemma_le_bytes_len(x, n);
    lemma_le_bytes_of_value(s.take(n as int));
    lemma_le_value_bound(s.take(n as int));
    if x < pow256(n) && s == le_bytes(x, n) + rest {
        assert(s.take(n as int) == le_bytes(x, n));
        assert(s.skip(n as int) == rest);
        lemma_le_value_of_bytes(x, n);
    }
    if x == le_value(s.take(n as int)) && rest == s.skip(n as int) {
        assert(s == s.take(n as int) + s.skip(n as int));
    }
}

/// No `n`-byte integer starts a sequence shorter than `n`.
pub proof fn lemma_le_too_short(s: Seq<u8>, n: nat, x: nat, rest: Seq<u8>)
    requires
        s.len() < n,
    ensures
        s != le_bytes(x, n) + rest,
{
    lemma_le_bytes_len(x, n);
}

proof fn lemma_pow256_values()
    ensures
        pow256(1) == 0x100,
        pow256(2) == 0x1_0000,
        pow256(4) == 0x1_0000_0000,
        pow256(8) == 0x1_0000_0000_0000_0000,
        pow256(15) == 0x1_0000_0000_0000_0000_0000_0000_0000_00,
        pow256(16) == 0x1_0000_0000_0000_0000_0000_0000_0000_0000,
{
    reveal_with_fuel(pow256, 17);
}

/// Takes `n` bytes off the front of `input` as a little-endian integer; `None`,
/// with `input` left as it was, where fewer than `n` bytes remain.
fn read_le(input: &mut &[u8], n: usize) -> (r: Option<u128>)
    requires
        n <= 16,
    ensures
        old(input)@.len() < n ==> r is None && final(input)@ == old(input)@,
        old(input)@.len() >= n ==> r == Some(le_value(old(input)@.take(n as int)) as u128)
            && final(input)@ == old(input)@.skip(n as int),
{
    if input.len() < n {
        return None;
    }
    let b: &[u8] = *input;
    let ghost bytes = b@.take(n as int);
    let mut v: u128 = 0;
    let mut k: usize = n;
    assert(bytes.subrange(n as int, n as int) == Seq::<u8>::empty());
    while k > 0
        invariant
            k <= n <= 16,
            n <= b@.len(),
            bytes == b@.take(n as int),
            v == le_value(bytes.subrange(k as int, n as int)),
        decreases k,
    {
        let ghost tail = bytes.subrange(k as int, n as int);
        proof {
            lemma_le_value_bound(tail);
            lemma_pow256_mono((n - k) as nat, 15);
            lemma_pow256_values();
            let t = bytes.subrange(k - 1, n as int);
            assert(t.drop_first() == tail);
        }
        k = k - 1;
        v = v * 256 + b[k] as u128;
    }
    assert(bytes.subrange(0, n as int) == bytes);
    let (_, rest) = b.split_at(n);
    *input = rest;
    Some(v)
}

/// Takes `n` bytes off the front of `input` as a big-endian integer; `None`,
/// with `input` left as it was, where fewer than `n` bytes remain.
pub fn read_be(input: &mut &[u8], n: usize) -> (r: Option<u128>)
    requires
        n <= 16,
    ensures
        old(input)@.len() < n ==> r is None && final(input)@ == old(input)@,
        old(input)@.len() >= n ==> r == Some(le_value(old(input)@.take(n as int).reverse()) as u128)
            && final(input)@ == old(input)@.skip(n as int),
{
    if input.len() < n {
        return None;
    }
    let b: &[u8] = *input;
    let mut v: u128 = 0;
    let mut k: usize = 0;
    assert(b@.take(0).reverse() == Seq::<u8>::empty());
    while k < n
        invariant
            k <= n <= 16,
            n <= b@.len(),
            v == le_value(b@.take(k as int).reverse()),
        decreases n - k,
    {
        proof {
            let prev = b@.take(k as int).reverse();
            lemma_le_value_bound(prev);
            lemma_pow256_mono(k as nat, 15);
            lemma_pow256_values();
            let next = b@.take(k + 1).reverse();
            assert(next[0] == b@[k as int]);
            assert(next.drop_first() == prev);
        }
        v = v * 256 + b[k] as u128;
        k = k + 1;
    }
    let (_, rest) = b.split_at(n);
    *input = rest;
    Some(v)
}

proof fn lemma_pow256_mono(a: nat, b: nat)
    requires
        a <= b,
    ensures
        pow256(a) <= pow256(b),
    decreases b,
{
    if a < b {
        lemma_pow256_mono(a, (b - 1) as nat);
        lemma_pow256_positive((b - 1) as nat);
    }
}

/// Reads one byte off the front of `input`.
pub fn read_le_u8(input: &mut &[u8]) -> (r: Option<u8>)
    ensures
        r is None <==> old(input)@.len() < 1,
        r is None ==> final(input)@ == old(input)@,
        forall|x: u8, rest: Seq<u8>|
            #![trigger u8_le(x) + rest]
            old(input)@ == u8_le(x) + rest <==> (r == Some(x) && final(input)@ == rest),
{
    let v = read_le(input, 1);
    let r = match v {
        Some(v) => Some(v as u8),
        None => None,
    };
    proof {
        lemma_pow256_values();
        if old(input)@.len() >= 1 {
            lemma_le_value_bound(old(input)@.take(1));
        }
        assert forall|x: u8, rest: Seq<u8>|
            #![trigger u8_le(x) + rest]
            old(input)@ == u8_le(x) + rest <==> (r == Some(x) && final(input)@ == rest) by {
            if old(input)@.len() >= 1 {
                lemma_le_split(old(input)@, 1, x as nat, rest);
            } else {
                lemma_le_too_short(old(input)@, 1, x as nat, rest);
            }
        }
    }
    r
}

/// Reads a two-byte little-endian integer off the front of `input`.
pub fn read_le_u16(input: &mut &[u8]) -> (r: Option<u16>)
    ensures
        r is None <==> old(input)@.len() < 2,
        r is None ==> final(input)@ == old(input)@,
        forall|x: u16, rest: Seq<u8>|
            #![trigger u16_le(x) + rest]
            old(input)@ == u16_le(x) + rest <==> (r == Some(x) && final(input)@ == rest),
{
    let v = read_le(input, 2);
    let r = match v {
        Some(v) => Some(v as u16),
        None => None,
    };
    proof {
        lemma_pow256_values();
        if old(input)@.len() >= 2 {
            lemma_le_value_bound(old(input)@.take(2));
        }
        assert forall|x: u16, rest: Seq<u8>|
            #![trigger u16_le(x) + rest]
            old(input)@ == u16_le(x) + rest <==> (r == Some(x) && final(input)@ == rest) by {
            if old(input)@.len() >= 2 {
                lemma_le_split(old(input)@, 2, x as nat, rest);
            } else {
                lemma_le_too_short(old(input)@, 2, x as nat, rest);
            }
        }
    }
    r
}

/// Reads a four-byte little-endian two's complement integer off the front of `input`.
pub fn read_le_i32(input: &mut &[u8]) -> (r: Option<i32>)
    ensures
        r is None <==> old(input)@.len() < 4,
        r is None ==> final(input)@ == old(input)@,
        forall|x: i32, rest: Seq<u8>|
            #![trigger i32_le(x) + rest]
            old(input)@ == i32_le(x) + rest <==> (r == Some(x) && final(input)@ == rest),
{
    let v = read_le(input, 4);
    let r = match v {
        Some(v) => {
            proof {
                lemma_pow256_values();
                lemma_le_value_bound(old(input)@.take(4));
            }
            if v >= 0x8000_0000 {
                Some((v as i64 - 0x1_0000_0000) as i32)
            } else {
                Some(v as i32)
            }
        },
        None => None,
    };
    proof {
        lemma_pow256_values();
        assert forall|x: i32, rest: Seq<u8>|
            #![trigger i32_le(x) + rest]
            old(input)@ == i32_le(x) + rest <==> (r == Some(x) && final(input)@ == rest) by {
            if old(input)@.len() >= 4 {
                lemma_le_split(old(input)@, 4, i32_bits(x), rest);
            } else {
                lemma_le_too_short(old(input)@, 4, i32_bits(x), rest);
            }
        }
    }
    r
}

/// Reads an eight-byte little-endian length off the front of `input`; `None`,
/// with `input` left as it was, where fewer than eight bytes remain or the
/// length does not fit a `usize`.
pub fn read_le_usize(input: &mut &[u8]) -> (r: Option<usize>)
    ensures
        r is None ==> final(input)@ == old(input)@,
        forall|x: usize, rest: Seq<u8>|
            #![trigger u64_le(x as nat) + rest]
            old(input)@ == u64_le(x as nat) + rest <==> (r == Some(x) && final(input)@ == rest),
{
    let saved: &[u8] = *input;
    let v = read_le(input, 8);
    let r = match v {
        Some(v) => {
            if v as u128 <= usize::MAX as u128 {
                Some(v as usize)
            } else {
                *input = saved;
                None
            }
        },
        None => None,
    };
    proof {
        lemma_pow256_values();
        assert forall|x: usize, rest: Seq<u8>|
            #![trigger u64_le(x as nat) + rest]
            old(input)@ == u64_le(x as nat) + rest <==> (r == Some(x) && final(input)@ == rest) by {
            if old(input)@.len() >= 8 {
                lemma_le_split(old(input)@, 8, x as nat, rest);
                lemma_le_value_bound(old(input)@.take(8));
            } else {
                lemma_le_too_short(old(input)@, 8, x as nat, rest);
            }
        }
    }
    r
}

/// Appends the `n` low bytes of `x` to `out`, least significant first.
pub fn push_le(out: &mut Vec<u8>, x: u128, n: usize)
    ensures
        final(out)@ == old(out)@ + le_bytes(x as nat, n as nat),
{
    let mut y: u128 = x;
    let mut i: usize = 0;
    assert(old(out)@ + le_bytes(x as nat, n as nat) == old(out)@ + le_bytes(x as nat, n as nat));
    while i < n
        invariant
            0 <= i <= n,
            out@ + le_bytes(y as nat, (n - i) as nat) == old(out)@ + le_bytes(x as nat, n as nat),
        decreases n - i,
    {
        let ghost before = out@;
        out.push((y % 256) as u8);
        proof {
            let m = (n - i) as nat;
            assert(le_bytes(y as nat, m) == seq![(y as nat % 256) as u8] + le_bytes(
                y as nat / 256,
                (m - 1) as nat,
            ));
            assert(out@ + le_bytes((y / 256) as nat, (m - 1) as nat) == before + le_bytes(
                y as nat,
                m,
            ));
        }
        y = y / 256;
        i = i + 1;
    }
    assert(le_bytes(y as nat, 0) == Seq::<u8>::empty());
    assert(out@ == out@ + Seq::<u8>::empty());
}

/// Appends the wire form of an `i32`.
pub fn push_i32(out: &mut Vec<u8>, x: i32)
    ensures
        final(out)@ == old(out)@ + i32_le(x),
{
    let bits: u128 = if x < 0 {
        (x as i64 + 0x1_0000_0000) as u128
    } else {
        x as u128
    };
    push_le(out, bits, 4);
}

/// Reads an eight-byte little-endian integer off the front of `input`.
pub fn read_le_u64(input: &mut &[u8]) -> (r: Option<u64>)
    ensures
        r is None <==> old(input)@.len() < 8,
        r is None ==> final(input)@ == old(input)@,
        forall|x: u64, rest: Seq<u8>|
            #![trigger u64_le(x as nat) + rest]
            old(input)@ == u64_le(x as nat) + rest <==> (r == Some(x) && final(input)@ == rest),
{
    let v = read_le(input, 8);
    let r = match v {
        Some(v) => {
            proof {
                lemma_pow256_values();
                lemma_le_value_bound(old(input)@.take(8));
            }
            Some(v as u64)
        },
        None => None,
    };
    proof {
        lemma_pow256_values();
        assert forall|x: u64, rest: Seq<u8>|
            #![trigger u64_le(x as nat) + rest]
            old(input)@ == u64_le(x as nat) + rest <==> (r == Some(x) && final(input)@ == rest) by {
            if old(input)@.len() >= 8 {
                lemma_le_split(old(input)@, 8, x as nat, rest);
            } else {
                lemma_le_too_short(old(input)@, 8, x as nat, rest);
            }
        }
    }
    r
}

/// Appends the `n` low bytes of `x` to `out`, most significant first.
pub fn push_be(out: &mut Vec<u8>, x: u128, n: usize)
    ensures
        final(out)@ == old(out)@ + le_bytes(x as nat, n as nat).reverse(),
{
    let mut low: Vec<u8> = Vec::new();
    push_le(&mut low, x, n);
    let ghost le = le_bytes(x as nat, n as nat);
    proof {
        lemma_le_bytes_len(x as nat, n as nat);
    }
    assert(low@ == le);
    let mut j: usize = low.len();
    assert(old(out)@ + le.subrange(j as int, n as int).reverse() == old(out)@);
    while j > 0
        invariant
            j <= n,
            low@ == le,
            le.len() == n,
            out@ == old(out)@ + le.subrange(j as int, n as int).reverse(),
        decreases j,
    {
        j = j - 1;
        out.push(low[j]);
        assert(le.subrange(j as int, n as int).reverse() == le.subrange(j + 1, n as int).reverse().push(
            le[j as int],
        ));
    }
    assert(le.subrange(0, n as int) == le);
}

/// The big-endian counterpart of [`lemma_le_split`].
pub proof fn lemma_be_split(s: Seq<u8>, n: nat, x: nat, rest: Seq<u8>)
    requires
        n <= s.len(),
    ensures
        (x < pow256(n) && s == le_bytes(x, n).reverse() + rest) <==> (x == le_value(
            s.take(n as int).reverse(),
        ) && rest == s.skip(n as int)),
{
    let head = s.take(n as int);
    lemma_le_bytes_len(x, n);
    lemma_le_bytes_of_value(head.reverse());
    lemma_le_value_bound(head.reverse());
    assert(head.reverse().reverse() == head);
    if x < pow256(n) && s == le_bytes(x, n).reverse() + rest {
        assert(head == le_bytes(x, n).reverse());
        assert(le_bytes(x, n).reverse().reverse() == le_bytes(x, n));
        assert(s.skip(n as int) == rest);
        lemma_le_value_of_bytes(x, n);
    }
    if x == le_value(head.reverse()) && rest == s.skip(n as int) {
        assert(s == head + s.skip(n as int));
    }
}

} // verus!
