//! Integers of a fixed number of bytes, the highest byte first.

use vstd::prelude::*;

verus! {

/// The number of values that `n` bytes can have.
pub open spec fn span(n: nat) -> nat
    decreases n,
{
    if n == 0 {
        1
    } else {
        256 * span((n - 1) as nat)
    }
}

/// The number that a row of bytes holds.
pub open spec fn worth(s: Seq<u8>) -> nat
    decreases s.len(),
{
    if s.len() == 0 {
        0
    } else {
        worth(s.drop_last()) * 256 + s.last() as nat
    }
}

/// The lowest `n` bytes of a number.
pub open spec fn low_bytes(x: nat, n: nat) -> Seq<u8>
    decreases n,
{
    if n == 0 {
        Seq::empty()
    } else {
        low_bytes(x / 256, (n - 1) as nat).push((x % 256) as u8)
    }
}

/// The number that a row of bytes holds in two's complement.
pub open spec fn signed_worth(s: Seq<u8>) -> int {
    if 2 * worth(s) >= span(s.len()) {
        worth(s) - span(s.len())
    } else {
        worth(s) as int
    }
}

/// The two's complement of an integer in `n` bytes.
pub open spec fn signed_bytes(i: int, n: nat) -> Seq<u8> {
    low_bytes(if i < 0 { (i + span(n)) as nat } else { i as nat }, n)
}

pub proof fn lemma_low_bytes_len(x: nat, n: nat)
    ensures
        low_bytes(x, n).len() == n,
    decreases n,
{
    if n > 0 {
        lemma_low_bytes_len(x / 256, (n - 1) as nat);
    }
}

/// What a row of bytes holds is below the number of values that it can have.
pub proof fn lemma_worth_below_span(s: Seq<u8>)
    ensures
        worth(s) < span(s.len()),
    decreases s.len(),
{
    if s.len() > 0 {
        lemma_worth_below_span(s.drop_last());
    }
}

/// A number reads back from bytes that have room for it.
pub proof fn lemma_worth_of_low_bytes(x: nat, n: nat)
    requires
        x < span(n),
    ensures
        worth(low_bytes(x, n)) == x,
    decreases n,
{
    if n > 0 {
        lemma_worth_of_low_bytes(x / 256, (n - 1) as nat);
        let s = low_bytes(x, n);
        assert(s.drop_last() =~= low_bytes(x / 256, (n - 1) as nat));
    }
}

/// An integer reads back from a two's complement that has room for it.
pub proof fn lemma_signed_reads_back(i: int, n: nat)
    requires
        -(span(n) as int) <= 2 * i < span(n),
    ensures
        signed_worth(signed_bytes(i, n)) == i,
        signed_bytes(i, n).len() == n,
{
    let x = if i < 0 {
        (i + span(n)) as nat
    } else {
        i as nat
    };
    lemma_worth_of_low_bytes(x, n);
    lemma_low_bytes_len(x, n);
}

/// The spans of up to eight bytes.
pub proof fn lemma_spans()
    ensures
        span(0) == 1,
        span(1) == 0x100,
        span(2) == 0x1_0000,
        span(3) == 0x100_0000,
        span(4) == 0x1_0000_0000,
        span(5) == 0x100_0000_0000,
        span(6) == 0x1_0000_0000_0000,
        span(7) == 0x100_0000_0000_0000,
        span(8) == 0x1_0000_0000_0000_0000,
{
    reveal_with_fuel(span, 9);
}

/// A shorter row of bytes can have fewer values.
proof fn lemma_span_increases(a: nat, b: nat)
    requires
        a <= b,
    ensures
        span(a) <= span(b),
    decreases b,
{
    if a < b {
        lemma_span_increases(a, (b - 1) as nat);
    }
}

/// Reads the number that up to eight bytes hold.
pub fn read_unsigned(s: &[u8]) -> (r: u64)
    requires
        s@.len() <= 8,
    ensures
        r == worth(s@),
{
    let mut r: u64 = 0;
    assert(s@.take(0) =~= Seq::<u8>::empty());
    for i in 0..s.len()
        invariant
            s@.len() <= 8,
            r == worth(s@.take(i as int)),
    {
        proof {
            let grown = s@.take(i + 1);
            assert(grown.drop_last() =~= s@.take(i as int));
            lemma_worth_below_span(grown);
            lemma_span_increases(grown.len(), 8);
            lemma_spans();
        }
        r = r * 256 + s[i] as u64;
    }
    assert(s@.take(s@.len() as int) =~= s@);
    r
}

/// Reads the integer that one to eight bytes hold in two's complement.
pub fn read_signed(s: &[u8]) -> (r: i64)
    requires
        1 <= s@.len() <= 8,
    ensures
        r == signed_worth(s@),
{
    let plain: u64 = read_unsigned(s);
    let n: usize = s.len();
    let mut span_n: u128 = 1;
    proof {
        lemma_spans();
        lemma_worth_below_span(s@);
        lemma_span_increases(s@.len(), 8);
    }
    for i in 0..n
        invariant
            n <= 8,
            span_n == span(i as nat),
    {
        proof {
            lemma_spans();
            lemma_span_increases((i + 1) as nat, 8);
        }
        span_n = span_n * 256;
    }
    if 2 * (plain as u128) >= span_n {
        (plain as i128 - span_n as i128) as i64
    } else {
        plain as i64
    }
}

/// Writes the lowest `n` bytes of a number.
pub fn write_unsigned(x: u128, n: u8) -> (r: Vec<u8>)
    ensures
        r@ == low_bytes(x as nat, n as nat),
    decreases n,
{
    if n == 0 {
        Vec::new()
    } else {
        let mut r = write_unsigned(x / 256, n - 1);
        r.push((x % 256) as u8);
        r
    }
}

/// Writes the two's complement of an integer in one to eight bytes.
pub fn write_signed(i: i64, n: u8) -> (r: Vec<u8>)
    requires
        1 <= n <= 8,
        -(span(n as nat) as int) <= 2 * i < span(n as nat),
    ensures
        r@ == signed_bytes(i as int, n as nat),
{
    if i >= 0 {
        return write_unsigned(i as u128, n);
    }
    let mut span_n: i128 = 1;
    for k in 0..n
        invariant
            n <= 8,
            span_n == span(k as nat),
    {
        proof {
            lemma_spans();
            lemma_span_increases((k + 1) as nat, 8);
        }
        span_n = span_n * 256;
    }
    proof {
        lemma_spans();
        lemma_span_increases(n as nat, 8);
    }
    write_unsigned((i as i128 + span_n) as u128, n)
}

} // verus!
