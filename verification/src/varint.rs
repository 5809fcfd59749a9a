//! Integers of variable length.
//!
//! An integer is a row of bytes with seven bits each, the highest first, all
//! but the last of them marked by their top bit. A ninth byte, if there is one,
//! is the last and holds eight bits.

use vstd::prelude::*;

verus! {

/// The number of marked bytes that it takes to hold `x`.
pub open spec fn marked_count(x: nat) -> nat
    decreases x,
{
    if x == 0 {
        0
    } else {
        marked_count(x / 128) + 1
    }
}

/// The lowest `n` groups of seven bits of `x`, as marked bytes.
pub open spec fn marked_bytes(x: nat, n: nat) -> Seq<u8>
    decreases n,
{
    if n == 0 {
        Seq::empty()
    } else {
        marked_bytes(x / 128, (n - 1) as nat).push((128 + x % 128) as u8)
    }
}

/// The bytes of an integer.
pub open spec fn varint_bytes(v: u64) -> Seq<u8> {
    if v < 0x100_0000_0000_0000 {
        let high = (v / 128) as nat;
        marked_bytes(high, marked_count(high)).push((v % 128) as u8)
    } else {
        marked_bytes((v / 256) as nat, 8).push((v % 256) as u8)
    }
}

/// What the bytes from the `k`th on make of the groups read so far: the integer
/// and the number of its bytes. `None` where the bytes end too early.
pub open spec fn varint_from(s: Seq<u8>, read: nat, k: nat) -> Option<(nat, nat)>
    decreases 8 - k,
{
    if k >= s.len() || k > 8 {
        None
    } else if k == 8 {
        Some((read * 256 + s[8] as nat, 9))
    } else if s[k as int] < 128 {
        Some((read * 128 + s[k as int] as nat, k + 1))
    } else {
        varint_from(s, (read * 128 + (s[k as int] - 128)) as nat, k + 1)
    }
}

/// The integer at the start of a row of bytes, and the number of its bytes.
pub open spec fn varint_at(s: Seq<u8>) -> Option<(nat, nat)> {
    varint_from(s, 0, 0)
}

/// Whether `n` groups of seven bits hold all of `x`.
pub open spec fn fits_groups(x: nat, n: nat) -> bool
    decreases n,
{
    if n == 0 {
        x == 0
    } else {
        fits_groups(x / 128, (n - 1) as nat)
    }
}

proof fn lemma_marked_len(x: nat, n: nat)
    ensures
        marked_bytes(x, n).len() == n,
    decreases n,
{
    if n > 0 {
        lemma_marked_len(x / 128, (n - 1) as nat);
    }
}

proof fn lemma_marked_count_fits(x: nat)
    ensures
        fits_groups(x, marked_count(x)),
    decreases x,
{
    if x > 0 {
        lemma_marked_count_fits(x / 128);
    }
}

/// Marked bytes are read as the number that they hold.
proof fn lemma_read_marked(s: Seq<u8>, x: nat, n: nat)
    requires
        n <= 8,
        n <= s.len(),
        s.take(n as int) == marked_bytes(x, n),
        fits_groups(x, n),
    ensures
        varint_from(s, 0, 0) == varint_from(s, x, n),
    decreases n,
{
    if n > 0 {
        lemma_marked_len(x / 128, (n - 1) as nat);
        let all = marked_bytes(x, n);
        assert(s.take(n - 1) =~= s.take(n as int).drop_last());
        assert(all.drop_last() =~= marked_bytes(x / 128, (n - 1) as nat));
        lemma_read_marked(s, x / 128, (n - 1) as nat);
        assert(s[n - 1] == s.take(n as int)[n - 1]);
        assert(s[n - 1] == (128 + x % 128) as u8);
        assert((x / 128) * 128 + x % 128 == x);
    }
}

/// An integer reads back from its bytes, whatever follows them.
pub proof fn lemma_varint_reads_back(v: u64, rest: Seq<u8>)
    ensures
        varint_at(varint_bytes(v) + rest) == Some((v as nat, varint_bytes(v).len())),
        1 <= varint_bytes(v).len() <= 9,
{
    let s = varint_bytes(v) + rest;
    if v < 0x100_0000_0000_0000 {
        let high = (v / 128) as nat;
        let n = marked_count(high);
        assert(n <= 8) by {
            reveal_with_fuel(marked_count, 9);
        }
        lemma_marked_count_fits(high);
        lemma_marked_len(high, n);
        assert(s.take(n as int) =~= marked_bytes(high, n));
        lemma_read_marked(s, high, n);
        assert(n < 8) by {
            reveal_with_fuel(marked_count, 8);
        }
        assert(s[n as int] == (v % 128) as u8);
    } else {
        let high = (v / 256) as nat;
        assert(fits_groups(high, 8)) by {
            reveal_with_fuel(fits_groups, 9);
        }
        lemma_marked_len(high, 8);
        assert(s.take(8) =~= marked_bytes(high, 8));
        lemma_read_marked(s, high, 8);
        assert(s[8] == (v % 256) as u8);
    }
}

/// A larger number does not take fewer marked bytes.
pub proof fn lemma_marked_count_grows(a: nat, b: nat)
    requires
        a <= b,
    ensures
        marked_count(a) <= marked_count(b),
    decreases b,
{
    if a > 0 {
        lemma_marked_count_grows(a / 128, b / 128);
    }
}

/// The number of bytes of an integer.
pub proof fn lemma_varint_len(v: u64)
    ensures
        varint_bytes(v).len() == if v < 0x100_0000_0000_0000 {
            marked_count((v / 128) as nat) + 1
        } else {
            9
        },
{
    lemma_marked_len((v / 128) as nat, marked_count((v / 128) as nat));
    lemma_marked_len((v / 256) as nat, 8);
}

/// What has been read stays below the limit of its groups.
pub open spec fn groups_limit(k: nat) -> nat
    decreases k,
{
    if k == 0 {
        1
    } else {
        128 * groups_limit((k - 1) as nat)
    }
}

/// Reads the integer at the start of a row of bytes.
pub fn read_varint(s: &[u8]) -> (r: Option<(u64, usize)>)
    ensures
        match r {
            Some((v, n)) => varint_at(s@) == Some((v as nat, n as nat)) && 1 <= n <= s@.len(),
            None => varint_at(s@) is None,
        },
{
    let mut read: u64 = 0;
    let mut k: usize = 0;
    while k < 8
        invariant
            k <= 8,
            k <= s@.len(),
            varint_at(s@) == varint_from(s@, read as nat, k as nat),
            read < groups_limit(k as nat),
        decreases 8 - k,
    {
        if k >= s.len() {
            return None;
        }
        let b: u8 = s[k];
        proof {
            assert(groups_limit(k as nat) <= 0x2_0000_0000_0000) by {
                reveal_with_fuel(groups_limit, 9);
            }
        }
        if b < 128 {
            return Some((read * 128 + b as u64, k + 1));
        }
        read = read * 128 + (b - 128) as u64;
        k = k + 1;
    }
    if k >= s.len() {
        return None;
    }
    proof {
        assert(groups_limit(8) == 0x100_0000_0000_0000) by {
            reveal_with_fuel(groups_limit, 9);
        }
    }
    Some((read * 256 + s[8] as u64, 9))
}

/// Writes marked bytes.
fn write_marked(x: u64, n: u64) -> (r: Vec<u8>)
    ensures
        r@ == marked_bytes(x as nat, n as nat),
    decreases n,
{
    if n == 0 {
        Vec::new()
    } else {
        let mut r = write_marked(x / 128, n - 1);
        r.push((128 + x % 128) as u8);
        r
    }
}

/// The number of marked bytes that it takes to hold an integer.
fn count_marked(x: u64) -> (n: u64)
    ensures
        n == marked_count(x as nat),
        n <= x,
    decreases x,
{
    if x == 0 {
        0
    } else {
        count_marked(x / 128) + 1
    }
}

/// Writes an integer.
pub fn write_varint(v: u64) -> (r: Vec<u8>)
    ensures
        r@ == varint_bytes(v),
{
    if v < 0x100_0000_0000_0000 {
        let high: u64 = v / 128;
        let mut r = write_marked(high, count_marked(high));
        r.push((v % 128) as u8);
        r
    } else {
        let mut r = write_marked(v / 256, 8);
        r.push((v % 256) as u8);
        r
    }
}

} // verus!
