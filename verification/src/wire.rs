//! Integers in network byte order.

use vstd::prelude::*;

verus! {

/// The low `n` bytes of `value`, the most significant first.
pub open spec fn be_bytes(value: nat, n: nat) -> Seq<u8>
    decreases n,
{
    if n == 0 {
        seq![]
    } else {
        be_bytes(value / 256, (n - 1) as nat).push((value % 256) as u8)
    }
}

/// The number that bytes in network order stand for.
pub open spec fn be_value(bytes: Seq<u8>) -> nat
    decreases bytes.len(),
{
    if bytes.len() == 0 {
        0
    } else {
        be_value(bytes.drop_last()) * 256 + bytes.last() as nat
    }
}

/// The number of values of `n` bytes.
pub open spec fn pow256(n: nat) -> nat
    decreases n,
{
    if n == 0 {
        1
    } else {
        256 * pow256((n - 1) as nat)
    }
}

/// Appends the low `n` bytes of `value`.
pub fn put_be(out: &mut Vec<u8>, value: u64, n: usize)
    ensures
        final(out)@ == old(out)@ + be_bytes(value as nat, n as nat),
    decreases n,
{
    if n > 0 {
        put_be(out, value / 256, n - 1);
        out.push((value % 256) as u8);
        assert(out@ =~= old(out)@ + be_bytes(value as nat, n as nat));
    } else {
        assert(out@ =~= old(out)@ + be_bytes(value as nat, 0));
    }
}

/// The number that at most eight bytes stand for.
pub fn get_be(bytes: &[u8]) -> (value: u64)
    requires
        bytes.len() <= 8,
    ensures
        value == be_value(bytes@),
{
    let mut value: u64 = 0;
    let mut i: usize = 0;
    assert(bytes@.subrange(0, 0) =~= Seq::empty());
    while i < bytes.len()
        invariant
            i <= bytes.len() <= 8,
            value == be_value(bytes@.subrange(0, i as int)),
        decreases bytes.len() - i,
    {
        proof {
            let front = bytes@.subrange(0, i as int);
            let next = bytes@.subrange(0, i + 1);
            assert(next.drop_last() =~= front);
            lemma_be_value_bound(front);
            lemma_pow256_monotonic(i as nat, 7);
            reveal_with_fuel(pow256, 9);
        }
        value = value * 256 + bytes[i] as u64;
        i += 1;
    }
    assert(bytes@.subrange(0, i as int) =~= bytes@);
    value
}

pub proof fn lemma_pow256_monotonic(a: nat, b: nat)
    requires
        a <= b,
    ensures
        0 < pow256(a) <= pow256(b),
    decreases b,
{
    if a < b {
        lemma_pow256_monotonic(a, (b - 1) as nat);
    } else if a > 0 {
        lemma_pow256_monotonic((a - 1) as nat, (b - 1) as nat);
    }
}

pub proof fn lemma_be_value_bound(bytes: Seq<u8>)
    ensures
        be_value(bytes) < pow256(bytes.len()),
    decreases bytes.len(),
{
    if bytes.len() > 0 {
        lemma_be_value_bound(bytes.drop_last());
    }
}

pub proof fn lemma_be_bytes_len(value: nat, n: nat)
    ensures
        be_bytes(value, n).len() == n,
    decreases n,
{
    if n > 0 {
        lemma_be_bytes_len(value / 256, (n - 1) as nat);
    }
}

/// Reading the low `n` bytes of a value that fits in them gives the value.
pub proof fn law_be_round_trip(value: nat, n: nat)
    requires
        value < pow256(n),
    ensures
        be_bytes(value, n).len() == n,
        be_value(be_bytes(value, n)) == value,
    decreases n,
{
    if n > 0 {
        law_be_round_trip(value / 256, (n - 1) as nat);
        assert(be_bytes(value, n).drop_last() =~= be_bytes(value / 256, (n - 1) as nat));
    }
}

/// Reading the low `n` bytes of a value gives what is left of it beyond them.
pub proof fn lemma_low_bytes(value: nat, n: nat)
    ensures
        be_value(be_bytes(value, n)) == value % pow256(n),
    decreases n,
{
    lemma_pow256_monotonic(0, n);
    if n > 0 {
        lemma_low_bytes(value / 256, (n - 1) as nat);
        assert(be_bytes(value, n).drop_last() =~= be_bytes(value / 256, (n - 1) as nat));
        let p = pow256((n - 1) as nat);
        lemma_pow256_monotonic(0, (n - 1) as nat);
        vstd::arithmetic::div_mod::lemma_mod_breakdown(value as int, 256, p as int);
    }
}

/// Whether two byte strings are equal.
pub fn same_bytes(a: &[u8], b: &[u8]) -> (result: bool)
    ensures
        result == (a@ == b@),
{
    if a.len() != b.len() {
        return false;
    }
    let mut i: usize = 0;
    while i < a.len()
        invariant
            i <= a.len() == b.len(),
            forall|k: int| 0 <= k < i ==> a@[k] == b@[k],
        decreases a.len() - i,
    {
        if a[i] != b[i] {
            return false;
        }
        i += 1;
    }
    assert(a@ =~= b@);
    true
}

/// The first byte counts most: each byte counts 256 times what the next one does.
pub proof fn law_most_significant_first(first: u8, rest: Seq<u8>)
    ensures
        be_value(seq![first] + rest) == first * pow256(rest.len()) + be_value(rest),
        pow256(0) == 1,
        pow256(rest.len() + 1) == 256 * pow256(rest.len()),
        be_value(Seq::empty()) == 0,
        be_value(seq![first]) == first,
    decreases rest.len(),
{
    let all = seq![first] + rest;
    assert(seq![first].drop_last() =~= Seq::empty());
    assert(be_value(Seq::empty()) == 0);
    if rest.len() == 0 {
        assert(all =~= seq![first]);
    } else {
        law_most_significant_first(first, rest.drop_last());
        assert(all.drop_last() =~= seq![first] + rest.drop_last());
        let p = pow256((rest.len() - 1) as nat);
        assert(first * p * 256 == first * (256 * p)) by (nonlinear_arith);
    }
}

/// Bytes are those of one number only.
pub proof fn lemma_be_unique(bytes: Seq<u8>)
    ensures
        be_bytes(be_value(bytes), bytes.len()) == bytes,
    decreases bytes.len(),
{
    if bytes.len() > 0 {
        let v = be_value(bytes.drop_last());
        let b = bytes.last() as nat;
        lemma_be_unique(bytes.drop_last());
        assert((v * 256 + b) / 256 == v);
        assert((v * 256 + b) % 256 == b);
        assert(bytes.drop_last().push(bytes.last()) =~= bytes);
    }
}

} // verus!
