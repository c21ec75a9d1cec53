//! Middle elements of a sample, the selection step of a median.
//!
//! Non-finite samples are left out; the rest are ordered through their
//! order keys. An odd number of finite samples has one middle element, an
//! even number two, whose mean is the median.
use vstd::prelude::*;
use vstd::relations::{sorted_by, total_ordering};
use vstd::seq_lib::{group_to_multiset_ensures, lemma_sorted_unique};
use crate::float_order::{
    float_eq, float_lt, is_finite, key_value, lemma_key_orders_like_value, INFINITY_MAGNITUDE, SIGN_BIT,
};

verus! {

/// The middle element(s) of the finite samples, by their bits.
#[derive(Clone, Copy, Debug, PartialEq, Eq, Structural)]
pub enum Middle {
    One(u64),
    Two(u64, u64),
}

/// The ascending order of keys.
pub open spec fn key_leq() -> spec_fn(u64, u64) -> bool {
    |a: u64, b: u64| a <= b
}

/// Order keys of the finite samples, in sample order.
pub open spec fn finite_keys_of(values: Seq<u64>) -> Seq<u64>
    decreases values.len(),
{
    if values.len() == 0 {
        Seq::empty()
    } else {
        let prev = finite_keys_of(values.drop_last());
        if is_finite(values.last()) {
            prev.push(key_value(values.last()) as u64)
        } else {
            prev
        }
    }
}

/// Order keys of the finite samples, ascending.
pub open spec fn sorted_finite_keys(values: Seq<u64>) -> Seq<u64> {
    finite_keys_of(values).sort_by(key_leq())
}

/// The bits of the finite value with order key `k`; a zero comes out as
/// positive zero.
pub open spec fn bits_of_key(k: u64) -> u64 {
    if k >= SIGN_BIT {
        (k - SIGN_BIT) as u64
    } else {
        (SIGN_BIT + (SIGN_BIT - 1 - k)) as u64
    }
}

/// The middle element(s) of the finite samples; none when there is none.
pub open spec fn middle_spec(values: Seq<u64>) -> Option<Middle> {
    let s = sorted_finite_keys(values);
    let n = s.len() as int;
    if n == 0 {
        None
    } else if n % 2 == 1 {
        Some(Middle::One(bits_of_key(s[n / 2])))
    } else {
        Some(Middle::Two(bits_of_key(s[n / 2 - 1]), bits_of_key(s[n / 2])))
    }
}

/// Relies on `slice::sort_unstable`: the slice ends up in ascending order,
/// holding the same elements.
#[verifier::external_body]
fn sort_ascending(v: &mut Vec<u64>)
    ensures
        sorted_by(final(v)@, key_leq()),
        final(v)@.to_multiset() == old(v)@.to_multiset(),
{
    v.sort_unstable();
}

fn key_to_bits(k: u64) -> (r: u64)
    ensures
        r == bits_of_key(k),
{
    if k >= SIGN_BIT {
        k - SIGN_BIT
    } else {
        SIGN_BIT + (SIGN_BIT - 1 - k)
    }
}

/// Order keys of the finite samples, in sample order.
pub fn finite_keys(values: &Vec<u64>) -> (r: Vec<u64>)
    ensures
        r@ == finite_keys_of(values@),
{
    let mut keys: Vec<u64> = Vec::new();
    let mut i: usize = 0;
    while i < values.len()
        invariant
            i <= values.len(),
            keys@ == finite_keys_of(values@.take(i as int)),
        decreases values.len() - i,
    {
        proof {
            assert(values@.take(i as int + 1).drop_last() =~= values@.take(i as int));
        }
        let v = values[i];
        let m = if v >= SIGN_BIT { v - SIGN_BIT } else { v };
        if m < INFINITY_MAGNITUDE {
            if v >= SIGN_BIT && m != 0 {
                keys.push(SIGN_BIT - 1 - m);
            } else {
                keys.push(SIGN_BIT + m);
            }
        }
        i = i + 1;
    }
    proof {
        assert(values@.take(values.len() as int) =~= values@);
    }
    keys
}

/// The middle element(s) of the finite samples, by their bits; none when
/// no sample is finite.
pub fn median_middle(values: &Vec<u64>) -> (r: Option<Middle>)
    ensures
        r == middle_spec(values@),
{
    let mut keys = finite_keys(values);
    let ghost unsorted = keys@;
    sort_ascending(&mut keys);
    proof {
        assert(total_ordering(key_leq()));
        unsorted.lemma_sort_by_ensures(key_leq());
        lemma_sorted_unique(keys@, unsorted.sort_by(key_leq()), key_leq());
        assert(keys@ == sorted_finite_keys(values@));
    }
    let n = keys.len();
    if n == 0 {
        None
    } else if n % 2 == 1 {
        Some(Middle::One(key_to_bits(keys[n / 2])))
    } else {
        Some(Middle::Two(key_to_bits(keys[n / 2 - 1]), key_to_bits(keys[n / 2])))
    }
}

/// `m` is finite and equal to one of the finite samples.
pub open spec fn is_sample_value(values: Seq<u64>, m: u64) -> bool {
    is_finite(m) && exists|i: int| 0 <= i < values.len() && is_finite(values[i]) && float_eq(#[trigger] values[i], m)
}

/// Each middle element is one of the finite samples, and the lower middle
/// is at most the upper one; so the median lies between the least and the
/// greatest finite sample. There is no middle only when no sample is
/// finite.
pub proof fn lemma_middle_is_sample(values: Seq<u64>)
    ensures
        match middle_spec(values) {
            Some(Middle::One(m)) => is_sample_value(values, m),
            Some(Middle::Two(a, b)) => is_sample_value(values, a) && is_sample_value(values, b) && !float_lt(b, a),
            None => forall|i: int| 0 <= i < values.len() ==> !is_finite(#[trigger] values[i]),
        },
{
    let keys = finite_keys_of(values);
    let s = sorted_finite_keys(values);
    assert(total_ordering(key_leq()));
    keys.lemma_sort_by_ensures(key_leq());
    let n = s.len() as int;
    if n == 0 {
        broadcast use group_to_multiset_ensures;
        assert(keys.to_multiset().len() == keys.len());
        assert(s.to_multiset().len() == s.len());
        lemma_no_finite_keys(values);
    } else {
        lemma_sorted_key_is_sample(values, n / 2);
        if n % 2 == 0 {
            lemma_sorted_key_is_sample(values, n / 2 - 1);
            assert(key_leq()(s[n / 2 - 1], s[n / 2]));
            lemma_key_orders_like_value(bits_of_key(s[n / 2]), bits_of_key(s[n / 2 - 1]));
        }
    }
}

proof fn lemma_sorted_key_is_sample(values: Seq<u64>, k: int)
    requires
        0 <= k < sorted_finite_keys(values).len(),
    ensures
        is_sample_value(values, bits_of_key(sorted_finite_keys(values)[k])),
        key_value(bits_of_key(sorted_finite_keys(values)[k])) == sorted_finite_keys(values)[k],
{
    broadcast use group_to_multiset_ensures;
    let keys = finite_keys_of(values);
    let s = sorted_finite_keys(values);
    assert(total_ordering(key_leq()));
    keys.lemma_sort_by_ensures(key_leq());
    assert(s.contains(s[k]));
    assert(s.to_multiset().count(s[k]) > 0);
    assert(keys.contains(s[k]));
    lemma_finite_key_source(values, s[k]);
    let i = choose|i: int| 0 <= i < values.len() && is_finite(values[i]) && #[trigger] key_value(values[i]) == s[k];
    lemma_key_round_trip(s[k]);
    lemma_key_orders_like_value(values[i], bits_of_key(s[k]));
}

proof fn lemma_finite_key_source(values: Seq<u64>, k: u64)
    requires
        finite_keys_of(values).contains(k),
    ensures
        exists|i: int| 0 <= i < values.len() && is_finite(values[i]) && #[trigger] key_value(values[i]) == k,
    decreases values.len(),
{
    let prev = values.drop_last();
    let pk = finite_keys_of(prev);
    if is_finite(values.last()) && k == key_value(values.last()) as u64 {
        assert(is_finite(values[values.len() - 1]));
    } else {
        if is_finite(values.last()) {
            let full = pk.push(key_value(values.last()) as u64);
            assert(finite_keys_of(values) == full);
            let j = choose|j: int| 0 <= j < full.len() && #[trigger] full[j] == k;
            assert(j < pk.len());
            assert(pk[j] == k);
        }
        assert(pk.contains(k));
        lemma_finite_key_source(prev, k);
        let i = choose|i: int| 0 <= i < prev.len() && is_finite(prev[i]) && #[trigger] key_value(prev[i]) == k;
        assert(prev[i] == values[i]);
    }
}

proof fn lemma_no_finite_keys(values: Seq<u64>)
    requires
        finite_keys_of(values).len() == 0,
    ensures
        forall|i: int| 0 <= i < values.len() ==> !is_finite(#[trigger] values[i]),
    decreases values.len(),
{
    if values.len() > 0 {
        let prev = values.drop_last();
        assert(!is_finite(values.last()));
        lemma_no_finite_keys(prev);
        assert forall|i: int| 0 <= i < values.len() implies !is_finite(#[trigger] values[i]) by {
            if i < prev.len() {
                assert(prev[i] == values[i]);
            }
        }
    }
}

/// A key of a finite value maps back to a finite value with that key.
proof fn lemma_key_round_trip(k: u64)
    requires
        exists|b: u64| is_finite(b) && key_value(b) == k,
    ensures
        is_finite(bits_of_key(k)),
        key_value(bits_of_key(k)) == k,
{
}

} // verus!
