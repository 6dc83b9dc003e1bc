//! Finding a pair or a triple of entries that sums to a target value.

use vstd::prelude::*;

use itertools::Itertools;

verus! {

/// All unordered pairs of entries in lexicographic position order:
/// each entry paired with every later one, earlier entries first.
pub open spec fn pair_combinations(s: Seq<u32>) -> Seq<(u32, u32)>
    decreases s.len(),
{
    if s.len() == 0 {
        Seq::empty()
    } else {
        s.skip(1).map_values(|x: u32| (s[0], x)) + pair_combinations(s.skip(1))
    }
}

/// All unordered triples of entries in lexicographic position order.
pub open spec fn triple_combinations(s: Seq<u32>) -> Seq<(u32, u32, u32)>
    decreases s.len(),
{
    if s.len() == 0 {
        Seq::empty()
    } else {
        pair_combinations(s.skip(1)).map_values(|p: (u32, u32)| (s[0], p.0, p.1))
            + triple_combinations(s.skip(1))
    }
}

/// Relies on itertools' `tuple_combinations` over a slice iterator: it
/// yields every pair of elements at positions `i < j` in lexicographic
/// position order.
#[verifier::external_body]
fn pair_combinations_vec(numbers: &[u32]) -> (r: Vec<(u32, u32)>)
    ensures
        r@ == pair_combinations(numbers@),
{
    numbers.iter().tuple_combinations().map(|(a, b): (&u32, &u32)| (*a, *b)).collect()
}

/// Relies on itertools' `tuple_combinations` over a slice iterator: it
/// yields every triple of elements at positions `i < j < k` in
/// lexicographic position order.
#[verifier::external_body]
fn triple_combinations_vec(numbers: &[u32]) -> (r: Vec<(u32, u32, u32)>)
    ensures
        r@ == triple_combinations(numbers@),
{
    numbers.iter().tuple_combinations().map(
        |(a, b, c): (&u32, &u32, &u32)| (*a, *b, *c),
    ).collect()
}

/// The first pair in the sequence whose members sum to `value`.
pub open spec fn first_pair_summing(ps: Seq<(u32, u32)>, value: u32) -> Option<(u32, u32)>
    decreases ps.len(),
{
    if ps.len() == 0 {
        None
    } else if ps[0].0 + ps[0].1 == value {
        Some(ps[0])
    } else {
        first_pair_summing(ps.skip(1), value)
    }
}

/// The first triple in the sequence whose members sum to `value`.
pub open spec fn first_triple_summing(ts: Seq<(u32, u32, u32)>, value: u32) -> Option<
    (u32, u32, u32),
>
    decreases ts.len(),
{
    if ts.len() == 0 {
        None
    } else if ts[0].0 + ts[0].1 + ts[0].2 == value {
        Some(ts[0])
    } else {
        first_triple_summing(ts.skip(1), value)
    }
}

/// The first pair of entries, scanning pairs in lexicographic position
/// order, that sums to `value`.
pub fn find_pair_summing_to(numbers: &[u32], value: u32) -> (r: Option<(u32, u32)>)
    ensures
        r == first_pair_summing(pair_combinations(numbers@), value),
{
    let pairs = pair_combinations_vec(numbers);
    let ghost ps = pair_combinations(numbers@);
    proof {
        assert(ps.skip(0) =~= ps);
    }
    let n = pairs.len();
    for k in 0..n
        invariant
            n == pairs@.len(),
            pairs@ == ps,
            ps == pair_combinations(numbers@),
            first_pair_summing(ps, value) == first_pair_summing(ps.skip(k as int), value),
    {
        let (a, b) = pairs[k];
        proof {
            assert(ps.skip(k as int)[0] == ps[k as int]);
        }
        if (a as u64) + (b as u64) == (value as u64) {
            proof {
                assert(first_pair_summing(ps.skip(k as int), value) == Some(
                    ps.skip(k as int)[0],
                ));
                assert((a, b) == ps[k as int]);
                assert(Some((a, b)) == first_pair_summing(ps, value));
            }
            return Some((a, b));
        }
        proof {
            assert(ps.skip(k as int).skip(1) =~= ps.skip(k + 1));
        }
    }
    proof {
        assert(ps.skip(n as int) =~= Seq::<(u32, u32)>::empty());
    }
    None
}

/// The first triple of entries, scanning triples in lexicographic position
/// order, that sums to `value`.
pub fn find_triple_summing_to(numbers: &[u32], value: u32) -> (r: Option<(u32, u32, u32)>)
    ensures
        r == first_triple_summing(triple_combinations(numbers@), value),
{
    let triples = triple_combinations_vec(numbers);
    let ghost ts = triple_combinations(numbers@);
    proof {
        assert(ts.skip(0) =~= ts);
    }
    let n = triples.len();
    for k in 0..n
        invariant
            n == triples@.len(),
            triples@ == ts,
            ts == triple_combinations(numbers@),
            first_triple_summing(ts, value) == first_triple_summing(ts.skip(k as int), value),
    {
        let (a, b, c) = triples[k];
        proof {
            assert(ts.skip(k as int)[0] == ts[k as int]);
        }
        if (a as u64) + (b as u64) + (c as u64) == (value as u64) {
            proof {
                assert(first_triple_summing(ts.skip(k as int), value) == Some(
                    ts.skip(k as int)[0],
                ));
                assert((a, b, c) == ts[k as int]);
                assert(Some((a, b, c)) == first_triple_summing(ts, value));
            }
            return Some((a, b, c));
        }
        proof {
            assert(ts.skip(k as int).skip(1) =~= ts.skip(k + 1));
        }
    }
    proof {
        assert(ts.skip(n as int) =~= Seq::<(u32, u32, u32)>::empty());
    }
    None
}

} // verus!
