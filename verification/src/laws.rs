use vstd::prelude::*;

use vstd::arithmetic::div_mod::{
    lemma_basic_div, lemma_div_basics, lemma_div_is_ordered, lemma_div_pos_is_pos,
    lemma_fundamental_div_mod, lemma_hoist_over_denominator, lemma_mod_multiples_vanish,
    lemma_small_mod,
};
use vstd::arithmetic::mul::{lemma_mul_inequality, lemma_mul_is_commutative};
use vstd::arithmetic::power2::{lemma2_to64, lemma_pow2_adds, lemma_pow2_pos, lemma_pow2_unfold,
    pow2};

use crate::forest::{
    aggregate, bit_set, count_present, decompose, flat_slots, num_slots, slots_wf, Merkle,
};

verus! {

/// The digit count of a number bounded between two neighbouring powers of
/// two is pinned: `2^k <= n < 2^(k+1)` forces `k + 1` digits.
proof fn lemma_num_slots_from_bounds(n: nat, k: nat)
    requires
        pow2(k) <= n < pow2(k + 1),
    ensures
        num_slots(n) == k + 1,
    decreases k,
{
    lemma2_to64();
    assert(num_slots(0) == 0);
    if k == 0 {
        assert(n == 1);
        assert(num_slots(1) == 1 + num_slots(0));
    } else {
        lemma_pow2_unfold(k);
        lemma_pow2_unfold(k + 1);
        lemma_pow2_pos((k - 1) as nat);
        lemma_fundamental_div_mod(n as int, 2);
        assert(pow2((k - 1) as nat) <= n / 2 < pow2(k));
        lemma_num_slots_from_bounds(n / 2, (k - 1) as nat);
        assert(num_slots(n) == 1 + num_slots(n / 2));
    }
}

/// Adding `2^big` on top leaves every bit and remainder below `big` alone.
proof fn lemma_low_digits_preserved(m: nat, big: nat, i: nat)
    requires
        i < big,
    ensures
        bit_set((m + pow2(big)) as nat, i) == bit_set(m, i),
        (m + pow2(big)) % pow2(i) == m % pow2(i),
{
    lemma_pow2_pos(i);
    lemma_pow2_adds(i, (big - i) as nat);
    assert(pow2(big) == pow2(i) * pow2((big - i) as nat));
    let j = pow2((big - i) as nat) as int;
    let d = pow2(i) as int;
    lemma_hoist_over_denominator(m as int, j, pow2(i));
    assert(m as int / d + j == (m as int + j * d) / d);
    lemma_mul_is_commutative(j, d);
    assert(pow2(big) as int == j * d);
    assert((m + pow2(big)) as int == m as int + j * d);
    assert((m + pow2(big)) as int / d == m as int / d + j);
    lemma_pow2_unfold((big - i) as nat);
    lemma_mod_multiples_vanish(
        pow2((big - i - 1) as nat) as int,
        m as int / pow2(i) as int,
        2,
    );
    lemma_mod_multiples_vanish(pow2((big - i) as nat) as int, m as int, pow2(i) as int);
}

/// Adding `2^big` to a number below `2^big` sets bit `big`, which was clear.
proof fn lemma_top_digit(m: nat, big: nat)
    requires
        m < pow2(big),
    ensures
        bit_set((m + pow2(big)) as nat, big),
        !bit_set(m, big),
{
    lemma_pow2_pos(big);
    let p = pow2(big) as int;
    let n = m as int + p;
    lemma_fundamental_div_mod(n, p);
    lemma_div_pos_is_pos(n, p);
    lemma_div_is_ordered(p, n, p);
    lemma_div_basics(p);
    let q = n / p;
    assert(q >= 1);
    if q >= 2 {
        lemma_mul_inequality(2, q, p);
        assert(false);
    }
    lemma_basic_div(m as int, p);
}

/// A set bit leaves room for a whole `2^i` block past the remainder.
proof fn lemma_offset_in_bounds(m: nat, i: nat)
    requires
        bit_set(m, i),
    ensures
        m % pow2(i) + pow2(i) <= m,
{
    lemma_pow2_pos(i);
    let p = pow2(i) as int;
    lemma_fundamental_div_mod(m as int, p);
    lemma_div_pos_is_pos(m as int, p);
    let q = m as int / p;
    assert(q % 2 == 1);
    lemma_mul_inequality(1, q, p);
    assert(m as int == p * q + m as int % p);
    assert(p <= q * p);
}

/// For a size-respecting slot sequence, the flattened digest sequence
/// recovers everything about the slots: its length is bounded by the slot
/// span, its bits say which slots are populated, the flattened prefixes give
/// each slot's offset, and the slot contents sit at those offsets.
proof fn lemma_flat_props(v: Seq<Option<Seq<Seq<char>>>>)
    requires
        forall|i: int|
            #![trigger v[i]]
            0 <= i < v.len() ==> (v[i] matches Some(b) ==> b.len() == pow2(i as nat)),
    ensures
        flat_slots(v).len() < pow2(v.len() as nat),
        forall|i: int|
            #![trigger v[i]]
            0 <= i < v.len() ==> (bit_set(flat_slots(v).len(), i as nat) <==> v[i] is Some),
        forall|i: int|
            0 <= i <= v.len() ==> #[trigger] flat_slots(v.take(i)).len() == flat_slots(v).len()
                % pow2(i as nat),
        forall|i: int|
            #![trigger v[i]]
            0 <= i < v.len() ==> (v[i] matches Some(b) ==> flat_slots(v).subrange(
                flat_slots(v.take(i)).len() as int,
                flat_slots(v.take(i)).len() as int + pow2(i as nat) as int,
            ) == b),
    decreases v.len(),
{
    lemma2_to64();
    if v.len() == 0 {
        assert(flat_slots(v).len() == 0);
        assert forall|i: int| 0 <= i <= v.len() implies #[trigger] flat_slots(v.take(i)).len()
            == flat_slots(v).len() % pow2(i as nat) by {
            assert(v.take(i) =~= v);
            lemma_small_mod(0, pow2(0));
        }
    } else {
        let w = v.drop_last();
        let big = v.len() - 1;
        assert forall|i: int| 0 <= i < w.len() implies (#[trigger] w[i] matches Some(b)
            ==> b.len() == pow2(i as nat)) by {
            assert(w[i] == v[i]);
        }
        lemma_flat_props(w);
        let m = flat_slots(w).len();
        let n = flat_slots(v).len();
        lemma_pow2_pos(big as nat);
        lemma_pow2_unfold((big + 1) as nat);
        assert(flat_slots(v) == flat_slots(w) + (match v.last() {
            Some(b) => b,
            None => Seq::<Seq<char>>::empty(),
        }));
        assert(v[big] == v.last());
        if v[big] is Some {
            assert(n == m + pow2(big as nat));
        } else {
            assert(n == m);
        }
        // (1) the flattened length stays under the slot span
        assert(n < pow2(v.len() as nat));
        // (2) bits identify the populated slots
        assert forall|i: int| 0 <= i < v.len() implies (bit_set(n, i as nat) <==> (
        #[trigger] v[i]) is Some) by {
            if i < big {
                assert(v[i] == w[i]);
                assert(bit_set(m, i as nat) <==> w[i] is Some);
                if v[big] is Some {
                    lemma_low_digits_preserved(m, big as nat, i as nat);
                }
            } else {
                if v[big] is Some {
                    lemma_top_digit(m, big as nat);
                } else {
                    lemma_top_digit(n, big as nat);
                }
            }
        }
        // (3) flattened prefixes are the remainders
        assert forall|i: int| 0 <= i <= v.len() implies #[trigger] flat_slots(v.take(i)).len()
            == n % pow2(i as nat) by {
            lemma_pow2_pos(i as nat);
            if i <= big {
                assert(v.take(i) =~= w.take(i));
                assert(flat_slots(w.take(i)).len() == m % pow2(i as nat));
                if v[big] is Some {
                    if i < big {
                        lemma_low_digits_preserved(m, big as nat, i as nat);
                    } else {
                        lemma_small_mod(m, pow2(big as nat));
                        lemma_mod_multiples_vanish(1, m as int, pow2(big as nat) as int);
                    }
                }
            } else {
                assert(v.take(i) =~= v);
                lemma_small_mod(n, pow2(i as nat));
            }
        }
        // (4) each populated slot sits at its offset in the flattening
        assert forall|i: int| 0 <= i < v.len() implies ((#[trigger] v[i]) matches Some(b)
            ==> flat_slots(v).subrange(
            flat_slots(v.take(i)).len() as int,
            flat_slots(v.take(i)).len() as int + pow2(i as nat) as int,
        ) == b) by {
            if v[i] is Some {
                let b = v[i]->Some_0;
                let p = pow2(i as nat) as int;
                lemma_pow2_pos(i as nat);
                let off = flat_slots(v.take(i)).len() as int;
                if i < big {
                    assert(v.take(i) =~= w.take(i));
                    assert(w[i] == v[i]);
                    assert(flat_slots(w).subrange(off, off + p) == b);
                    assert(bit_set(m, i as nat));
                    lemma_offset_in_bounds(m, i as nat);
                    assert(flat_slots(w.take(i)).len() == m % pow2(i as nat));
                    assert(off + p <= m);
                    assert(flat_slots(v).subrange(off, off + p) =~= flat_slots(w).subrange(
                        off,
                        off + p,
                    ));
                } else {
                    assert(v.take(i) =~= w);
                    assert(off == m);
                    assert(b.len() == pow2(big as nat));
                    assert(flat_slots(v).subrange(off, off + p) =~= b);
                }
            }
        }
    }
}

/// The round-trip law tying incremental growth to batch construction: a
/// well-formed forest is exactly the binary decomposition of its own
/// flattened key sequence, so rebuilding a forest from its keys reproduces
/// every slot.
pub proof fn lemma_forest_rebuild(v: Seq<Option<Seq<Seq<char>>>>)
    requires
        slots_wf(v),
    ensures
        decompose(flat_slots(v)) == v,
{
    lemma_flat_props(v);
    let n = flat_slots(v).len();
    if v.len() == 0 {
        assert(num_slots(0) == 0);
        assert(decompose(flat_slots(v)) =~= v);
    } else {
        let big = v.len() - 1;
        lemma_pow2_pos(big as nat);
        assert(v[big] == v.last());
        assert(bit_set(n, big as nat));
        // the top bit is set, so n has exactly v.len() digits
        lemma_fundamental_div_mod(n as int, pow2(big as nat) as int);
        let q = n as int / pow2(big as nat) as int;
        assert(q % 2 == 1);
        lemma_div_pos_is_pos(n as int, pow2(big as nat) as int);
        lemma_mul_inequality(1, q, pow2(big as nat) as int);
        assert(n as int == pow2(big as nat) as int * q + n as int % pow2(big as nat) as int);
        assert(pow2(big as nat) as int <= q * pow2(big as nat) as int);
        assert(pow2(big as nat) <= n);
        lemma_num_slots_from_bounds(n, big as nat);
        assert(num_slots(n) == v.len());
        assert forall|i: int| 0 <= i < v.len() implies decompose(flat_slots(v))[i] == v[i] by {
            assert(flat_slots(v.take(i)).len() == n % pow2(i as nat));
            if v[i] is Some {
                assert(bit_set(n, i as nat));
            } else {
                assert(!bit_set(n, i as nat));
            }
        }
        assert(decompose(flat_slots(v)) =~= v);
    }
}

/// The committed root is a pure function of the forest's flattened key
/// sequence: two well-formed forests over the same keys agree slot for
/// slot, and hence on root and completeness flag. With `Merkle::new`'s
/// contract this ties any incrementally grown forest to the one batch-built
/// from the same flattened keys.
pub proof fn lemma_root_is_function_of_keys(m1: &Merkle, m2: &Merkle)
    requires
        m1.wf(),
        m2.wf(),
        flat_slots(m1.subtrees.deep_view()) == flat_slots(m2.subtrees.deep_view()),
    ensures
        m1.subtrees.deep_view() == m2.subtrees.deep_view(),
        m1.root@ == m2.root@,
        m1.is_complete == m2.is_complete,
{
    lemma_slots_wf_of_wf(m1);
    lemma_slots_wf_of_wf(m2);
    lemma_forest_rebuild(m1.subtrees.deep_view());
    lemma_forest_rebuild(m2.subtrees.deep_view());
    assert(m1.subtrees.deep_view() == m2.subtrees.deep_view());
    assert(m1.root@ == aggregate(m1.subtrees.deep_view()));
    assert(m1.is_complete == (count_present(m1.subtrees.deep_view()) <= 1));
}

/// A well-formed forest's slot views are structurally well-formed.
pub proof fn lemma_slots_wf_of_wf(m: &Merkle)
    requires
        m.wf(),
    ensures
        slots_wf(m.subtrees.deep_view()),
{
    let dv = m.subtrees.deep_view();
    assert forall|i: int| 0 <= i < dv.len() implies ((#[trigger] dv[i]) matches Some(b)
        ==> b.len() == pow2(i as nat)) by {
        assert(dv[i] == m.subtrees@[i].deep_view());
    }
    if dv.len() > 0 {
        assert(dv[dv.len() - 1] == m.subtrees@[dv.len() - 1].deep_view());
        assert(m.subtrees@.last() is Some);
        assert(dv.last() is Some);
    }
}

} // verus!
