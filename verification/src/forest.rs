use vstd::prelude::*;

use vstd::arithmetic::power2::{
    lemma2_to64, lemma_pow2_adds, lemma_pow2_pos, lemma_pow2_unfold, pow2,
};

use crate::hashes::{combine, encode};
use crate::subtree::{is_power2, lemma_found_is_contains, root_of, subtree_found, subtree_frag,
    MerklePow2};

verus! {

/// The number of binary digits of `n`: how many slots a forest of `n` keys
/// spans (zero for an empty forest).
pub open spec fn num_slots(n: nat) -> nat
    decreases n,
{
    if n == 0 {
        0
    } else {
        1 + num_slots(n / 2)
    }
}

/// Bit `i` of `n`.
pub open spec fn bit_set(n: nat, i: nat) -> bool {
    (n / pow2(i)) % 2 == 1
}

/// The binary decomposition of a key sequence into forest slots: slot `i`
/// holds the next `2^i` keys exactly when bit `i` of the key count is set,
/// with lower slots taking earlier keys.
pub open spec fn decompose(keys: Seq<Seq<char>>) -> Seq<Option<Seq<Seq<char>>>> {
    Seq::new(
        num_slots(keys.len()),
        |i: int|
            if bit_set(keys.len(), i as nat) {
                Some(
                    keys.subrange(
                        (keys.len() % pow2(i as nat)) as int,
                        (keys.len() % pow2(i as nat)) as int + pow2(i as nat) as int,
                    ),
                )
            } else {
                None
            },
    )
}

/// How many slots are populated.
pub open spec fn count_present(slots: Seq<Option<Seq<Seq<char>>>>) -> nat
    decreases slots.len(),
{
    if slots.len() == 0 {
        0
    } else {
        count_present(slots.drop_last()) + (if slots.last() is Some {
            1nat
        } else {
            0nat
        })
    }
}

/// The root-aggregation fold from slot `i` upward, with running aggregate
/// `acc`: a populated slot combines its root on the left of the running
/// aggregate (seeding the aggregate with its own root when the aggregate is
/// still empty and the slot is not the top one); an empty slot pads by
/// self-combination.
pub open spec fn agg_from(slots: Seq<Option<Seq<Seq<char>>>>, i: int, acc: Seq<char>) -> Seq<char>
    decreases slots.len() - i,
{
    if i < 0 || i >= slots.len() {
        acc
    } else {
        let acc2 = match slots[i] {
            Some(b) => {
                let r = root_of(b);
                let seeded = if acc.len() == 0 && i != slots.len() - 1 {
                    r
                } else {
                    acc
                };
                r + seeded
            },
            None => acc + acc,
        };
        agg_from(slots, i + 1, acc2)
    }
}

/// The forest's committed root: the aggregation fold over all slots,
/// starting from the empty aggregate.
pub open spec fn aggregate(slots: Seq<Option<Seq<Seq<char>>>>) -> Seq<char> {
    agg_from(slots, 0, Seq::empty())
}

/// All leaf digests of the forest, lowest slot first; each slot contributes
/// its base in insertion order.
pub open spec fn flat_slots(slots: Seq<Option<Seq<Seq<char>>>>) -> Seq<Seq<char>>
    decreases slots.len(),
{
    if slots.len() == 0 {
        Seq::empty()
    } else {
        flat_slots(slots.drop_last()) + (match slots.last() {
            Some(b) => b,
            None => Seq::empty(),
        })
    }
}

/// The carry-propagating append of a one-or-more-leaf carry `carry` into the
/// slots from index `i` upward: an empty slot takes the carry; a populated
/// slot is emptied and joined onto the left of the carry, which doubles and
/// moves up; a carry past the top becomes a new top slot.
pub open spec fn add_slots(
    slots: Seq<Option<Seq<Seq<char>>>>,
    carry: Seq<Seq<char>>,
    i: int,
) -> Seq<Option<Seq<Seq<char>>>>
    decreases slots.len() - i,
{
    if i < 0 || i >= slots.len() {
        slots.push(Some(carry))
    } else {
        match slots[i] {
            Some(b) => add_slots(slots.update(i, None), b + carry, i + 1),
            None => slots.update(i, Some(carry)),
        }
    }
}

/// Proof elements pushed after the key's slot has been passed, scanning from
/// slot `i` with running aggregate `acc`: a populated slot contributes its
/// own root, an empty slot contributes the running aggregate itself (the
/// padding value), and the aggregate folds on exactly as in `agg_from`.
pub open spec fn proof_post(slots: Seq<Option<Seq<Seq<char>>>>, i: int, acc: Seq<char>) -> Seq<
    Seq<char>,
>
    decreases slots.len() - i,
{
    if i < 0 || i >= slots.len() {
        Seq::empty()
    } else {
        match slots[i] {
            Some(b) => seq![root_of(b)] + proof_post(slots, i + 1, root_of(b) + acc),
            None => seq![acc] + proof_post(slots, i + 1, acc + acc),
        }
    }
}

/// Proof elements produced while the key is still being looked for, scanning
/// from slot `i` with running aggregate `acc`: slots that miss the key only
/// fold into the aggregate; the slot that holds it contributes its sibling
/// path and the pre-fold aggregate, after which `proof_post` takes over.
/// Empty when no slot holds the key.
pub open spec fn proof_pre(
    slots: Seq<Option<Seq<Seq<char>>>>,
    h: Seq<char>,
    i: int,
    acc: Seq<char>,
) -> Seq<Seq<char>>
    decreases slots.len() - i,
{
    if i < 0 || i >= slots.len() {
        Seq::empty()
    } else {
        match slots[i] {
            Some(b) => {
                let acc1 = if acc.len() == 0 {
                    root_of(b)
                } else {
                    acc
                };
                if subtree_found(b, h) {
                    subtree_frag(b, h) + seq![acc1] + proof_post(
                        slots,
                        i + 1,
                        root_of(b) + acc1,
                    )
                } else {
                    proof_pre(slots, h, i + 1, root_of(b) + acc1)
                }
            },
            None => proof_pre(slots, h, i + 1, acc + acc),
        }
    }
}

/// The completed membership proof for digest `h`: the search-and-collect
/// fold over all slots, with the trailing element dropped when the forest is
/// complete (a single populated slot), since it is then redundant with the
/// published root.
pub open spec fn forest_proof(
    slots: Seq<Option<Seq<Seq<char>>>>,
    complete: bool,
    h: Seq<char>,
) -> Seq<Seq<char>> {
    let p = proof_pre(slots, h, 0, Seq::empty());
    if complete && p.len() > 0 {
        p.drop_last()
    } else {
        p
    }
}

/// When no populated slot holds the digest, the search fold produces no
/// proof elements.
pub proof fn lemma_proof_pre_absent(
    slots: Seq<Option<Seq<Seq<char>>>>,
    h: Seq<char>,
    i: int,
    acc: Seq<char>,
)
    requires
        forall|j: int|
            #![trigger slots[j]]
            0 <= j < slots.len() ==> (slots[j] matches Some(b) ==> is_power2(b.len())
                && !b.contains(h)),
    ensures
        proof_pre(slots, h, i, acc) == Seq::<Seq<char>>::empty(),
    decreases slots.len() - i,
{
    if 0 <= i < slots.len() {
        match slots[i] {
            Some(b) => {
                lemma_found_is_contains(b, h);
                let acc1 = if acc.len() == 0 {
                    root_of(b)
                } else {
                    acc
                };
                lemma_proof_pre_absent(slots, h, i + 1, root_of(b) + acc1);
            },
            None => {
                lemma_proof_pre_absent(slots, h, i + 1, acc + acc);
            },
        }
    }
}

/// Structural well-formedness of a slot sequence: slot `i` holds `2^i`
/// digests when populated, and a non-empty forest's top slot is populated.
pub open spec fn slots_wf(slots: Seq<Option<Seq<Seq<char>>>>) -> bool {
    &&& forall|i: int|
        #![trigger slots[i]]
        0 <= i < slots.len() ==> (slots[i] matches Some(b) ==> b.len() == pow2(i as nat))
    &&& slots.len() > 0 ==> slots.last() is Some
}

/// `2^e` is a power of two in the recursive sense.
pub proof fn lemma_is_power2_pow2(e: nat)
    ensures
        is_power2(pow2(e)),
    decreases e,
{
    if e == 0 {
        lemma2_to64();
    } else {
        lemma_pow2_unfold(e);
        lemma_pow2_pos((e - 1) as nat);
        lemma_is_power2_pow2((e - 1) as nat);
    }
}

/// A positive count has its top bit within its digit span: `2^(d-1) <= n <
/// 2^d` where `d` is the digit count.
pub proof fn lemma_num_slots_bounds(n: nat)
    requires
        n > 0,
    ensures
        num_slots(n) >= 1,
        pow2((num_slots(n) - 1) as nat) <= n < pow2(num_slots(n)),
    decreases n,
{
    lemma2_to64();
    assert(num_slots(0) == 0);
    if n == 1 {
        assert(num_slots(1) == 1 + num_slots(0));
    } else {
        lemma_num_slots_bounds(n / 2);
        vstd::arithmetic::div_mod::lemma_fundamental_div_mod(n as int, 2);
        let k = (num_slots(n / 2) - 1) as nat;
        lemma_pow2_unfold((k + 1) as nat);
        lemma_pow2_unfold((k + 2) as nat);
        assert(pow2(k + 1) == 2 * pow2(k));
        assert(pow2(k + 2) == 2 * pow2(k + 1));
        assert(num_slots(n) - 1 == k + 1);
    }
}

/// Appending a slot adds one to the populated count exactly when it is
/// populated.
pub proof fn lemma_count_present_push(slots: Seq<Option<Seq<Seq<char>>>>, x: Option<Seq<Seq<char>>>)
    ensures
        count_present(slots.push(x)) == count_present(slots) + (if x is Some {
            1nat
        } else {
            0nat
        }),
{
    assert(slots.push(x).drop_last() =~= slots);
    assert(slots.push(x).last() == x);
}

/// A populated slot makes the populated count positive.
pub proof fn lemma_count_present_at_least_one(slots: Seq<Option<Seq<Seq<char>>>>, a: int)
    requires
        0 <= a < slots.len(),
        slots[a] is Some,
    ensures
        count_present(slots) >= 1,
    decreases slots.len(),
{
    if a < slots.len() - 1 {
        assert(slots.drop_last()[a] == slots[a]);
        lemma_count_present_at_least_one(slots.drop_last(), a);
    }
}

/// Two distinct populated slots make the populated count at least two.
pub proof fn lemma_count_present_at_least_two(slots: Seq<Option<Seq<Seq<char>>>>, a: int, b: int)
    requires
        0 <= a < b < slots.len(),
        slots[a] is Some,
        slots[b] is Some,
    ensures
        count_present(slots) >= 2,
    decreases slots.len(),
{
    if b == slots.len() - 1 {
        assert(slots.drop_last()[a] == slots[a]);
        lemma_count_present_at_least_one(slots.drop_last(), a);
    } else {
        assert(slots.drop_last()[a] == slots[a]);
        assert(slots.drop_last()[b] == slots[b]);
        lemma_count_present_at_least_two(slots.drop_last(), a, b);
    }
}

/// A slot sequence with no populated slot has populated count zero.
pub proof fn lemma_count_present_all_none(slots: Seq<Option<Seq<Seq<char>>>>)
    requires
        forall|j: int| 0 <= j < slots.len() ==> slots[j] is None,
    ensures
        count_present(slots) == 0,
    decreases slots.len(),
{
    if slots.len() > 0 {
        assert forall|j: int| 0 <= j < slots.drop_last().len() implies slots.drop_last()[j]
            is None by {
            assert(slots.drop_last()[j] == slots[j]);
        }
        lemma_count_present_all_none(slots.drop_last());
    }
}

/// The incremental Merkle forest: one optional perfect subtree per bit of
/// the element count, an aggregate root over the populated slots, and a flag
/// recording whether at most one slot is populated.
#[derive(Debug)]
pub struct Merkle {
    pub root: String,
    pub subtrees: Vec<Option<MerklePow2>>,
    pub is_complete: bool,
}

impl Merkle {
    /// Well-formed: each populated slot holds a well-formed subtree of the
    /// size its position dictates, the top slot of a non-empty forest is
    /// populated, the stored root is the aggregation over the slots, and the
    /// completeness flag matches the populated-slot count.
    pub open spec fn wf(&self) -> bool {
        &&& forall|i: int|
            #![trigger self.subtrees@[i]]
            0 <= i < self.subtrees@.len() ==> (self.subtrees@[i] matches Some(t) ==> t.wf()
                && t.base@.len() == pow2(i as nat))
        &&& self.subtrees@.len() > 0 ==> self.subtrees@.last() is Some
        &&& self.root@ == aggregate(self.subtrees.deep_view())
        &&& self.is_complete == (count_present(self.subtrees.deep_view()) <= 1)
    }

    /// Builds a forest from a batch of keys of any size: the key count's
    /// binary expansion decides which slots are populated, each set bit
    /// consuming the next run of keys into a perfect subtree; the aggregate
    /// root is then computed over the slots.
    pub fn new(data: Vec<String>) -> (res: Merkle)
        ensures
            res.wf(),
            res.subtrees.deep_view() == decompose(data.deep_view()),
    {
        let total = data.len();
        let mut subtrees: Vec<Option<MerklePow2>> = Vec::new();
        let mut len_rem: usize = total;
        let mut size: usize = 1;
        let mut idx: usize = 0;
        let mut is_complete: bool = true;
        let ghost mut e: nat = 0;
        let ghost mut present: nat = 0;
        proof {
            lemma2_to64();
            vstd::arithmetic::div_mod::lemma_div_basics(total as int);
            vstd::arithmetic::div_mod::lemma_fundamental_div_mod(total as int, 1);
            assert(subtrees.deep_view() =~= Seq::<Option<Seq<Seq<char>>>>::empty());
            assert(count_present(Seq::<Option<Seq<Seq<char>>>>::empty()) == 0);
        }
        while len_rem > 0
            invariant
                total == data@.len(),
                e == subtrees@.len(),
                len_rem == total as nat / pow2(e),
                idx == total as nat % pow2(e),
                len_rem > 0 ==> size == pow2(e),
                num_slots(total as nat) == e + num_slots(len_rem as nat),
                present == count_present(subtrees.deep_view()),
                is_complete == (present == 0 || (present == 1 && len_rem == 0)),
                forall|j: int|
                    #![trigger subtrees@[j]]
                    0 <= j < e ==> match subtrees@[j] {
                        Some(t) => {
                            &&& bit_set(total as nat, j as nat)
                            &&& t.wf()
                            &&& t.base@.len() == pow2(j as nat)
                            &&& t.base@ == data@.subrange(
                                (total as nat % pow2(j as nat)) as int,
                                (total as nat % pow2(j as nat)) as int + pow2(j as nat) as int,
                            )
                        },
                        None => !bit_set(total as nat, j as nat),
                    },
            decreases len_rem,
        {
            proof {
                lemma2_to64();
                lemma_pow2_pos(e);
                vstd::arithmetic::div_mod::lemma_fundamental_div_mod(
                    total as int,
                    pow2(e) as int,
                );
                vstd::arithmetic::mul::lemma_mul_inequality(
                    1,
                    len_rem as int,
                    pow2(e) as int,
                );
            }
            if len_rem % 2 == 1 {
                let mut chunk: Vec<String> = Vec::new();
                let mut j: usize = 0;
                while j < size
                    invariant
                        j <= size,
                        idx + size <= total,
                        total == data@.len(),
                        chunk@ == data@.subrange(idx as int, idx as int + j as int),
                    decreases size - j,
                {
                    chunk.push(data[idx + j].clone());
                    proof {
                        assert(chunk@ =~= data@.subrange(idx as int, idx as int + j + 1));
                    }
                    j = j + 1;
                }
                proof {
                    lemma_is_power2_pow2(e);
                }
                let t = MerklePow2::new(chunk);
                let ghost pre_dv = subtrees.deep_view();
                subtrees.push(Some(t));
                proof {
                    assert(subtrees.deep_view() =~= pre_dv.push(Some(t.base.deep_view())));
                    lemma_count_present_push(pre_dv, Some(t.base.deep_view()));
                    present = present + 1;
                }
                idx = idx + size;
                if len_rem != 1 {
                    is_complete = false;
                }
            } else {
                let ghost pre_dv = subtrees.deep_view();
                subtrees.push(None);
                proof {
                    assert(subtrees.deep_view() =~= pre_dv.push(None));
                    lemma_count_present_push(pre_dv, None);
                }
            }
            proof {
                lemma_pow2_pos(e);
                lemma_pow2_adds(e, 1);
                vstd::arithmetic::div_mod::lemma_div_denominator(
                    total as int,
                    pow2(e) as int,
                    2,
                );
                vstd::arithmetic::div_mod::lemma_mod_breakdown(
                    total as int,
                    pow2(e) as int,
                    2,
                );
                assert(pow2(e + 1) == pow2(e) * 2);
                assert(total as int % (pow2(e) as int * 2) == pow2(e) as int * ((total as int
                    / pow2(e) as int) % 2) + total as int % pow2(e) as int);
                assert(total as int / pow2(e) as int == len_rem as int);
                assert((len_rem as int) % 2 == 1 ==> idx as int == total as int % pow2(e) as int
                    + pow2(e) as int);
                assert((len_rem as int) % 2 == 0 ==> idx as int == total as int % pow2(e) as int);
                assert(idx as int == total as int % (pow2(e) as int * 2));
                assert(idx == total as nat % pow2((e + 1) as nat));
                e = e + 1;
            }
            len_rem = len_rem / 2;
            if len_rem > 0 {
                proof {
                    lemma_pow2_pos(e);
                    vstd::arithmetic::div_mod::lemma_fundamental_div_mod(
                        total as int,
                        pow2(e) as int,
                    );
                    vstd::arithmetic::mul::lemma_mul_inequality(
                        1,
                        len_rem as int,
                        pow2(e) as int,
                    );
                }
                size = size * 2;
            }
        }
        proof {
            let keys = data.deep_view();
            assert(num_slots(0) == 0);
            assert(num_slots(keys.len()) == e);
            assert forall|j: int| 0 <= j < e implies subtrees.deep_view()[j] == decompose(
                keys,
            )[j] by {
                let p = pow2(j as nat) as int;
                let off = (total as nat % pow2(j as nat)) as int;
                assert(subtrees.deep_view()[j] == subtrees@[j].deep_view());
                match subtrees@[j] {
                    Some(t) => {
                        lemma_pow2_pos(j as nat);
                        vstd::arithmetic::div_mod::lemma_fundamental_div_mod(total as int, p);
                        vstd::arithmetic::div_mod::lemma_div_pos_is_pos(total as int, p);
                        let q = total as int / p;
                        assert(q % 2 == 1);
                        assert(q >= 1);
                        vstd::arithmetic::mul::lemma_mul_inequality(1, q, p);
                        assert(total as int == p * q + off);
                        assert(p <= q * p);
                        assert(off + p <= total);
                        assert forall|x: int| 0 <= x < p implies t.base.deep_view()[x]
                            == keys.subrange(off, off + p)[x] by {
                            assert(t.base.deep_view()[x] == t.base@[x]@);
                            assert(t.base@[x] == data@.subrange(off, off + p)[x]);
                            assert(keys[off + x] == data@[off + x]@);
                        }
                        assert(t.base.deep_view() =~= keys.subrange(off, off + p));
                    },
                    None => {},
                }
            }
            assert(subtrees.deep_view() =~= decompose(keys));
            // the top slot of a non-empty forest is populated
            if total > 0 {
                lemma_num_slots_bounds(total as nat);
                let k = (num_slots(total as nat) - 1) as nat;
                let p = pow2(k) as int;
                lemma_pow2_pos(k);
                lemma_pow2_unfold(k + 1);
                vstd::arithmetic::div_mod::lemma_fundamental_div_mod(total as int, p);
                let q = total as int / p;
                vstd::arithmetic::div_mod::lemma_div_is_ordered(p, total as int, p);
                vstd::arithmetic::div_mod::lemma_div_basics(p);
                assert(q >= 1);
                if q >= 2 {
                    vstd::arithmetic::mul::lemma_mul_inequality(2, q, p);
                    assert(false);
                }
                assert(bit_set(total as nat, k));
                assert(subtrees@[k as int] is Some);
            }
        }
        let mut res = Merkle { root: String::new(), subtrees, is_complete };
        res.update_root();
        proof {
            assert(res.subtrees@.len() > 0 ==> res.subtrees@.last() is Some);
            assert(res.is_complete == (count_present(res.subtrees.deep_view()) <= 1));
        }
        res
    }

    /// Returns the committed root of the forest.
    pub fn get_root(&self) -> (res: String)
        ensures
            res == self.root,
            self.wf() ==> res@ == aggregate(self.subtrees.deep_view()),
    {
        self.root.clone()
    }

    /// Appends a single key: the key becomes a one-leaf subtree that carries
    /// through the slots from the smallest size upward, joining each
    /// populated slot onto its left and vacating it, until an empty slot (or
    /// a new top slot) takes it; the root is then recomputed. Mirrors a
    /// binary-counter increment. An empty forest takes the key as its first
    /// slot.
    pub fn add_key(&mut self, key: String)
        requires
            old(self).wf(),
        ensures
            final(self).wf(),
            final(self).subtrees.deep_view() == add_slots(
                old(self).subtrees.deep_view(),
                seq![key@],
                0,
            ),
    {
        let ghost old_dv = self.subtrees.deep_view();
        let mut carrier_base: Vec<String> = Vec::new();
        carrier_base.push(key.clone());
        let mut carrier = MerklePow2 { root: encode(key), base: carrier_base };
        proof {
            lemma2_to64();
            assert(carrier.base.deep_view() =~= seq![carrier.root@]);
            assert(carrier.base.deep_view() == seq![key@]);
            assert(root_of(carrier.base.deep_view()) == carrier.root@);
            assert(is_power2(1));
        }
        self.is_complete = false;
        let len = self.subtrees.len();
        let mut i: usize = 0;
        while i < len
            invariant
                old(self).wf(),
                len == old(self).subtrees@.len(),
                len == self.subtrees@.len(),
                i <= len,
                old_dv == old(self).subtrees.deep_view(),
                self.root == old(self).root,
                self.is_complete == false,
                carrier.wf(),
                carrier.base@.len() == pow2(i as nat),
                add_slots(old_dv, seq![key@], 0) == add_slots(
                    self.subtrees.deep_view(),
                    carrier.base.deep_view(),
                    i as int,
                ),
                forall|j: int|
                    #![trigger self.subtrees@[j]]
                    0 <= j < i as int ==> self.subtrees@[j] is None,
                forall|j: int|
                    #![trigger self.subtrees@[j]]
                    i as int <= j < len ==> self.subtrees@[j] == old(self).subtrees@[j],
            decreases len - i,
        {
            let slot_filled = self.subtrees[i].is_some();
            if slot_filled {
                let ghost pre_dv = self.subtrees.deep_view();
                let ghost pre_carrier = carrier.base.deep_view();
                match &self.subtrees[i] {
                    Some(t) => {
                        carrier.join(t);
                    },
                    None => {},
                }
                self.subtrees[i] = None;
                proof {
                    lemma_pow2_unfold((i + 1) as nat);
                    assert(self.subtrees.deep_view() =~= pre_dv.update(i as int, None));
                    assert(pre_dv[i as int] matches Some(b) && carrier.base.deep_view() =~= b
                        + pre_carrier);
                }
                i = i + 1;
            } else {
                let ghost pre_dv = self.subtrees.deep_view();
                let ghost placed = carrier.base.deep_view();
                proof {
                    // the carry can never land on the top slot: that slot was
                    // populated before the call and has not been visited
                    if i as int == len - 1 {
                        assert(old(self).subtrees@[i as int] is Some);
                        assert(self.subtrees@[i as int] is Some);
                        assert(false);
                    }
                }
                self.subtrees[i] = Some(carrier);
                proof {
                    assert(self.subtrees.deep_view() =~= pre_dv.update(i as int, Some(placed)));
                    assert(add_slots(old_dv, seq![key@], 0) == self.subtrees.deep_view());
                    assert(self.subtrees@[len - 1] is Some);
                    assert(self.subtrees@.last() is Some);
                    assert(self.subtrees.deep_view()[i as int] is Some);
                    assert(self.subtrees.deep_view()[len - 1] is Some);
                    lemma_count_present_at_least_two(
                        self.subtrees.deep_view(),
                        i as int,
                        len - 1,
                    );
                }
                self.update_root();
                return ;
            }
        }
        let ghost pre_dv = self.subtrees.deep_view();
        let ghost placed = carrier.base.deep_view();
        self.subtrees.push(Some(carrier));
        proof {
            assert(self.subtrees.deep_view() =~= pre_dv.push(Some(placed)));
            assert(add_slots(old_dv, seq![key@], 0) == self.subtrees.deep_view());
            lemma_count_present_push(pre_dv, Some(placed));
            assert forall|j: int| 0 <= j < pre_dv.len() implies pre_dv[j] is None by {
                assert(self.subtrees@[j] is None);
            }
            lemma_count_present_all_none(pre_dv);
            assert(self.subtrees@.last() is Some);
        }
        self.update_root();
        self.is_complete = true;
    }

    /// Builds the membership proof for a key: the key's slot contributes its
    /// sibling path and the aggregate of everything smaller, every later
    /// slot contributes one element (its root, or the padding aggregate when
    /// empty), and a complete forest drops the redundant trailing element.
    /// Returns an empty sequence when no slot holds the key.
    pub fn membership_proof(&self, key: String) -> (path: Vec<String>)
        requires
            self.wf(),
        ensures
            path.deep_view() == forest_proof(
                self.subtrees.deep_view(),
                self.is_complete,
                key@,
            ),
            (forall|j: int|
                #![trigger self.subtrees@[j]]
                0 <= j < self.subtrees@.len() ==> (self.subtrees@[j] matches Some(t)
                    ==> !t.base.deep_view().contains(key@))) ==> path@.len() == 0,
    {
        let ghost dv = self.subtrees.deep_view();
        let mut path: Vec<String> = Vec::new();
        let hash = encode(key);
        let mut cur = String::new();
        let mut found = false;
        let len = self.subtrees.len();
        let mut i: usize = 0;
        while i < len
            invariant_except_break
                self.wf(),
                dv == self.subtrees.deep_view(),
                len == self.subtrees@.len(),
                i <= len,
                hash@ == key@,
                !found,
                path@.len() == 0,
                proof_pre(dv, hash@, 0, Seq::empty()) == proof_pre(dv, hash@, i as int, cur@),
            ensures
                self.wf(),
                dv == self.subtrees.deep_view(),
                len == self.subtrees@.len(),
                i <= len,
                hash@ == key@,
                found ==> proof_pre(dv, hash@, 0, Seq::empty()) == path.deep_view()
                    + proof_post(dv, i as int, cur@),
                !found ==> i == len && path@.len() == 0 && proof_pre(
                    dv,
                    hash@,
                    0,
                    Seq::empty(),
                ) == Seq::<Seq<char>>::empty(),
            decreases len - i,
        {
            let ghost acc = cur@;
            match &self.subtrees[i] {
                Some(s) => {
                    proof {
                        assert(self.subtrees@[i as int] matches Some(t) && t.wf());
                        assert(dv[i as int] matches Some(b) && b == s.base.deep_view());
                    }
                    let ghost pre_path = path.deep_view();
                    let f = s.generate_proof(hash.clone(), &mut path);
                    if cur.as_str().is_empty() {
                        cur = s.root.clone();
                    }
                    let ghost acc1 = cur@;
                    if f {
                        path.push(cur.clone());
                        cur = combine(&s.root, &cur);
                        found = true;
                        proof {
                            let b = s.base.deep_view();
                            assert(path.deep_view() =~~= pre_path + subtree_frag(b, hash@)
                                + seq![acc1]);
                            assert(pre_path =~~= Seq::<Seq<char>>::empty());
                            assert(proof_pre(dv, hash@, i as int, acc) == subtree_frag(b, hash@)
                                + seq![acc1] + proof_post(dv, i as int + 1, root_of(b) + acc1));
                            assert(cur@ == root_of(b) + acc1);
                            assert(path.deep_view() =~~= subtree_frag(b, hash@) + seq![acc1]);
                            assert(proof_pre(dv, hash@, 0, Seq::empty()) == path.deep_view()
                                + proof_post(dv, i as int + 1, cur@));
                        }
                    } else {
                        cur = combine(&s.root, &cur);
                        proof {
                            let b = s.base.deep_view();
                            assert(subtree_frag(b, hash@) == Seq::<Seq<char>>::empty());
                            assert(path.deep_view() =~~= Seq::<Seq<char>>::empty());
                            assert(proof_pre(dv, hash@, i as int, acc) == proof_pre(
                                dv,
                                hash@,
                                i as int + 1,
                                root_of(b) + acc1,
                            ));
                        }
                    }
                },
                None => {
                    cur = combine(&cur, &cur);
                    proof {
                        assert(dv[i as int] is None);
                        assert(proof_pre(dv, hash@, i as int, acc) == proof_pre(
                            dv,
                            hash@,
                            i as int + 1,
                            acc + acc,
                        ));
                    }
                },
            }
            i = i + 1;
            if found {
                break ;
            }
        }
        while i < len
            invariant
                self.wf(),
                dv == self.subtrees.deep_view(),
                len == self.subtrees@.len(),
                i <= len,
                hash@ == key@,
                found ==> proof_pre(dv, hash@, 0, Seq::empty()) == path.deep_view()
                    + proof_post(dv, i as int, cur@),
                !found ==> i == len && path@.len() == 0 && proof_pre(
                    dv,
                    hash@,
                    0,
                    Seq::empty(),
                ) == Seq::<Seq<char>>::empty(),
            decreases len - i,
        {
            proof {
                assert(found);
            }
            let ghost acc = cur@;
            let ghost pre_path = path.deep_view();
            match &self.subtrees[i] {
                Some(s) => {
                    path.push(s.root.clone());
                    cur = combine(&s.root, &cur);
                    proof {
                        assert(self.subtrees@[i as int] matches Some(t) && t.wf());
                        assert(dv[i as int] matches Some(b) && b == s.base.deep_view());
                        assert(path.deep_view() =~~= pre_path + seq![root_of(
                            s.base.deep_view(),
                        )]);
                        assert(proof_post(dv, i as int, acc) == seq![root_of(
                            s.base.deep_view(),
                        )] + proof_post(dv, i as int + 1, cur@));
                    }
                },
                None => {
                    path.push(cur.clone());
                    cur = combine(&cur, &cur);
                    proof {
                        assert(dv[i as int] is None);
                        assert(path.deep_view() =~~= pre_path + seq![acc]);
                        assert(proof_post(dv, i as int, acc) == seq![acc] + proof_post(
                            dv,
                            i as int + 1,
                            cur@,
                        ));
                    }
                },
            }
            i = i + 1;
        }
        proof {
            assert(proof_pre(dv, hash@, 0, Seq::empty()) == path.deep_view());
        }
        if self.is_complete {
            let ghost pre_path = path.deep_view();
            let _dropped = path.pop();
            proof {
                if pre_path.len() > 0 {
                    assert(path.deep_view() =~~= pre_path.drop_last());
                } else {
                    assert(path.deep_view() =~~= pre_path);
                }
            }
        }
        proof {
            if (forall|j: int|
                #![trigger self.subtrees@[j]]
                0 <= j < self.subtrees@.len() ==> (self.subtrees@[j] matches Some(t)
                    ==> !t.base.deep_view().contains(key@))) {
                assert forall|j: int| 0 <= j < dv.len() implies (#[trigger] dv[j]) matches Some(
                    b,
                ) ==> is_power2(b.len()) && !b.contains(hash@) by {
                    assert(dv[j] == self.subtrees@[j].deep_view());
                    if self.subtrees@[j] is Some {
                        lemma_is_power2_pow2(j as nat);
                    }
                }
                lemma_proof_pre_absent(dv, hash@, 0, Seq::empty());
            }
        }
        path
    }

    /// Recomputes the stored root by folding the slots from the smallest
    /// size upward, as `aggregate` describes.
    fn update_root(&mut self)
        requires
            forall|i: int|
                #![trigger old(self).subtrees@[i]]
                0 <= i < old(self).subtrees@.len() ==> (old(self).subtrees@[i] matches Some(t)
                    ==> t.wf()),
        ensures
            final(self).subtrees == old(self).subtrees,
            final(self).is_complete == old(self).is_complete,
            final(self).root@ == aggregate(old(self).subtrees.deep_view()),
    {
        let ghost dv = self.subtrees.deep_view();
        let mut cur = String::new();
        let len = self.subtrees.len();
        let mut i: usize = 0;
        while i < len
            invariant
                *self == *old(self),
                dv == self.subtrees.deep_view(),
                len == self.subtrees@.len(),
                i <= len,
                forall|j: int|
                    #![trigger self.subtrees@[j]]
                    0 <= j < len ==> (self.subtrees@[j] matches Some(t) ==> t.wf()),
                agg_from(dv, i as int, cur@) == aggregate(dv),
            decreases len - i,
        {
            match &self.subtrees[i] {
                Some(t) => {
                    if cur.as_str().is_empty() && i != len - 1 {
                        cur = t.root.clone();
                    }
                    cur = combine(&t.root, &cur);
                    proof {
                        assert(dv[i as int] matches Some(b) && b == t.base.deep_view());
                        assert(t.root@ == root_of(t.base.deep_view()));
                    }
                },
                None => {
                    cur = combine(&cur, &cur);
                    proof {
                        assert(dv[i as int] is None);
                    }
                },
            }
            i = i + 1;
        }
        self.root = cur;
    }
}

impl PartialEq for Merkle {
    /// Structural equality: same stored root, same completeness flag, and
    /// slot-for-slot equal subtrees.
    fn eq(&self, other: &Merkle) -> (r: bool) {
        if !(self.root == other.root) {
            return false;
        }
        if self.is_complete != other.is_complete {
            return false;
        }
        if self.subtrees.len() != other.subtrees.len() {
            return false;
        }
        let n = self.subtrees.len();
        let mut i: usize = 0;
        while i < n
            invariant
                n == self.subtrees@.len(),
                n == other.subtrees@.len(),
                i <= n,
                self.root@ == other.root@,
                self.is_complete == other.is_complete,
                forall|j: int|
                    #![trigger self.subtrees@[j]]
                    0 <= j < i as int ==> match (self.subtrees@[j], other.subtrees@[j]) {
                        (Some(a), Some(b)) => a.root@ == b.root@ && a.base.deep_view()
                            == b.base.deep_view(),
                        (None, None) => true,
                        _ => false,
                    },
            decreases n - i,
        {
            let same = match (&self.subtrees[i], &other.subtrees[i]) {
                (Some(a), Some(b)) => a.eq(b),
                (None, None) => true,
                _ => false,
            };
            if !same {
                return false;
            }
            i = i + 1;
        }
        true
    }
}

impl vstd::std_specs::cmp::PartialEqSpecImpl for Merkle {
    open spec fn obeys_eq_spec() -> bool {
        true
    }

    open spec fn eq_spec(&self, other: &Merkle) -> bool {
        &&& self.root@ == other.root@
        &&& self.is_complete == other.is_complete
        &&& self.subtrees@.len() == other.subtrees@.len()
        &&& forall|j: int|
            #![trigger self.subtrees@[j]]
            0 <= j < self.subtrees@.len() ==> match (self.subtrees@[j], other.subtrees@[j]) {
                (Some(a), Some(b)) => a.root@ == b.root@ && a.base.deep_view()
                    == b.base.deep_view(),
                (None, None) => true,
                _ => false,
            }
    }
}

} // verus!
