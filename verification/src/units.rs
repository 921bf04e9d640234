//! Merge units: the smallest things the search manipulates.
//!
//! A unit is either the bare target item, or a canonically sorted, non-empty
//! run of enchantment entries bound to one virtual carrier, together with the
//! number of anvil operations the carrier has been through. Units are
//! immutable: combining two of them builds a fresh one.

use vstd::prelude::*;
use vstd::multiset::Multiset;
use vstd::arithmetic::power2::{pow2, lemma_pow2_strictly_increases, lemma_pow2_pos, lemma2_to64};
use vstd::bits::{lemma_u32_shl_is_mul, lemma_u32_pow2_no_overflow};

verus! {

/// One entry carried by a merge unit: the bare target item, or one selected
/// enchantment, identified by its merge score and by its index in the
/// original selection list.
///
/// The index, not the enchantment's identity, decides the canonical order, so
/// that two units carrying the same entries agree on their representation no
/// matter which merge order produced them.
#[derive(Debug, Clone, Copy, PartialEq, Eq, Structural)]
pub enum ItemKey {
    Item,
    Enchant(u32, u32),
}

/// The score an entry charges when its unit is sacrificed.
pub open spec fn key_score(k: ItemKey) -> u32 {
    match k {
        ItemKey::Item => 0u32,
        ItemKey::Enchant(score, _) => score,
    }
}

/// The canonical order on entries: the bare item sorts before everything;
/// enchantment entries sort by their original selection index alone.
pub open spec fn key_le(a: ItemKey, b: ItemKey) -> bool {
    match a {
        ItemKey::Item => true,
        ItemKey::Enchant(_, i) => match b {
            ItemKey::Item => false,
            ItemKey::Enchant(_, j) => i <= j,
        },
    }
}

/// Strict part of the canonical entry order.
pub open spec fn key_lt(a: ItemKey, b: ItemKey) -> bool {
    match a {
        ItemKey::Item => !(b is Item),
        ItemKey::Enchant(_, i) => match b {
            ItemKey::Item => false,
            ItemKey::Enchant(_, j) => i < j,
        },
    }
}

/// Equivalence under the canonical entry order: both the bare item, or the
/// same selection index.
pub open spec fn key_eqv(a: ItemKey, b: ItemKey) -> bool {
    match a {
        ItemKey::Item => b is Item,
        ItemKey::Enchant(_, i) => match b {
            ItemKey::Item => false,
            ItemKey::Enchant(_, j) => i == j,
        },
    }
}

/// Decides `key_le` on two entries.
pub fn key_le_exec(a: &ItemKey, b: &ItemKey) -> (r: bool)
    ensures
        r == key_le(*a, *b),
{
    match a {
        ItemKey::Item => true,
        ItemKey::Enchant(_, i) => match b {
            ItemKey::Item => false,
            ItemKey::Enchant(_, j) => *i <= *j,
        },
    }
}

/// A run of entries in canonical order.
pub open spec fn sorted_keys(s: Seq<ItemKey>) -> bool {
    forall|i: int, j: int| 0 <= i < j < s.len() ==> key_le(s[i], s[j])
}

/// Well-formed entry run of a unit: non-empty, canonically sorted, and the
/// bare item, if present at all, stands only at the front.
pub open spec fn keys_wf(s: Seq<ItemKey>) -> bool {
    &&& s.len() >= 1
    &&& sorted_keys(s)
    &&& forall|i: int| 1 <= i < s.len() ==> s[i] is Enchant
}

/// Every enchantment entry's selection index lies below `n`.
pub open spec fn keys_bounded(s: Seq<ItemKey>, n: int) -> bool {
    forall|i: int|
        0 <= i < s.len() ==> (#[trigger] s[i] matches ItemKey::Enchant(_, idx) ==> idx < n)
}

/// The stable merge of two entry runs under the canonical order: the one
/// canonical run holding the entries of both.
pub open spec fn merge_keys(a: Seq<ItemKey>, b: Seq<ItemKey>) -> Seq<ItemKey>
    decreases a.len() + b.len(),
{
    if a.len() == 0 {
        b
    } else if b.len() == 0 {
        a
    } else if key_le(a[0], b[0]) {
        seq![a[0]] + merge_keys(a.drop_first(), b)
    } else {
        seq![b[0]] + merge_keys(a, b.drop_first())
    }
}

/// The merge of two runs holds exactly the entries of both.
pub proof fn lemma_merge_keys_multiset(a: Seq<ItemKey>, b: Seq<ItemKey>)
    ensures
        merge_keys(a, b).to_multiset() == a.to_multiset().add(b.to_multiset()),
        merge_keys(a, b).len() == a.len() + b.len(),
    decreases a.len() + b.len(),
{
    broadcast use vstd::seq_lib::group_to_multiset_ensures;

    if a.len() == 0 {
        assert(a.to_multiset() =~= Multiset::empty());
        assert(merge_keys(a, b).to_multiset() =~= a.to_multiset().add(b.to_multiset()));
    } else if b.len() == 0 {
        assert(b.to_multiset() =~= Multiset::empty());
        assert(merge_keys(a, b).to_multiset() =~= a.to_multiset().add(b.to_multiset()));
    } else if key_le(a[0], b[0]) {
        lemma_merge_keys_multiset(a.drop_first(), b);
        assert(a =~= seq![a[0]] + a.drop_first());
        lemma_multiset_of_cons(a[0], a.drop_first());
        lemma_multiset_of_cons(a[0], merge_keys(a.drop_first(), b));
        assert(merge_keys(a, b).to_multiset() =~= a.to_multiset().add(b.to_multiset()));
    } else {
        lemma_merge_keys_multiset(a, b.drop_first());
        assert(b =~= seq![b[0]] + b.drop_first());
        lemma_multiset_of_cons(b[0], b.drop_first());
        lemma_multiset_of_cons(b[0], merge_keys(a, b.drop_first()));
        assert(merge_keys(a, b).to_multiset() =~= a.to_multiset().add(b.to_multiset()));
    }
}

/// Prepending one entry adds it to the run's multiset.
proof fn lemma_multiset_of_cons(x: ItemKey, s: Seq<ItemKey>)
    ensures
        (seq![x] + s).to_multiset() == s.to_multiset().insert(x),
{
    broadcast use vstd::seq_lib::group_to_multiset_ensures;
    broadcast use vstd::multiset::group_multiset_axioms;

    vstd::seq_lib::lemma_multiset_commutative(seq![x], s);
    assert(seq![x] =~= Seq::<ItemKey>::empty().push(x));
    assert(seq![x].to_multiset() =~= Seq::<ItemKey>::empty().to_multiset().insert(x));
    assert(Seq::<ItemKey>::empty().to_multiset() =~= Multiset::<ItemKey>::empty()) by {
        assert(Seq::<ItemKey>::empty().to_multiset().len() == 0);
    }
    assert((seq![x] + s).to_multiset() =~= s.to_multiset().insert(x));
}

/// Merging two sorted runs yields a sorted run, and its head is one of the
/// two heads.
pub proof fn lemma_merge_keys_sorted(a: Seq<ItemKey>, b: Seq<ItemKey>)
    requires
        sorted_keys(a),
        sorted_keys(b),
    ensures
        sorted_keys(merge_keys(a, b)),
        a.len() > 0 && b.len() > 0 ==> merge_keys(a, b)[0] == a[0] || merge_keys(a, b)[0] == b[0],
        a.len() == 0 ==> merge_keys(a, b) == b,
        b.len() == 0 ==> merge_keys(a, b) == a,
    decreases a.len() + b.len(),
{
    lemma_merge_keys_multiset(a, b);
    if a.len() == 0 || b.len() == 0 {
    } else if key_le(a[0], b[0]) {
        let at = a.drop_first();
        assert(sorted_keys(at)) by {
            assert(forall|i: int, j: int|
                0 <= i < j < at.len() ==> at[i] == a[i + 1] && at[j] == a[j + 1]);
        }
        lemma_merge_keys_sorted(at, b);
        lemma_merge_keys_multiset(at, b);
        let m = merge_keys(a, b);
        let rest = merge_keys(at, b);
        assert(m =~= seq![a[0]] + rest);
        assert(m[0] == a[0]);
        assert(forall|j: int| 0 <= j < rest.len() ==> m[j + 1] == rest[j]);
        assert forall|i: int, j: int| 0 <= i < j < m.len() implies key_le(m[i], m[j]) by {
            if i == 0 {
                let h = rest[0];
                assert(key_le(a[0], h)) by {
                    if at.len() > 0 && h == at[0] {
                        assert(at[0] == a[1]);
                        assert(key_le(a[0], a[1]));
                    } else {
                        assert(h == b[0]);
                    }
                }
                if j > 1 {
                    assert(key_le(rest[0], rest[j - 1]));
                }
                lemma_key_le_trans(a[0], h, m[j]);
            } else {
                assert(key_le(rest[i - 1], rest[j - 1]));
            }
        }
    } else {
        let bt = b.drop_first();
        assert(sorted_keys(bt)) by {
            assert(forall|i: int, j: int|
                0 <= i < j < bt.len() ==> bt[i] == b[i + 1] && bt[j] == b[j + 1]);
        }
        lemma_merge_keys_sorted(a, bt);
        lemma_merge_keys_multiset(a, bt);
        let m = merge_keys(a, b);
        let rest = merge_keys(a, bt);
        assert(m =~= seq![b[0]] + rest);
        assert(m[0] == b[0]);
        assert(forall|j: int| 0 <= j < rest.len() ==> m[j + 1] == rest[j]);
        assert forall|i: int, j: int| 0 <= i < j < m.len() implies key_le(m[i], m[j]) by {
            if i == 0 {
                let h = rest[0];
                assert(key_le(b[0], h)) by {
                    if bt.len() > 0 && h == bt[0] {
                        assert(bt[0] == b[1]);
                        assert(key_le(b[0], b[1]));
                    } else {
                        assert(h == a[0]);
                        assert(!key_le(a[0], b[0]));
                    }
                }
                if j > 1 {
                    assert(key_le(rest[0], rest[j - 1]));
                }
                lemma_key_le_trans(b[0], h, m[j]);
            } else {
                assert(key_le(rest[i - 1], rest[j - 1]));
            }
        }
    }
}

/// The canonical entry order is transitive.
pub proof fn lemma_key_le_trans(a: ItemKey, b: ItemKey, c: ItemKey)
    requires
        key_le(a, b),
        key_le(b, c),
    ensures
        key_le(a, c),
{
}

/// Merging two well-formed runs, of which the right one does not carry the
/// bare item, yields a well-formed run; the result carries the bare item
/// exactly when the left run does, and stays index-bounded.
pub proof fn lemma_merge_keys_wf(a: Seq<ItemKey>, b: Seq<ItemKey>)
    requires
        keys_wf(a),
        keys_wf(b),
        b[0] is Enchant,
    ensures
        keys_wf(merge_keys(a, b)),
        merge_keys(a, b)[0] is Item <==> a[0] is Item,
        forall|n: int|
            keys_bounded(a, n) && keys_bounded(b, n) ==> keys_bounded(merge_keys(a, b), n),
{
    lemma_merge_keys_sorted(a, b);
    lemma_merge_keys_multiset(a, b);
    broadcast use vstd::seq_lib::group_to_multiset_ensures;

    let m = merge_keys(a, b);
    assert forall|i: int| 1 <= i < m.len() implies m[i] is Enchant by {
        assert(m.to_multiset().contains(m[i]));
        if a.to_multiset().contains(m[i]) {
            let k = choose|k: int| 0 <= k < a.len() && a[k] == m[i];
            if m[i] is Item {
                assert(k == 0);
                assert(key_le(m[0], m[i]));
                assert(m[0] is Item);
                assert(m[i] == m[0] || !(a[0] is Item));
                assert(m.to_multiset().count(ItemKey::Item) >= 2 ==> a.to_multiset().count(
                    ItemKey::Item,
                ) + b.to_multiset().count(ItemKey::Item) >= 2);
                lemma_item_count_le_one(a);
                lemma_item_count_le_one(b);
                lemma_two_items_in_run(m, 0, i);
                assert(false);
            }
        } else {
            assert(b.to_multiset().contains(m[i]));
            let k = choose|k: int| 0 <= k < b.len() && b[k] == m[i];
            if m[i] is Item {
                assert(b[k] is Item);
                if k == 0 {
                } else {
                    assert(b[k] is Enchant);
                }
                assert(false);
            }
        }
    }
    assert forall|n: int| keys_bounded(a, n) && keys_bounded(b, n) implies keys_bounded(
        m,
        n,
    ) by {
        assert forall|i: int|
            0 <= i < m.len() implies (#[trigger] m[i] matches ItemKey::Enchant(_, idx)
            ==> idx < n) by {
            assert(m.to_multiset().contains(m[i]));
            if a.to_multiset().contains(m[i]) {
                let k = choose|k: int| 0 <= k < a.len() && a[k] == m[i];
                assert(a[k] == m[i]);
            } else {
                assert(b.to_multiset().contains(m[i]));
                let k = choose|k: int| 0 <= k < b.len() && b[k] == m[i];
                assert(b[k] == m[i]);
            }
        }
    }
    if a[0] is Item {
        assert(key_le(a[0], b[0]));
        assert(m[0] == a[0] || m[0] == b[0]);
        assert(a.to_multiset().contains(a[0]));
        assert(m.to_multiset().contains(a[0]));
        let k = choose|k: int| 0 <= k < m.len() && m[k] == a[0];
        assert(k == 0) by {
            if k >= 1 {
                assert(m[k] is Enchant);
            }
        }
    } else {
        if m[0] is Item {
            assert(m.to_multiset().contains(m[0]));
            assert(a.to_multiset().contains(m[0]) || b.to_multiset().contains(m[0]));
            if a.to_multiset().contains(m[0]) {
                let k = choose|k: int| 0 <= k < a.len() && a[k] == m[0];
                if k >= 1 {
                    assert(a[k] is Enchant);
                }
                assert(false);
            } else {
                let k = choose|k: int| 0 <= k < b.len() && b[k] == m[0];
                if k >= 1 {
                    assert(b[k] is Enchant);
                }
                assert(false);
            }
        }
    }
}

/// A well-formed run holds the bare item at most once.
proof fn lemma_item_count_le_one(s: Seq<ItemKey>)
    requires
        keys_wf(s),
    ensures
        s.to_multiset().count(ItemKey::Item) <= 1,
{
    broadcast use vstd::seq_lib::group_to_multiset_ensures;

    if s.to_multiset().count(ItemKey::Item) >= 2 {
        lemma_dup_positions(s, ItemKey::Item);
        let (i, j) = choose|i: int, j: int|
            0 <= i < j < s.len() && s[i] == ItemKey::Item && s[j] == ItemKey::Item;
        assert(s[j] is Enchant);
    }
}

/// Two copies of the bare item in one run would stand at two positions.
proof fn lemma_two_items_in_run(s: Seq<ItemKey>, i: int, j: int)
    requires
        0 <= i < j < s.len(),
        s[i] == ItemKey::Item,
        s[j] == ItemKey::Item,
    ensures
        s.to_multiset().count(ItemKey::Item) >= 2,
{
    broadcast use vstd::seq_lib::group_to_multiset_ensures;

    let pruned = s.remove(j);
    assert(pruned[i] == ItemKey::Item);
    assert(pruned.to_multiset().contains(ItemKey::Item));
    assert(s.to_multiset() == pruned.to_multiset().insert(s[j]));
}

/// A value occurring at least twice in a multiset of a run occurs at two
/// distinct positions.
proof fn lemma_dup_positions(s: Seq<ItemKey>, x: ItemKey)
    requires
        s.to_multiset().count(x) >= 2,
    ensures
        exists|i: int, j: int| 0 <= i < j < s.len() && s[i] == x && s[j] == x,
    decreases s.len(),
{
    broadcast use vstd::seq_lib::group_to_multiset_ensures;

    assert(s.to_multiset().contains(x));
    let j = choose|j: int| 0 <= j < s.len() && s[j] == x;
    let pruned = s.remove(j);
    assert(s.to_multiset() == pruned.to_multiset().insert(s[j]));
    assert(pruned.to_multiset().count(x) >= 1);
    assert(pruned.to_multiset().contains(x));
    let i0 = choose|i: int| 0 <= i < pruned.len() && pruned[i] == x;
    if i0 < j {
        assert(s[i0] == x);
    } else {
        assert(s[i0 + 1] == x);
    }
}

/// Saturating addition on 32-bit costs: sums stick at the ceiling instead of
/// wrapping or failing.
pub open spec fn sat_add(a: u32, b: u32) -> u32 {
    if a + b > u32::MAX {
        u32::MAX
    } else {
        (a + b) as u32
    }
}

/// The escalating repair penalty after `uses` anvil operations, saturated at
/// the cost ceiling: one below the `uses`-th power of two.
pub open spec fn use_penalty_spec(uses: u32) -> u32 {
    if uses < 32 {
        (pow2(uses as nat) - 1) as u32
    } else {
        u32::MAX
    }
}

/// The total score of an entry run, summed with saturation front to back.
pub open spec fn keys_cost(s: Seq<ItemKey>) -> u32
    decreases s.len(),
{
    if s.len() == 0 {
        0u32
    } else {
        sat_add(keys_cost(s.drop_last()), key_score(s.last()))
    }
}

/// A merge unit: a canonical run of entries bound to one virtual carrier,
/// plus the number of anvil operations the carrier has been through.
#[derive(Debug, Clone)]
pub struct ItemKeyCombination {
    pub combination: Vec<ItemKey>,
    pub anvil_use_count: u32,
}

/// The mathematical value of a merge unit.
#[verifier::ext_equal]
pub ghost struct UnitView {
    pub keys: Seq<ItemKey>,
    pub uses: u32,
}

impl View for ItemKeyCombination {
    type V = UnitView;

    open spec fn view(&self) -> UnitView {
        UnitView { keys: self.combination@, uses: self.anvil_use_count }
    }
}

/// A well-formed unit: well-formed entry run.
pub open spec fn unit_wf(u: UnitView) -> bool {
    keys_wf(u.keys)
}

/// Whether a unit carries the bare target item. In a well-formed unit the
/// bare item can only stand at the front, so the front entry decides.
pub open spec fn carries_item(u: UnitView) -> bool {
    u.keys.len() > 0 && u.keys[0] is Item
}

impl ItemKeyCombination {
    /// A fresh unit holding one entry.
    pub fn single_item(key: ItemKey, anvil_use_count: u32) -> (r: Self)
        ensures
            r@.keys =~= seq![key],
            r@.uses == anvil_use_count,
            unit_wf(r@),
    {
        let mut combination: Vec<ItemKey> = Vec::new();
        combination.push(key);
        ItemKeyCombination { combination, anvil_use_count }
    }

    /// Whether this unit carries the bare target item, decided by its front
    /// entry.
    pub fn carries_bare_item(&self) -> (r: bool)
        ensures
            r == carries_item(self@),
    {
        if self.combination.len() == 0 {
            false
        } else {
            match self.combination[0] {
                ItemKey::Item => true,
                ItemKey::Enchant(_, _) => false,
            }
        }
    }

    /// An identical, independent copy of this unit.
    pub fn duplicate(&self) -> (r: Self)
        ensures
            r@ =~= self@,
    {
        let mut combination: Vec<ItemKey> = Vec::new();
        let mut i: usize = 0;
        while i < self.combination.len()
            invariant
                i <= self.combination.len(),
                combination@ =~= self.combination@.take(i as int),
            decreases self.combination.len() - i,
        {
            combination.push(self.combination[i]);
            i += 1;
            proof {
                assert(combination@ =~= self.combination@.take(i as int));
            }
        }
        proof {
            assert(combination@ =~= self.combination@);
        }
        ItemKeyCombination { combination, anvil_use_count: self.anvil_use_count }
    }

    /// The unit obtained by merging this unit (the receiving side) with
    /// `other` (the sacrificed side): the entries of both in canonical order,
    /// and one more anvil use than the more-used of the two carriers.
    pub fn combine(&self, other: &ItemKeyCombination) -> (r: Self)
        requires
            self.anvil_use_count < u32::MAX,
            other.anvil_use_count < u32::MAX,
        ensures
            r@.keys =~= merge_keys(self@.keys, other@.keys),
            r@.uses == (if self@.uses >= other@.uses {
                self@.uses
            } else {
                other@.uses
            }) + 1,
    {
        let a = &self.combination;
        let b = &other.combination;
        let mut combination: Vec<ItemKey> = Vec::new();
        let mut i: usize = 0;
        let mut j: usize = 0;
        proof {
            assert(a@.skip(0) =~= a@);
            assert(b@.skip(0) =~= b@);
            assert(merge_keys(a@, b@) =~= combination@ + merge_keys(a@.skip(0), b@.skip(0)));
        }
        while i < a.len() || j < b.len()
            invariant
                i <= a.len(),
                j <= b.len(),
                merge_keys(a@, b@) =~= combination@ + merge_keys(
                    a@.skip(i as int),
                    b@.skip(j as int),
                ),
            decreases a.len() - i + b.len() - j,
        {
            let take_left = if i < a.len() {
                if j < b.len() {
                    key_le_exec(&a[i], &b[j])
                } else {
                    true
                }
            } else {
                false
            };
            if take_left {
                proof {
                    lemma_merge_step_left(a@, b@, i as int, j as int);
                }
                combination.push(a[i]);
                i += 1;
            } else {
                proof {
                    lemma_merge_step_right(a@, b@, i as int, j as int);
                }
                combination.push(b[j]);
                j += 1;
            }
        }
        proof {
            assert(a@.skip(i as int) =~= Seq::<ItemKey>::empty());
            assert(b@.skip(j as int) =~= Seq::<ItemKey>::empty());
            assert(merge_keys(a@, b@) =~= combination@);
        }
        let new_use_count = if self.anvil_use_count >= other.anvil_use_count {
            self.anvil_use_count
        } else {
            other.anvil_use_count
        } + 1;
        ItemKeyCombination { combination, anvil_use_count: new_use_count }
    }

    /// The repair penalty this unit pays for one more anvil operation:
    /// nothing on a carrier's first use, then one below the next power of
    /// two, saturated at the cost ceiling.
    pub fn use_penalty(&self) -> (r: u32)
        ensures
            r == use_penalty_spec(self@.uses),
    {
        let uses = self.anvil_use_count;
        if uses >= 32 {
            u32::MAX
        } else {
            proof {
                lemma_u32_pow2_no_overflow(uses as nat);
                lemma_u32_shl_is_mul(1u32, uses);
                lemma_pow2_pos(uses as nat);
            }
            (1u32 << uses) - 1
        }
    }

    /// The enchantment-level cost charged when this unit is the sacrificed
    /// side of a merge: the sum of its entries' scores. Only units free of
    /// the bare target item are ever sacrificed, so only those may ask.
    pub fn cost(&self) -> (r: u32)
        requires
            forall|i: int| 0 <= i < self@.keys.len() ==> self@.keys[i] is Enchant,
        ensures
            r == keys_cost(self@.keys),
    {
        let mut total: u32 = 0;
        let mut i: usize = 0;
        while i < self.combination.len()
            invariant
                i <= self.combination.len(),
                total == keys_cost(self.combination@.take(i as int)),
                forall|k: int| 0 <= k < self@.keys.len() ==> self@.keys[k] is Enchant,
            decreases self.combination.len() - i,
        {
            let score = match self.combination[i] {
                ItemKey::Enchant(score, _) => score,
                ItemKey::Item => {
                    // Unreachable: the precondition admits only enchantment
                    // entries.
                    0
                },
            };
            proof {
                let pre = self.combination@.take(i as int);
                let cur = self.combination@.take(i as int + 1);
                assert(cur.drop_last() =~= pre);
                assert(cur.last() == self.combination@[i as int]);
            }
            total = total.saturating_add(score);
            i += 1;
        }
        proof {
            assert(self.combination@.take(self.combination@.len() as int) =~= self.combination@);
        }
        total
    }
}

/// One merge step of the stable merge, left side taken.
proof fn lemma_merge_step_left(a: Seq<ItemKey>, b: Seq<ItemKey>, i: int, j: int)
    requires
        0 <= i < a.len(),
        0 <= j <= b.len(),
        j < b.len() ==> key_le(a[i], b[j]),
    ensures
        merge_keys(a.skip(i), b.skip(j)) =~= seq![a[i]] + merge_keys(a.skip(i + 1), b.skip(j)),
{
    let sa = a.skip(i);
    let sb = b.skip(j);
    assert(sa[0] == a[i]);
    assert(sa.drop_first() =~= a.skip(i + 1));
    if sb.len() == 0 {
        assert(merge_keys(sa, sb) == sa);
        assert(sa =~= seq![a[i]] + a.skip(i + 1));
        if a.skip(i + 1).len() == 0 {
            assert(merge_keys(a.skip(i + 1), sb) == a.skip(i + 1));
        }
    } else {
        assert(sb[0] == b[j]);
        assert(key_le(sa[0], sb[0]));
    }
}

/// One merge step of the stable merge, right side taken.
proof fn lemma_merge_step_right(a: Seq<ItemKey>, b: Seq<ItemKey>, i: int, j: int)
    requires
        0 <= i <= a.len(),
        0 <= j < b.len(),
        i < a.len() ==> !key_le(a[i], b[j]),
    ensures
        merge_keys(a.skip(i), b.skip(j)) =~= seq![b[j]] + merge_keys(a.skip(i), b.skip(j + 1)),
{
    let sa = a.skip(i);
    let sb = b.skip(j);
    assert(sb[0] == b[j]);
    assert(sb.drop_first() =~= b.skip(j + 1));
    if sa.len() == 0 {
        assert(merge_keys(sa, sb) == sb);
        assert(sb =~= seq![b[j]] + b.skip(j + 1));
        if b.skip(j + 1).len() == 0 {
            assert(merge_keys(sa, b.skip(j + 1)) == b.skip(j + 1));
        }
    } else {
        assert(sa[0] == a[i]);
        assert(!key_le(sa[0], sb[0]));
    }
}

/// Lexicographic strict order on entry runs under the canonical entry order:
/// runs are compared entry by entry, and a run that runs out first sorts
/// before any strict extension of it.
pub open spec fn keys_lt(a: Seq<ItemKey>, b: Seq<ItemKey>) -> bool
    decreases a.len(),
{
    if b.len() == 0 {
        false
    } else if a.len() == 0 {
        true
    } else if key_eqv(a[0], b[0]) {
        keys_lt(a.drop_first(), b.drop_first())
    } else {
        key_lt(a[0], b[0])
    }
}

/// Entry runs equivalent under the canonical entry order: the same length
/// and pairwise equivalent entries.
pub open spec fn keys_eqv(a: Seq<ItemKey>, b: Seq<ItemKey>) -> bool {
    a.len() == b.len() && forall|i: int| 0 <= i < a.len() ==> key_eqv(a[i], b[i])
}

/// The canonical order on whole units: by entry run first, then by use
/// count.
pub open spec fn unit_le(a: UnitView, b: UnitView) -> bool {
    keys_lt(a.keys, b.keys) || (keys_eqv(a.keys, b.keys) && a.uses <= b.uses)
}

/// How two entry runs compare once they agree, entry for entry, up to
/// position `k`: the first disagreement, or the lengths, decide.
proof fn lemma_keys_cmp_at(a: Seq<ItemKey>, b: Seq<ItemKey>, k: int)
    requires
        0 <= k <= a.len(),
        k <= b.len(),
        forall|m: int| 0 <= m < k ==> key_eqv(a[m], b[m]),
    ensures
        (k == a.len() && k == b.len()) ==> (keys_eqv(a, b) && !keys_lt(a, b)),
        (k == a.len() && k < b.len()) ==> (keys_lt(a, b) && !keys_eqv(a, b)),
        (k == b.len() && k < a.len()) ==> (!keys_lt(a, b) && !keys_eqv(a, b)),
        (k < a.len() && k < b.len() && !key_eqv(a[k], b[k])) ==> (keys_lt(a, b) == key_lt(
            a[k],
            b[k],
        ) && !keys_eqv(a, b)),
    decreases k,
{
    if k == 0 {
        if a.len() == 0 && b.len() == 0 {
            assert(keys_eqv(a, b));
        }
    } else {
        let at = a.drop_first();
        let bt = b.drop_first();
        assert(key_eqv(a[0], b[0]));
        assert(forall|m: int| 0 <= m < k - 1 ==> at[m] == a[m + 1] && bt[m] == b[m + 1]);
        lemma_keys_cmp_at(at, bt, k - 1);
        assert(keys_lt(a, b) == keys_lt(at, bt));
        assert(keys_eqv(a, b) == keys_eqv(at, bt)) by {
            if keys_eqv(at, bt) {
                assert(forall|i: int| 1 <= i < a.len() ==> a[i] == at[i - 1] && b[i] == bt[i - 1]);
            } else {
                if keys_eqv(a, b) {
                    assert(forall|i: int| 0 <= i < at.len() ==> key_eqv(at[i], bt[i])) by {
                        assert(forall|i: int|
                            0 <= i < at.len() ==> at[i] == a[i + 1] && bt[i] == b[i + 1]);
                    }
                }
            }
        }
        if k < a.len() && k < b.len() && !key_eqv(a[k], b[k]) {
            assert(at[k - 1] == a[k] && bt[k - 1] == b[k]);
        }
    }
}

/// The unit order is total.
pub proof fn lemma_unit_le_total(a: UnitView, b: UnitView)
    ensures
        unit_le(a, b) || unit_le(b, a),
{
    let n = if a.keys.len() <= b.keys.len() {
        a.keys.len() as int
    } else {
        b.keys.len() as int
    };
    if exists|m: int| 0 <= m < n && !key_eqv(a.keys[m], b.keys[m]) {
        let k = choose|k: int|
            0 <= k < n && !key_eqv(a.keys[k], b.keys[k]) && forall|m: int|
                0 <= m < k ==> key_eqv(a.keys[m], b.keys[m]);
        assert(exists|k: int|
            0 <= k < n && !key_eqv(a.keys[k], b.keys[k]) && forall|m: int|
                0 <= m < k ==> key_eqv(a.keys[m], b.keys[m])) by {
            lemma_first_disagreement(a.keys, b.keys, n);
        }
        lemma_keys_cmp_at(a.keys, b.keys, k);
        lemma_keys_cmp_at(b.keys, a.keys, k);
    } else {
        lemma_keys_cmp_at(a.keys, b.keys, n);
        lemma_keys_cmp_at(b.keys, a.keys, n);
    }
}

/// Among the positions where two runs disagree there is a first one.
proof fn lemma_first_disagreement(a: Seq<ItemKey>, b: Seq<ItemKey>, n: int)
    requires
        0 <= n <= a.len(),
        n <= b.len(),
        exists|m: int| 0 <= m < n && !key_eqv(a[m], b[m]),
    ensures
        exists|k: int|
            0 <= k < n && !key_eqv(a[k], b[k]) && forall|m: int| 0 <= m < k ==> key_eqv(a[m], b[m]),
    decreases n,
{
    let m0 = choose|m: int| 0 <= m < n && !key_eqv(a[m], b[m]);
    if exists|m: int| 0 <= m < m0 && !key_eqv(a[m], b[m]) {
        lemma_first_disagreement(a, b, m0);
    } else {
        assert(0 <= m0 < n && !key_eqv(a[m0], b[m0]) && forall|m: int|
            0 <= m < m0 ==> key_eqv(a[m], b[m]));
    }
}

/// The unit order is transitive.
pub proof fn lemma_unit_le_trans(a: UnitView, b: UnitView, c: UnitView)
    requires
        unit_le(a, b),
        unit_le(b, c),
    ensures
        unit_le(a, c),
{
    if keys_lt(a.keys, b.keys) {
        if keys_lt(b.keys, c.keys) {
            lemma_keys_lt_trans(a.keys, b.keys, c.keys);
        } else {
            lemma_keys_lt_eqv(a.keys, b.keys, c.keys);
        }
    } else {
        if keys_lt(b.keys, c.keys) {
            lemma_keys_eqv_lt(a.keys, b.keys, c.keys);
        } else {
            lemma_keys_eqv_trans(a.keys, b.keys, c.keys);
        }
    }
}

/// Strict lexicographic order is transitive.
proof fn lemma_keys_lt_trans(a: Seq<ItemKey>, b: Seq<ItemKey>, c: Seq<ItemKey>)
    requires
        keys_lt(a, b),
        keys_lt(b, c),
    ensures
        keys_lt(a, c),
    decreases a.len() + b.len() + c.len(),
{
    if b.len() == 0 || c.len() == 0 {
    } else if a.len() == 0 {
    } else {
        if key_eqv(a[0], b[0]) {
            if key_eqv(b[0], c[0]) {
                lemma_keys_lt_trans(a.drop_first(), b.drop_first(), c.drop_first());
            }
        } else {
            if key_eqv(b[0], c[0]) {
            } else {
            }
        }
    }
}

/// A strict step followed by an equivalence stays strict.
proof fn lemma_keys_lt_eqv(a: Seq<ItemKey>, b: Seq<ItemKey>, c: Seq<ItemKey>)
    requires
        keys_lt(a, b),
        keys_eqv(b, c),
    ensures
        keys_lt(a, c),
    decreases a.len() + b.len(),
{
    if b.len() == 0 {
    } else if a.len() == 0 {
    } else {
        assert(key_eqv(b[0], c[0]));
        if key_eqv(a[0], b[0]) {
            assert(forall|i: int|
                0 <= i < b.drop_first().len() ==> b.drop_first()[i] == b[i + 1]
                    && c.drop_first()[i] == c[i + 1]);
            lemma_keys_lt_eqv(a.drop_first(), b.drop_first(), c.drop_first());
        }
    }
}

/// An equivalence followed by a strict step stays strict.
proof fn lemma_keys_eqv_lt(a: Seq<ItemKey>, b: Seq<ItemKey>, c: Seq<ItemKey>)
    requires
        keys_eqv(a, b),
        keys_lt(b, c),
    ensures
        keys_lt(a, c),
    decreases a.len() + b.len(),
{
    if c.len() == 0 {
    } else if b.len() == 0 {
    } else {
        assert(key_eqv(a[0], b[0]));
        if key_eqv(b[0], c[0]) {
            assert(forall|i: int|
                0 <= i < a.drop_first().len() ==> a.drop_first()[i] == a[i + 1]
                    && b.drop_first()[i] == b[i + 1]);
            lemma_keys_eqv_lt(a.drop_first(), b.drop_first(), c.drop_first());
        }
    }
}

/// Equivalence of entry runs is transitive.
proof fn lemma_keys_eqv_trans(a: Seq<ItemKey>, b: Seq<ItemKey>, c: Seq<ItemKey>)
    requires
        keys_eqv(a, b),
        keys_eqv(b, c),
    ensures
        keys_eqv(a, c),
{
}

/// Decides `unit_le` on two units.
pub fn unit_le_exec(a: &ItemKeyCombination, b: &ItemKeyCombination) -> (r: bool)
    ensures
        r == unit_le(a@, b@),
{
    let n = if a.combination.len() <= b.combination.len() {
        a.combination.len()
    } else {
        b.combination.len()
    };
    let mut k: usize = 0;
    while k < n
        invariant
            0 <= k <= n,
            n == if a.combination@.len() <= b.combination@.len() {
                a.combination@.len()
            } else {
                b.combination@.len()
            },
            forall|m: int| 0 <= m < k ==> key_eqv(a.combination@[m], b.combination@[m]),
        decreases n - k,
    {
        let eqv = match (&a.combination[k], &b.combination[k]) {
            (ItemKey::Item, ItemKey::Item) => true,
            (ItemKey::Enchant(_, i), ItemKey::Enchant(_, j)) => *i == *j,
            _ => false,
        };
        if !eqv {
            proof {
                lemma_keys_cmp_at(a.combination@, b.combination@, k as int);
            }
            let lt = match (&a.combination[k], &b.combination[k]) {
                (ItemKey::Item, ItemKey::Enchant(_, _)) => true,
                (ItemKey::Enchant(_, i), ItemKey::Enchant(_, j)) => *i < *j,
                _ => false,
            };
            return lt;
        }
        k += 1;
    }
    proof {
        lemma_keys_cmp_at(a.combination@, b.combination@, n as int);
    }
    if a.combination.len() < b.combination.len() {
        true
    } else if a.combination.len() > b.combination.len() {
        false
    } else {
        a.anvil_use_count <= b.anvil_use_count
    }
}

/// The repair penalty never shrinks as a carrier is used more, and a fresh
/// carrier pays none at all.
pub proof fn lemma_use_penalty_monotonic(a: u32, b: u32)
    requires
        a <= b,
    ensures
        use_penalty_spec(a) <= use_penalty_spec(b),
        use_penalty_spec(0) == 0,
{
    lemma2_to64();
    if a < 32 && b < 32 {
        if a < b {
            lemma_pow2_strictly_increases(a as nat, b as nat);
        }
        lemma_u32_pow2_no_overflow(b as nat);
    } else if a < 32 {
        lemma_u32_pow2_no_overflow(a as nat);
    }
}

} // verus!
