//! The search engine: enumerates legal merge orders over the selected
//! enchantments, prunes equivalent intermediate states, and keeps the
//! cheapest complete sequence.

use vstd::prelude::*;
use crate::registry;
use crate::units::{
    ItemKey, ItemKeyCombination, UnitView, key_score, key_le, key_lt, key_eqv, keys_lt,
    sorted_keys, keys_wf, keys_bounded, merge_keys, sat_add, use_penalty_spec, keys_cost,
    unit_wf, carries_item, unit_le, unit_le_exec, lemma_merge_keys_sorted, lemma_merge_keys_wf,
    lemma_merge_keys_multiset, lemma_unit_le_total, lemma_unit_le_trans,
};

verus! {

/// One chosen enchantment at one chosen level, carrying the catalogue entry
/// and the derived merge score (weight times level).
#[derive(Debug, Clone)]
pub struct Enchant {
    pub enchant: registry::Enchant,
    pub level: u32,
    score: u32,
}

/// The mathematical value of a selection.
#[verifier::ext_equal]
pub ghost struct SelectionView {
    pub enchant: registry::EnchantView,
    pub level: u32,
    pub score: u32,
}

impl View for Enchant {
    type V = SelectionView;

    closed spec fn view(&self) -> SelectionView {
        SelectionView { enchant: self.enchant@, level: self.level, score: self.score }
    }
}

impl Enchant {
    /// A selection of `enchant` at `level`, scoring weight times level when
    /// sacrificed.
    pub fn new(enchant: registry::Enchant, level: u32) -> (r: Self)
        requires
            enchant@.weight * level <= u32::MAX,
        ensures
            r@.enchant == enchant@,
            r@.level == level,
            r@.score == enchant@.weight * level,
    {
        let score = enchant.weight * level;
        Self { enchant, level, score }
    }

    /// An identical, independent copy of this selection.
    pub fn duplicate(&self) -> (r: Self)
        ensures
            r@ == self@,
    {
        let r = Enchant { enchant: self.enchant.duplicate(), level: self.level, score: self.score };
        proof {
            assert(r@ =~= self@);
        }
        r
    }
}

/// One merge of the final sequence: snapshots of the receiving (left) and
/// sacrificed (right) units.
#[derive(Debug, Clone)]
pub struct Step {
    pub left: ItemKeyCombination,
    pub right: ItemKeyCombination,
}

/// The mathematical value of a step.
#[verifier::ext_equal]
pub ghost struct StepView {
    pub left: UnitView,
    pub right: UnitView,
}

impl View for Step {
    type V = StepView;

    open spec fn view(&self) -> StepView {
        StepView { left: self.left@, right: self.right@ }
    }
}

impl Step {
    /// An identical, independent copy of this step.
    pub fn duplicate(&self) -> (r: Self)
        ensures
            r@ == self@,
    {
        let r = Step { left: self.left.duplicate(), right: self.right.duplicate() };
        proof {
            assert(r@ =~= self@);
        }
        r
    }
}

/// A candidate partial solution: the cost so far, the worst single-step cost
/// seen so far, the still-unmerged units in canonical order, and the merges
/// taken.
#[derive(Debug)]
pub struct Path {
    pub cost: u32,
    pub max_cost: u32,
    pub remaining: Vec<ItemKeyCombination>,
    pub steps: Vec<Step>,
}

/// The mathematical value of a candidate path.
#[verifier::ext_equal]
pub ghost struct PathView {
    pub cost: u32,
    pub max_cost: u32,
    pub remaining: Seq<UnitView>,
    pub steps: Seq<StepView>,
}

impl View for Path {
    type V = PathView;

    open spec fn view(&self) -> PathView {
        PathView {
            cost: self.cost,
            max_cost: self.max_cost,
            remaining: self.remaining@.map_values(|u: ItemKeyCombination| u@),
            steps: self.steps@.map_values(|s: Step| s@),
        }
    }
}

/// The larger of two costs.
pub open spec fn max_u32(a: u32, b: u32) -> u32 {
    if a >= b {
        a
    } else {
        b
    }
}

/// The cost one merge step charges: the sacrificed side's enchantment cost
/// plus both sides' repair penalties, summed with saturation.
pub open spec fn step_cost_spec(l: UnitView, r: UnitView) -> u32 {
    sat_add(keys_cost(r.keys), sat_add(use_penalty_spec(l.uses), use_penalty_spec(r.uses)))
}

/// The saturating sum of the costs of a run of steps.
pub open spec fn cost_of_steps(s: Seq<StepView>) -> u32
    decreases s.len(),
{
    if s.len() == 0 {
        0u32
    } else {
        sat_add(cost_of_steps(s.drop_last()), step_cost_spec(s.last().left, s.last().right))
    }
}

/// The worst single-step cost of a run of steps.
pub open spec fn max_of_steps(s: Seq<StepView>) -> u32
    decreases s.len(),
{
    if s.len() == 0 {
        0u32
    } else {
        max_u32(max_of_steps(s.drop_last()), step_cost_spec(s.last().left, s.last().right))
    }
}

/// A recorded step is sound: both snapshots are well-formed units and the
/// sacrificed side never carries the bare target item.
pub open spec fn step_wf(s: StepView) -> bool {
    &&& unit_wf(s.left)
    &&& unit_wf(s.right)
    &&& !carries_item(s.right)
}

/// Units held in canonical (sorted) order.
pub open spec fn units_sorted(s: Seq<UnitView>) -> bool {
    forall|i: int, j: int| 0 <= i < j < s.len() ==> unit_le(s[i], s[j])
}

/// No two distinct units carry the bare target item.
pub open spec fn at_most_one_carrier(s: Seq<UnitView>) -> bool {
    forall|i: int, j: int|
        0 <= i < j < s.len() ==> !(carries_item(s[i]) && carries_item(s[j]))
}

/// Internal consistency of a candidate path: well-formed units in canonical
/// order, at most one carrier of the bare item, sound steps, use counts no
/// larger than the number of merges taken, and the two cost fields exactly
/// accounting for the recorded steps.
pub open spec fn path_wf(p: PathView) -> bool {
    &&& forall|i: int| 0 <= i < p.remaining.len() ==> unit_wf(#[trigger] p.remaining[i])
    &&& units_sorted(p.remaining)
    &&& at_most_one_carrier(p.remaining)
    &&& forall|i: int| 0 <= i < p.steps.len() ==> step_wf(#[trigger] p.steps[i])
    &&& forall|i: int|
        0 <= i < p.remaining.len() ==> (#[trigger] p.remaining[i]).uses <= p.steps.len()
    &&& p.cost == cost_of_steps(p.steps)
    &&& p.max_cost == max_of_steps(p.steps)
}

/// Every selection index mentioned anywhere in the path lies below `n`.
pub open spec fn path_bounded(p: PathView, n: int) -> bool {
    &&& forall|i: int|
        0 <= i < p.remaining.len() ==> keys_bounded((#[trigger] p.remaining[i]).keys, n)
    &&& forall|i: int|
        0 <= i < p.steps.len() ==> keys_bounded((#[trigger] p.steps[i]).left.keys, n)
            && keys_bounded(p.steps[i].right.keys, n)
}

/// A legal candidate merge: two distinct positions among the remaining
/// units, of which the sacrificed (right) one does not carry the bare item.
pub open spec fn legal_pair(p: PathView, l: int, r: int) -> bool {
    &&& 0 <= l < p.remaining.len()
    &&& 0 <= r < p.remaining.len()
    &&& l != r
    &&& !carries_item(p.remaining[r])
}

/// The unit obtained by one merge: the entries of both sides in canonical
/// order, one more use than the more-used carrier.
pub open spec fn combined_unit(a: UnitView, b: UnitView) -> UnitView {
    UnitView { keys: merge_keys(a.keys, b.keys), uses: (max_u32(a.uses, b.uses) + 1) as u32 }
}

/// The first `i` units of `s` with positions `l` and `r` left out, order
/// kept.
pub open spec fn drop_two_upto(s: Seq<UnitView>, l: int, r: int, i: int) -> Seq<UnitView>
    decreases i,
{
    if i <= 0 {
        Seq::empty()
    } else if i - 1 == l || i - 1 == r {
        drop_two_upto(s, l, r, i - 1)
    } else {
        drop_two_upto(s, l, r, i - 1).push(s[i - 1])
    }
}

/// Insertion into a sorted run of units: the new unit goes after every unit
/// that sorts no later than it.
pub open spec fn insert_sorted(s: Seq<UnitView>, u: UnitView) -> Seq<UnitView>
    decreases s.len(),
{
    if s.len() == 0 {
        seq![u]
    } else if unit_le(s[0], u) {
        seq![s[0]] + insert_sorted(s.drop_first(), u)
    } else {
        seq![u] + s
    }
}

/// The one successor state a legal merge `(l, r)` produces: the other units
/// unchanged, the combined unit put in canonical position, the costs
/// extended by the step's cost, and the step recorded.
#[verifier::opaque]
pub open spec fn expand(p: PathView, l: int, r: int) -> PathView {
    let lu = p.remaining[l];
    let ru = p.remaining[r];
    let sc = step_cost_spec(lu, ru);
    PathView {
        cost: sat_add(p.cost, sc),
        max_cost: max_u32(sc, p.max_cost),
        remaining: insert_sorted(
            drop_two_upto(p.remaining, l, r, p.remaining.len() as int),
            combined_unit(lu, ru),
        ),
        steps: p.steps.push(StepView { left: lu, right: ru }),
    }
}

/// Which of two candidate paths wins: strictly lower total cost, or equal
/// total cost with the challenger's worst single step below the incumbent's
/// total. (The second comparison reads the incumbent's total, not its worst
/// step; the established behaviour is kept as it is.)
pub open spec fn more_effective(a: PathView, b: PathView) -> bool {
    a.cost < b.cost || (a.cost == b.cost && a.max_cost < b.cost)
}

/// The number of legal candidate merges `(l, r)` with this `l` and `r`
/// below `r_hi`.
pub open spec fn legal_in_row(p: PathView, l: int, r_hi: int) -> int
    decreases r_hi,
{
    if r_hi <= 0 {
        0
    } else {
        legal_in_row(p, l, r_hi - 1) + if legal_pair(p, l, r_hi - 1) {
            1int
        } else {
            0int
        }
    }
}

/// The number of legal candidate merges with `l` below `l_hi`.
pub open spec fn legal_upto(p: PathView, l_hi: int) -> int
    decreases l_hi,
{
    if l_hi <= 0 {
        0
    } else {
        legal_upto(p, l_hi - 1) + legal_in_row(p, l_hi - 1, p.remaining.len() as int)
    }
}

/// The number of legal candidate merges of a state.
pub open spec fn num_legal_pairs(p: PathView) -> int {
    legal_upto(p, p.remaining.len() as int)
}

/// A pair count held in a 32-bit counter, saturated at its ceiling.
pub open spec fn sat_count(n: int) -> u32 {
    if n > u32::MAX {
        u32::MAX
    } else if n < 0 {
        0u32
    } else {
        n as u32
    }
}

impl Path {
    /// An empty path with the given accumulated costs, its collections
    /// pre-sized for the expected contents.
    pub fn with_capacity(cost: u32, max_cost: u32, remaining: usize, steps: usize) -> (r: Path)
        ensures
            r@.cost == cost,
            r@.max_cost == max_cost,
            r@.remaining =~= Seq::<UnitView>::empty(),
            r@.steps =~= Seq::<StepView>::empty(),
    {
        let r = Path {
            cost,
            max_cost,
            remaining: Vec::with_capacity(remaining),
            steps: Vec::with_capacity(steps),
        };
        proof {
            assert(r@.remaining =~= Seq::<UnitView>::empty());
            assert(r@.steps =~= Seq::<StepView>::empty());
        }
        r
    }

    /// Whether this path beats `other` under the search's comparison.
    pub fn is_more_effective(&self, other: &Path) -> (r: bool)
        ensures
            r == more_effective(self@, other@),
    {
        self.cost < other.cost || (self.cost == other.cost && self.max_cost < other.cost)
    }
}

/// Where position `k` of a run with positions `lo` and `hi` dropped came
/// from in the original run.
pub open spec fn drop_idx(lo: int, hi: int, k: int) -> int {
    if k < lo {
        k
    } else if k < hi - 1 {
        k + 1
    } else {
        k + 2
    }
}

/// Dropping two positions is symmetric in the two positions.
proof fn lemma_drop_two_sym(s: Seq<UnitView>, l: int, r: int, i: int)
    ensures
        drop_two_upto(s, l, r, i) =~= drop_two_upto(s, r, l, i),
    decreases i,
{
    if i > 0 {
        lemma_drop_two_sym(s, l, r, i - 1);
    }
}

/// Dropping positions `lo < hi` keeps every other unit, in order: position
/// `k` of the result is position `drop_idx(lo, hi, k)` of the original.
proof fn lemma_drop_two_upto_props(s: Seq<UnitView>, lo: int, hi: int, i: int)
    requires
        0 <= lo < hi < s.len(),
        0 <= i <= s.len(),
    ensures
        drop_two_upto(s, lo, hi, i).len() == i - (if i > lo {
            1int
        } else {
            0int
        }) - (if i > hi {
            1int
        } else {
            0int
        }),
        forall|k: int|
            0 <= k < drop_two_upto(s, lo, hi, i).len() ==> drop_two_upto(s, lo, hi, i)[k] == s[
                drop_idx(lo, hi, k)
            ],
    decreases i,
{
    if i > 0 {
        lemma_drop_two_upto_props(s, lo, hi, i - 1);
    }
}

/// The properties of dropping two arbitrary distinct positions `l` and `r`:
/// the result keeps every other unit in order.
pub proof fn lemma_drop_two(s: Seq<UnitView>, l: int, r: int)
    requires
        0 <= l < s.len(),
        0 <= r < s.len(),
        l != r,
    ensures
        drop_two_upto(s, l, r, s.len() as int).len() == s.len() - 2,
        forall|k: int|
            0 <= k < s.len() - 2 ==> drop_two_upto(s, l, r, s.len() as int)[k] == s[drop_idx(
                if l < r {
                    l
                } else {
                    r
                },
                if l < r {
                    r
                } else {
                    l
                },
                k,
            )],
{
    let lo = if l < r {
        l
    } else {
        r
    };
    let hi = if l < r {
        r
    } else {
        l
    };
    lemma_drop_two_sym(s, l, r, s.len() as int);
    lemma_drop_two_upto_props(s, lo, hi, s.len() as int);
}

/// Sorted insertion yields the run with the unit placed at its canonical
/// position: one longer, still sorted, and recoverable as a plain insertion.
pub proof fn lemma_insert_sorted_props(s: Seq<UnitView>, u: UnitView)
    requires
        units_sorted(s),
    ensures
        insert_sorted(s, u).len() == s.len() + 1,
        units_sorted(insert_sorted(s, u)),
        exists|pos: int|
            0 <= pos <= s.len() && insert_sorted(s, u) =~= #[trigger] s.insert(pos, u),
    decreases s.len(),
{
    let t = insert_sorted(s, u);
    if s.len() == 0 {
        assert(t =~= s.insert(0, u));
        assert(0 <= 0 <= s.len() && insert_sorted(s, u) =~= s.insert(0, u));
    } else if unit_le(s[0], u) {
        let st = s.drop_first();
        assert(units_sorted(st)) by {
            assert(forall|i: int, j: int|
                0 <= i < j < st.len() ==> st[i] == s[i + 1] && st[j] == s[j + 1]);
        }
        lemma_insert_sorted_props(st, u);
        let tt = insert_sorted(st, u);
        let pos = choose|pos: int| 0 <= pos <= st.len() && tt =~= st.insert(pos, u);
        assert(t =~= seq![s[0]] + tt);
        assert(t =~= s.insert(pos + 1, u));
        assert(units_sorted(t)) by {
            assert(forall|j: int| 0 <= j < tt.len() ==> t[j + 1] == tt[j]);
            assert forall|i: int, j: int| 0 <= i < j < t.len() implies unit_le(t[i], t[j]) by {
                if i == 0 {
                    let x = tt[j - 1];
                    assert(x == st.insert(pos, u)[j - 1]);
                    if j - 1 < pos {
                        assert(x == st[j - 1]);
                        assert(unit_le(s[0], s[j]));
                    } else if j - 1 == pos {
                        assert(x == u);
                    } else {
                        assert(x == st[j - 2]);
                        assert(unit_le(s[0], s[j - 1]));
                    }
                } else {
                    assert(t[i] == tt[i - 1] && t[j] == tt[j - 1]);
                }
            }
        }
    } else {
        assert(t =~= s.insert(0, u));
        lemma_unit_le_total(s[0], u);
        assert(unit_le(u, s[0]));
        assert(units_sorted(t)) by {
            assert forall|i: int, j: int| 0 <= i < j < t.len() implies unit_le(t[i], t[j]) by {
                if i == 0 {
                    assert(t[j] == s[j - 1]);
                    if j > 1 {
                        assert(unit_le(s[0], s[j - 1]));
                    }
                    lemma_unit_le_trans(u, s[0], s[j - 1]);
                } else {
                    assert(t[i] == s[i - 1] && t[j] == s[j - 1]);
                }
            }
        }
        assert(0 <= 0 <= s.len() && insert_sorted(s, u) =~= s.insert(0, u));
    }
}

/// Sorted insertion at a scanned position: once everything before `pos`
/// sorts no later than the unit and the unit at `pos` (if any) sorts after
/// it, the canonical position is `pos`.
pub proof fn lemma_insert_sorted_at(s: Seq<UnitView>, u: UnitView, pos: int)
    requires
        0 <= pos <= s.len(),
        forall|m: int| 0 <= m < pos ==> unit_le(#[trigger] s[m], u),
        pos < s.len() ==> !unit_le(s[pos], u),
    ensures
        insert_sorted(s, u) =~= s.insert(pos, u),
    decreases pos,
{
    if s.len() == 0 {
    } else if pos == 0 {
        if unit_le(s[0], u) {
            assert(false);
        }
    } else {
        assert(unit_le(s[0], u));
        let st = s.drop_first();
        assert(forall|m: int| 0 <= m < pos - 1 ==> st[m] == s[m + 1]);
        lemma_insert_sorted_at(st, u, pos - 1);
        assert(insert_sorted(s, u) =~= seq![s[0]] + st.insert(pos - 1, u));
        assert(insert_sorted(s, u) =~= s.insert(pos, u));
    }
}

/// Finds how far the units of a sorted run sort no later than `u`: the
/// canonical position for inserting `u`.
fn lower_bound(v: &Vec<ItemKeyCombination>, u: &ItemKeyCombination) -> (pos: usize)
    ensures
        pos <= v@.len(),
        forall|m: int| 0 <= m < pos ==> unit_le(#[trigger] v@[m]@, u@),
        pos < v@.len() ==> !unit_le(v@[pos as int]@, u@),
{
    let mut pos: usize = 0;
    while pos < v.len()
        invariant
            pos <= v@.len(),
            forall|m: int| 0 <= m < pos ==> unit_le(#[trigger] v@[m]@, u@),
        decreases v@.len() - pos,
    {
        if unit_le_exec(&v[pos], u) {
            pos += 1;
        } else {
            return pos;
        }
    }
    pos
}

/// Decides spec equality of two units.
fn unit_eq(a: &ItemKeyCombination, b: &ItemKeyCombination) -> (r: bool)
    ensures
        r == (a@ == b@),
{
    if a.anvil_use_count != b.anvil_use_count {
        return false;
    }
    if a.combination.len() != b.combination.len() {
        return false;
    }
    let mut i: usize = 0;
    while i < a.combination.len()
        invariant
            i <= a.combination@.len(),
            a.combination@.len() == b.combination@.len(),
            a.anvil_use_count == b.anvil_use_count,
            forall|m: int| 0 <= m < i ==> a.combination@[m] == b.combination@[m],
        decreases a.combination@.len() - i,
    {
        if !(a.combination[i] == b.combination[i]) {
            return false;
        }
        i += 1;
    }
    proof {
        assert(a@.keys =~= b@.keys);
        assert(a@ =~= b@);
    }
    true
}

/// Decides spec equality of two runs of units.
fn remaining_eq(a: &Vec<ItemKeyCombination>, b: &Vec<ItemKeyCombination>) -> (r: bool)
    ensures
        r == (a@.map_values(|u: ItemKeyCombination| u@) == b@.map_values(
            |u: ItemKeyCombination| u@,
        )),
{
    let ghost av = a@.map_values(|u: ItemKeyCombination| u@);
    let ghost bv = b@.map_values(|u: ItemKeyCombination| u@);
    if a.len() != b.len() {
        proof {
            assert(av.len() != bv.len());
        }
        return false;
    }
    let mut i: usize = 0;
    while i < a.len()
        invariant
            i <= a@.len(),
            a@.len() == b@.len(),
            av == a@.map_values(|u: ItemKeyCombination| u@),
            bv == b@.map_values(|u: ItemKeyCombination| u@),
            forall|m: int| 0 <= m < i ==> av[m] == bv[m],
        decreases a@.len() - i,
    {
        if !unit_eq(&a[i], &b[i]) {
            proof {
                assert(av[i as int] != bv[i as int]);
            }
            return false;
        }
        i += 1;
    }
    proof {
        assert(av =~= bv);
    }
    true
}

/// Appending a step extends the cost folds by that step's cost.
proof fn lemma_fold_push(ss: Seq<StepView>, s: StepView)
    ensures
        cost_of_steps(ss.push(s)) == sat_add(cost_of_steps(ss), step_cost_spec(s.left, s.right)),
        max_of_steps(ss.push(s)) == max_u32(max_of_steps(ss), step_cost_spec(s.left, s.right)),
{
    assert(ss.push(s).drop_last() =~= ss);
    assert(ss.push(s).last() == s);
}

/// Row counts of candidate pairs never go negative.
proof fn lemma_row_nonneg(p: PathView, l: int, i: int)
    ensures
        legal_in_row(p, l, i) >= 0,
    decreases
            (if i > 0 {
                i
            } else {
                0int
            }),
{
    if i > 0 {
        lemma_row_nonneg(p, l, i - 1);
    }
}

/// Candidate-pair counts never go negative.
proof fn lemma_upto_nonneg(p: PathView, i: int)
    ensures
        legal_upto(p, i) >= 0,
    decreases
            (if i > 0 {
                i
            } else {
                0int
            }),
{
    if i > 0 {
        lemma_upto_nonneg(p, i - 1);
        lemma_row_nonneg(p, i - 1, p.remaining.len() as int);
    }
}

/// Looks for an already-kept path whose remaining units equal `target`.
fn find_same_remaining(v: &Vec<Path>, target: &Vec<ItemKeyCombination>) -> (r: Option<usize>)
    ensures
        r matches Some(k) ==> k < v@.len() && v@[k as int]@.remaining == target@.map_values(
            |u: ItemKeyCombination| u@,
        ),
        r is None ==> forall|k: int|
            0 <= k < v@.len() ==> (#[trigger] v@[k]@).remaining != target@.map_values(
                |u: ItemKeyCombination| u@,
            ),
{
    let mut k: usize = 0;
    while k < v.len()
        invariant
            k <= v@.len(),
            forall|m: int|
                0 <= m < k ==> (#[trigger] v@[m]@).remaining != target@.map_values(
                    |u: ItemKeyCombination| u@,
                ),
        decreases v@.len() - k,
    {
        if remaining_eq(&v[k].remaining, target) {
            return Some(k);
        }
        k += 1;
    }
    None
}

impl Path {
    /// Builds the successor state of one legal merge `(left, right)`: every
    /// other unit kept, the combined unit put at its canonical position, the
    /// costs extended, the step recorded.
    fn expand_exec(&self, left: usize, right: usize) -> (np: Path)
        requires
            path_wf(self@),
            self@.steps.len() + self@.remaining.len() < u32::MAX,
            legal_pair(self@, left as int, right as int),
        ensures
            np@ == expand(self@, left as int, right as int),
            path_wf(np@),
            np@.remaining.len() + 1 == self@.remaining.len(),
            np@.steps.len() == self@.steps.len() + 1,
            forall|n: int| path_bounded(self@, n) ==> path_bounded(np@, n),
    {
        proof {
            reveal(expand);
        }
        let ghost p = self@;
        let ghost l = left as int;
        let ghost r = right as int;
        let ghost lu = p.remaining[l];
        let ghost ru = p.remaining[r];
        let ghost others = drop_two_upto(p.remaining, l, r, p.remaining.len() as int);
        let len = self.remaining.len();

        // All units but the two merged ones, order kept.
        let mut new_remaining: Vec<ItemKeyCombination> = Vec::new();
        let mut i: usize = 0;
        while i < len
            invariant
                i <= len,
                len == self.remaining@.len(),
                p == self@,
                left < len,
                right < len,
                left != right,
                new_remaining@.map_values(|u: ItemKeyCombination| u@) =~= drop_two_upto(
                    p.remaining,
                    left as int,
                    right as int,
                    i as int,
                ),
            decreases len - i,
        {
            if i != left && i != right {
                new_remaining.push(self.remaining[i].duplicate());
                proof {
                    assert(new_remaining@.map_values(|u: ItemKeyCombination| u@) =~= drop_two_upto(
                        p.remaining,
                        left as int,
                        right as int,
                        i + 1,
                    ));
                }
            }
            i += 1;
        }
        proof {
            assert(new_remaining@.map_values(|u: ItemKeyCombination| u@) =~= others);
            lemma_drop_two(p.remaining, l, r);
        }
        let ghost lo = if l < r {
            l
        } else {
            r
        };
        let ghost hi = if l < r {
            r
        } else {
            l
        };
        proof {
            assert(units_sorted(others)) by {
                assert forall|k1: int, k2: int|
                    0 <= k1 < k2 < others.len() implies unit_le(others[k1], others[k2]) by {
                    assert(others[k1] == p.remaining[drop_idx(lo, hi, k1)]);
                    assert(others[k2] == p.remaining[drop_idx(lo, hi, k2)]);
                    assert(drop_idx(lo, hi, k1) < drop_idx(lo, hi, k2));
                }
            }
            assert(forall|k: int|
                0 <= k < others.len() ==> unit_wf(#[trigger] others[k]) && others[k].uses
                    <= p.steps.len());
        }

        // The merged unit.
        let combined = self.remaining[left].combine(&self.remaining[right]);
        let ghost cu = combined_unit(lu, ru);
        proof {
            assert(self.remaining@[l]@ == lu);
            assert(self.remaining@[r]@ == ru);
            assert(combined@.keys =~= merge_keys(lu.keys, ru.keys));
            assert(combined@ =~= cu);
            assert(ru.keys[0] is Enchant);
            crate::units::lemma_merge_keys_wf(lu.keys, ru.keys);
            assert(unit_wf(cu));
            assert(carries_item(cu) <==> carries_item(lu)) by {
                crate::units::lemma_merge_keys_multiset(lu.keys, ru.keys);
            }
        }

        // Canonical position for the merged unit.
        let pos = lower_bound(&new_remaining, &combined);
        proof {
            assert(combined@ == cu);
            lemma_insert_sorted_at(others, cu, pos as int);
            lemma_insert_sorted_props(others, cu);
        }
        new_remaining.insert(pos, combined);
        let ghost t = insert_sorted(others, cu);
        proof {
            assert(new_remaining@.map_values(|u: ItemKeyCombination| u@) =~= t);
            assert(t =~= others.insert(pos as int, cu));
            assert forall|k: int| 0 <= k < t.len() implies t[k] == (if k < pos {
                others[k]
            } else if k == pos {
                cu
            } else {
                others[k - 1]
            }) by {
                assert(t == others.insert(pos as int, cu));
            }
        }

        // The recorded steps: the ones taken so far, plus this merge.
        let mut new_steps: Vec<Step> = Vec::new();
        let mut j: usize = 0;
        while j < self.steps.len()
            invariant
                j <= self.steps@.len(),
                p == self@,
                new_steps@.len() == j,
                forall|k: int| 0 <= k < j ==> new_steps@[k]@ == p.steps[k],
            decreases self.steps@.len() - j,
        {
            new_steps.push(self.steps[j].duplicate());
            j += 1;
        }
        let new_left = self.remaining[left].duplicate();
        let new_right = self.remaining[right].duplicate();
        proof {
            assert(new_left@ == lu);
            assert(new_right@ == ru);
        }
        new_steps.push(Step { left: new_left, right: new_right });
        let ghost ns = p.steps.push(StepView { left: lu, right: ru });
        proof {
            assert(new_steps@[p.steps.len() as int]@ == StepView { left: lu, right: ru });
            assert(new_steps@.map_values(|s: Step| s@) =~= ns);
        }

        // The step's cost and the extended accumulators.
        proof {
            assert(forall|k: int| 0 <= k < ru.keys.len() ==> ru.keys[k] is Enchant);
        }
        let step_cost_enchants = self.remaining[right].cost();
        let step_cost_penalties = self.remaining[left].use_penalty().saturating_add(
            self.remaining[right].use_penalty(),
        );
        let sc = step_cost_enchants.saturating_add(step_cost_penalties);
        let new_cost = self.cost.saturating_add(sc);
        let new_max = if sc >= self.max_cost {
            sc
        } else {
            self.max_cost
        };
        proof {
            assert(sc == step_cost_spec(lu, ru));
        }

        let np = Path { cost: new_cost, max_cost: new_max, remaining: new_remaining, steps: new_steps };
        proof {
            assert(np@ =~= expand(p, l, r));
            lemma_fold_push(p.steps, StepView { left: lu, right: ru });
            assert(path_wf(np@)) by {
                assert(forall|k: int| 0 <= k < t.len() ==> unit_wf(#[trigger] t[k]));
                assert(at_most_one_carrier(t)) by {
                    assert forall|i1: int, j1: int|
                        0 <= i1 < j1 < t.len() implies !(carries_item(t[i1]) && carries_item(
                        t[j1],
                    )) by {
                        if carries_item(t[i1]) && carries_item(t[j1]) {
                            if i1 == pos {
                                let dj = drop_idx(lo, hi, j1 - 1);
                                assert(t[j1] == p.remaining[dj]);
                                assert(carries_item(lu));
                                assert(dj != l && dj != r);
                                if l < dj {
                                    assert(!(carries_item(p.remaining[l]) && carries_item(
                                        p.remaining[dj],
                                    )));
                                } else {
                                    assert(!(carries_item(p.remaining[dj]) && carries_item(
                                        p.remaining[l],
                                    )));
                                }
                            } else if j1 == pos {
                                let di = drop_idx(lo, hi, i1);
                                assert(t[i1] == p.remaining[di]);
                                assert(carries_item(lu));
                                assert(di != l && di != r);
                                if l < di {
                                    assert(!(carries_item(p.remaining[l]) && carries_item(
                                        p.remaining[di],
                                    )));
                                } else {
                                    assert(!(carries_item(p.remaining[di]) && carries_item(
                                        p.remaining[l],
                                    )));
                                }
                            } else {
                                let di = drop_idx(lo, hi, if i1 < pos {
                                    i1
                                } else {
                                    i1 - 1
                                });
                                let dj = drop_idx(lo, hi, if j1 < pos {
                                    j1
                                } else {
                                    j1 - 1
                                });
                                assert(t[i1] == p.remaining[di]);
                                assert(t[j1] == p.remaining[dj]);
                                assert(di < dj);
                                assert(!(carries_item(p.remaining[di]) && carries_item(
                                    p.remaining[dj],
                                )));
                            }
                        }
                    }
                }
                assert(forall|k: int|
                    0 <= k < t.len() ==> (#[trigger] t[k]).uses <= ns.len());
                assert(forall|k: int| 0 <= k < ns.len() ==> step_wf(#[trigger] ns[k]));
            }
        }
        np
    }
}

/// Whether the ordered pair `(l, rr)` has already been examined when the
/// scan over pairs stands at `(left, right)`.
spec fn pair_done(l: int, rr: int, left: int, right: int) -> bool {
    l < left || (l == left && rr < right)
}

impl Path {
    /// The deduplicated successor states of this path, each one merge
    /// deeper, and the number of candidate pairs examined.
    ///
    /// Distinct merge choices can leave the same units still to merge; those
    /// are the same sub-problem, so of each such family only the most
    /// effective candidate is kept. This is the search's one pruning rule.
    #[verifier::rlimit(100)]
    pub fn explode(&self) -> (r: (Vec<Path>, u32))
        requires
            path_wf(self@),
            self@.steps.len() + self@.remaining.len() < u32::MAX,
        ensures
            forall|k: int| 0 <= k < r.0@.len() ==> path_wf(#[trigger] r.0@[k]@),
            forall|k: int|
                0 <= k < r.0@.len() ==> (#[trigger] r.0@[k]@).remaining.len() + 1
                    == self@.remaining.len() && r.0@[k]@.steps.len() == self@.steps.len() + 1,
            forall|k: int|
                #![trigger r.0@[k]]
                0 <= k < r.0@.len() ==> exists|l: int, rr: int|
                    legal_pair(self@, l, rr) && r.0@[k]@ == expand(self@, l, rr),
            forall|k1: int, k2: int|
                0 <= k1 < k2 < r.0@.len() ==> (#[trigger] r.0@[k1]@).remaining != (
                #[trigger] r.0@[k2]@).remaining,
            forall|l: int, rr: int|
                #![trigger legal_pair(self@, l, rr)]
                legal_pair(self@, l, rr) ==> exists|k: int|
                    0 <= k < r.0@.len() && r.0@[k]@.remaining == expand(self@, l, rr).remaining
                        && r.0@[k]@.cost <= expand(self@, l, rr).cost,
            self@.remaining.len() >= 2 ==> r.0@.len() >= 1,
            r.1 == sat_count(num_legal_pairs(self@)),
            forall|n: int, k: int|
                path_bounded(self@, n) && 0 <= k < r.0@.len() ==> #[trigger] path_bounded(
                    r.0@[k]@,
                    n,
                ),
    {
        let mut best_paths: Vec<Path> = Vec::new();
        let mut tries: u32 = 0;
        let ghost p = self@;
        // For each kept path, the pair that produced it; for each examined
        // legal pair, where its sub-problem's representative is kept.
        let ghost mut pairs_of: Seq<(int, int)> = Seq::empty();
        let ghost mut idx_of: Map<(int, int), int> = Map::empty();
        let len = self.remaining.len();
        let mut left: usize = 0;
        while left < len
            invariant
                left <= len,
                len == p.remaining.len(),
                p == self@,
                path_wf(p),
                p.steps.len() + p.remaining.len() < u32::MAX,
                pairs_of.len() == best_paths@.len(),
                forall|k: int| 0 <= k < best_paths@.len() ==> path_wf(#[trigger] best_paths@[k]@),
                forall|k: int|
                    0 <= k < best_paths@.len() ==> (#[trigger] best_paths@[k]@).remaining.len() + 1
                        == p.remaining.len() && best_paths@[k]@.steps.len() == p.steps.len() + 1,
                forall|k: int|
                    0 <= k < best_paths@.len() ==> legal_pair(
                        p,
                        (#[trigger] pairs_of[k]).0,
                        pairs_of[k].1,
                    ) && best_paths@[k]@ == expand(p, pairs_of[k].0, pairs_of[k].1),
                forall|k1: int, k2: int|
                    0 <= k1 < k2 < best_paths@.len() ==> (#[trigger] best_paths@[k1]@).remaining
                        != (#[trigger] best_paths@[k2]@).remaining,
                forall|l: int, rr: int|
                    #![trigger legal_pair(p, l, rr)]
                    legal_pair(p, l, rr) && pair_done(l, rr, left as int, 0)
                        ==> idx_of.dom().contains((l, rr)) && 0 <= idx_of[(l, rr)]
                        < best_paths@.len() && best_paths@[idx_of[(l, rr)]]@.remaining == expand(
                        p,
                        l,
                        rr,
                    ).remaining && best_paths@[idx_of[(l, rr)]]@.cost <= expand(p, l, rr).cost,
                tries == sat_count(legal_upto(p, left as int)),
                forall|n: int, k: int|
                    path_bounded(p, n) && 0 <= k < best_paths@.len() ==> #[trigger] path_bounded(
                        best_paths@[k]@,
                        n,
                    ),
            decreases len - left,
        {
            let mut right: usize = 0;
            while right < len
                invariant
                    left < len,
                    right <= len,
                    len == p.remaining.len(),
                    p == self@,
                    path_wf(p),
                    p.steps.len() + p.remaining.len() < u32::MAX,
                    pairs_of.len() == best_paths@.len(),
                    forall|k: int|
                        0 <= k < best_paths@.len() ==> path_wf(#[trigger] best_paths@[k]@),
                    forall|k: int|
                        0 <= k < best_paths@.len() ==> (
                        #[trigger] best_paths@[k]@).remaining.len() + 1 == p.remaining.len()
                            && best_paths@[k]@.steps.len() == p.steps.len() + 1,
                    forall|k: int|
                        0 <= k < best_paths@.len() ==> legal_pair(
                            p,
                            (#[trigger] pairs_of[k]).0,
                            pairs_of[k].1,
                        ) && best_paths@[k]@ == expand(p, pairs_of[k].0, pairs_of[k].1),
                    forall|k1: int, k2: int|
                        0 <= k1 < k2 < best_paths@.len() ==> (
                        #[trigger] best_paths@[k1]@).remaining != (
                        #[trigger] best_paths@[k2]@).remaining,
                    forall|l: int, rr: int|
                        #![trigger legal_pair(p, l, rr)]
                        legal_pair(p, l, rr) && pair_done(l, rr, left as int, right as int)
                            ==> idx_of.dom().contains((l, rr)) && 0 <= idx_of[(l, rr)]
                            < best_paths@.len() && best_paths@[idx_of[(l, rr)]]@.remaining
                            == expand(p, l, rr).remaining && best_paths@[idx_of[(l, rr)]]@.cost
                            <= expand(p, l, rr).cost,
                    tries == sat_count(
                        legal_upto(p, left as int) + legal_in_row(p, left as int, right as int),
                    ),
                    forall|n: int, k: int|
                        path_bounded(p, n) && 0 <= k < best_paths@.len()
                            ==> #[trigger] path_bounded(best_paths@[k]@, n),
                decreases len - right,
            {
                let legal = right != left && !self.remaining[right].carries_bare_item();
                proof {
                    assert(self.remaining@[right as int]@ == p.remaining[right as int]);
                    assert(legal == legal_pair(p, left as int, right as int));
                }
                if legal {
                    let new_path = self.expand_exec(left, right);
                    proof {
                        lemma_upto_nonneg(p, left as int);
                        lemma_row_nonneg(p, left as int, right as int);
                        assert(legal_in_row(p, left as int, right as int + 1) == legal_in_row(
                            p,
                            left as int,
                            right as int,
                        ) + 1);
                    }
                    tries = tries.saturating_add(1);
                    let ghost np = new_path@;
                    let ghost cur = expand(p, left as int, right as int);
                    match find_same_remaining(&best_paths, &new_path.remaining) {
                        Some(k) => {
                            proof {
                                assert(best_paths@[k as int]@.remaining == np.remaining);
                            }
                            if new_path.is_more_effective(&best_paths[k]) {
                                let ghost bp0 = best_paths@;
                                best_paths.remove(k);
                                best_paths.insert(k, new_path);
                                proof {
                                    assert(best_paths@.len() == bp0.len());
                                    assert(forall|m: int|
                                        0 <= m < bp0.len() && m != k as int
                                            ==> best_paths@[m] == bp0[m]);
                                    assert(best_paths@[k as int]@ == np);
                                    assert(np.cost <= bp0[k as int]@.cost);
                                    pairs_of = pairs_of.update(
                                        k as int,
                                        (left as int, right as int),
                                    );
                                    idx_of = idx_of.insert(
                                        (left as int, right as int),
                                        k as int,
                                    );
                                }
                            } else {
                                proof {
                                    assert(best_paths@[k as int]@.cost <= np.cost);
                                    idx_of = idx_of.insert(
                                        (left as int, right as int),
                                        k as int,
                                    );
                                }
                            }
                        },
                        None => {
                            let ghost bp0 = best_paths@;
                            best_paths.push(new_path);
                            proof {
                                assert(best_paths@.len() == bp0.len() + 1);
                                assert(best_paths@[bp0.len() as int]@ == np);
                                assert(forall|m: int|
                                    0 <= m < bp0.len() ==> best_paths@[m] == bp0[m]);
                                pairs_of = pairs_of.push((left as int, right as int));
                                idx_of = idx_of.insert(
                                    (left as int, right as int),
                                    bp0.len() as int,
                                );
                            }
                        },
                    }
                } else {
                    proof {
                        assert(legal_in_row(p, left as int, right as int + 1) == legal_in_row(
                            p,
                            left as int,
                            right as int,
                        ));
                    }
                }
                right += 1;
            }
            left += 1;
        }
        let r = (best_paths, tries);
        proof {
            assert(r.1 == sat_count(num_legal_pairs(p)));
            assert forall|k: int|
                #![trigger r.0@[k]]
                0 <= k < r.0@.len() implies exists|l: int, rr: int|
                legal_pair(self@, l, rr) && r.0@[k]@ == expand(self@, l, rr) by {
                let (wl, wr) = pairs_of[k];
                assert(legal_pair(self@, wl, wr) && r.0@[k]@ == expand(self@, wl, wr));
            }
            assert forall|l: int, rr: int|
                #![trigger legal_pair(self@, l, rr)]
                legal_pair(self@, l, rr) implies exists|k: int|
                0 <= k < r.0@.len() && r.0@[k]@.remaining == expand(self@, l, rr).remaining
                    && r.0@[k]@.cost <= expand(self@, l, rr).cost by {
                assert(legal_pair(p, l, rr));
                assert(pair_done(l, rr, len as int, 0));
                let k = idx_of[(l, rr)];
                assert(0 <= k < r.0@.len() && r.0@[k]@.remaining == expand(
                    self@,
                    l,
                    rr,
                ).remaining && r.0@[k]@.cost <= expand(self@, l, rr).cost);
            }
            if p.remaining.len() >= 2 {
                let (wl, wr): (int, int) = if carries_item(p.remaining[0]) {
                    (0int, 1int)
                } else {
                    (1int, 0int)
                };
                assert(legal_pair(p, wl, wr));
                let k = idx_of[(wl, wr)];
                assert(0 <= k < r.0@.len());
            }
        }
        r
    }
}


/// Row counts of candidate pairs grow with the scanned range.
proof fn lemma_row_mono(p: PathView, l: int, a: int, b: int)
    requires
        0 <= a <= b,
    ensures
        legal_in_row(p, l, a) <= legal_in_row(p, l, b),
    decreases b,
{
    if a < b {
        lemma_row_mono(p, l, a, b - 1);
    }
}

/// Candidate-pair counts grow with the scanned range.
proof fn lemma_upto_mono(p: PathView, a: int, b: int)
    requires
        0 <= a <= b,
    ensures
        legal_upto(p, a) <= legal_upto(p, b),
    decreases b,
{
    if a < b {
        lemma_upto_mono(p, a, b - 1);
        lemma_row_nonneg(p, b - 1, p.remaining.len() as int);
    }
}

/// A state with one legal candidate merge has a positive pair count.
proof fn lemma_num_legal_pos(p: PathView, l: int, rr: int)
    requires
        legal_pair(p, l, rr),
    ensures
        num_legal_pairs(p) >= 1,
{
    lemma_row_nonneg(p, l, rr);
    assert(legal_in_row(p, l, rr + 1) >= 1);
    lemma_row_mono(p, l, rr + 1, p.remaining.len() as int);
    lemma_upto_nonneg(p, l);
    assert(legal_upto(p, l + 1) >= 1);
    lemma_upto_mono(p, l + 1, p.remaining.len() as int);
}

/// The state a run of merges, given as position pairs, leads to from `p`.
pub open spec fn run_merges(p: PathView, pairs: Seq<(int, int)>) -> PathView
    decreases pairs.len(),
{
    if pairs.len() == 0 {
        p
    } else {
        run_merges(expand(p, pairs[0].0, pairs[0].1), pairs.drop_first())
    }
}

/// Whether every merge of the run is legal in the state it is applied to.
pub open spec fn legal_run(p: PathView, pairs: Seq<(int, int)>) -> bool
    decreases pairs.len(),
{
    if pairs.len() == 0 {
        true
    } else {
        legal_pair(p, pairs[0].0, pairs[0].1) && legal_run(
            expand(p, pairs[0].0, pairs[0].1),
            pairs.drop_first(),
        )
    }
}

/// The state `b` arises from `p0` by some run of legal merges.
pub open spec fn reachable(p0: PathView, b: PathView) -> bool {
    exists|pairs: Seq<(int, int)>|
        #[trigger] legal_run(p0, pairs) && b == run_merges(p0, pairs)
}

/// Every state is reachable from itself.
pub proof fn lemma_reachable_refl(p0: PathView)
    ensures
        reachable(p0, p0),
{
    let pairs = Seq::<(int, int)>::empty();
    assert(legal_run(p0, pairs) && p0 == run_merges(p0, pairs));
}

/// A legal run extended by one more legal merge is a legal run, ending in
/// that merge's successor.
proof fn lemma_run_push(p0: PathView, pairs: Seq<(int, int)>, l: int, r: int)
    requires
        legal_run(p0, pairs),
        legal_pair(run_merges(p0, pairs), l, r),
    ensures
        legal_run(p0, pairs.push((l, r))),
        run_merges(p0, pairs.push((l, r))) == expand(run_merges(p0, pairs), l, r),
    decreases pairs.len(),
{
    let ext = pairs.push((l, r));
    if pairs.len() == 0 {
        assert(run_merges(p0, pairs) == p0);
        assert(ext[0] == (l, r));
        assert(ext.drop_first() =~= Seq::<(int, int)>::empty());
        assert(ext.drop_first().len() == 0);
        assert(legal_run(expand(p0, l, r), ext.drop_first()));
        assert(legal_run(p0, ext));
        assert(run_merges(p0, ext) == run_merges(expand(p0, l, r), ext.drop_first()));
        assert(run_merges(expand(p0, l, r), ext.drop_first()) == expand(p0, l, r));
    } else {
        assert(ext[0] == pairs[0]);
        let q = expand(p0, pairs[0].0, pairs[0].1);
        assert(legal_run(q, pairs.drop_first()));
        assert(run_merges(p0, pairs) == run_merges(q, pairs.drop_first()));
        lemma_run_push(q, pairs.drop_first(), l, r);
        assert(ext.drop_first() =~= pairs.drop_first().push((l, r)));
        assert(ext.drop_first() == pairs.drop_first().push((l, r)));
        assert(legal_run(q, ext.drop_first()));
        assert(legal_pair(p0, ext[0].0, ext[0].1));
        assert(legal_run(p0, ext));
        assert(run_merges(p0, ext) == run_merges(q, ext.drop_first()));
        assert(run_merges(q, ext.drop_first()) == expand(run_merges(q, pairs.drop_first()), l, r));
    }
}

/// One more legal merge keeps a state reachable.
pub proof fn lemma_reachable_step(p0: PathView, q: PathView, b: PathView, l: int, r: int)
    requires
        reachable(p0, q),
        legal_pair(q, l, r),
        b == expand(q, l, r),
    ensures
        reachable(p0, b),
{
    let pairs = choose|pairs: Seq<(int, int)>|
        #[trigger] legal_run(p0, pairs) && q == run_merges(p0, pairs);
    lemma_run_push(p0, pairs, l, r);
    assert(legal_run(p0, pairs.push((l, r))) && b == run_merges(p0, pairs.push((l, r))));
}

/// What a legal merge makes of a state is fixed by the state's remaining
/// units alone, but for the accumulated cost, which only ever enters the
/// successor's cost through a saturating addition. So of two states with the
/// same remaining units, the cheaper one supports every run the dearer one
/// does, completing with the same units at no greater cost.
pub proof fn lemma_runs_transfer(q1: PathView, q2: PathView, pairs: Seq<(int, int)>)
    requires
        q1.remaining == q2.remaining,
        q1.cost <= q2.cost,
        legal_run(q2, pairs),
    ensures
        legal_run(q1, pairs),
        run_merges(q1, pairs).remaining == run_merges(q2, pairs).remaining,
        run_merges(q1, pairs).cost <= run_merges(q2, pairs).cost,
    decreases pairs.len(),
{
    reveal(expand);
    if pairs.len() > 0 {
        let l = pairs[0].0;
        let r = pairs[0].1;
        assert(legal_pair(q1, l, r));
        let e1 = expand(q1, l, r);
        let e2 = expand(q2, l, r);
        assert(e1.remaining == e2.remaining);
        assert(e1.cost <= e2.cost);
        lemma_runs_transfer(e1, e2, pairs.drop_first());
    }
}

/// A state with one unit left admits no further merge: only the empty run
/// is legal from it.
proof fn lemma_complete_run_is_empty(p: PathView, pairs: Seq<(int, int)>)
    requires
        p.remaining.len() == 1,
        legal_run(p, pairs),
    ensures
        pairs.len() == 0,
        run_merges(p, pairs) == p,
{
    if pairs.len() > 0 {
        assert(legal_pair(p, pairs[0].0, pairs[0].1));
        assert(false);
    }
}

/// The minimum is unique: two complete states reachable from the same
/// start, each costing no more than every legal completion of that start,
/// agree on their cost. The search's contract grants both hypotheses of
/// every result it returns, so two runs over the same selections always
/// report the same total cost.
pub proof fn lemma_best_cost_unique(p0: PathView, b1: PathView, b2: PathView)
    requires
        reachable(p0, b1),
        b1.remaining.len() == 1,
        reachable(p0, b2),
        b2.remaining.len() == 1,
        forall|pairs: Seq<(int, int)>|
            #![trigger legal_run(p0, pairs)]
            legal_run(p0, pairs) && run_merges(p0, pairs).remaining.len() == 1 ==> b1.cost
                <= run_merges(p0, pairs).cost,
        forall|pairs: Seq<(int, int)>|
            #![trigger legal_run(p0, pairs)]
            legal_run(p0, pairs) && run_merges(p0, pairs).remaining.len() == 1 ==> b2.cost
                <= run_merges(p0, pairs).cost,
    ensures
        b1.cost == b2.cost,
{
    let pr1 = choose|pairs: Seq<(int, int)>|
        #[trigger] legal_run(p0, pairs) && b1 == run_merges(p0, pairs);
    let pr2 = choose|pairs: Seq<(int, int)>|
        #[trigger] legal_run(p0, pairs) && b2 == run_merges(p0, pairs);
    assert(b2.cost <= run_merges(p0, pr1).cost);
    assert(b1.cost <= run_merges(p0, pr2).cost);
}

/// While the search is part-way through the successors of a state, every
/// completed merge order of that state is accounted for: either the best
/// path found so far already costs no more, or a still-pending successor
/// admits a completion that costs no more.
spec fn covered(
    inc: PathView,
    best: Option<Path>,
    pending: Seq<Path>,
    pairs: Seq<(int, int)>,
) -> bool {
    ||| (best matches Some(b) && b@.cost <= run_merges(inc, pairs).cost)
    ||| exists|k: int, pairs2: Seq<(int, int)>|
        0 <= k < pending.len() && #[trigger] legal_run(pending[k]@, pairs2) && run_merges(
            pending[k]@,
            pairs2,
        ).remaining.len() == 1 && run_merges(pending[k]@, pairs2).cost <= run_merges(
            inc,
            pairs,
        ).cost
}

/// The search engine: the selections, and the starting units they induce —
/// the bare target item first, then one single-entry unit per selection.
pub struct Solver {
    enchants: Vec<Enchant>,
    items: Vec<ItemKeyCombination>,
}

/// The mathematical value of a solver.
#[verifier::ext_equal]
pub ghost struct SolverView {
    pub enchants: Seq<SelectionView>,
    pub items: Seq<UnitView>,
}

impl View for Solver {
    type V = SolverView;

    closed spec fn view(&self) -> SolverView {
        SolverView {
            enchants: self.enchants@.map_values(|e: Enchant| e@),
            items: self.items@.map_values(|u: ItemKeyCombination| u@),
        }
    }
}

/// A solver's starting units are exactly the bare item plus one unused
/// single-entry unit per selection, in selection order.
pub open spec fn solver_wf(v: SolverView) -> bool {
    &&& v.enchants.len() + 1 < u32::MAX
    &&& v.items.len() == v.enchants.len() + 1
    &&& v.items[0] == (UnitView { keys: seq![ItemKey::Item], uses: 0u32 })
    &&& forall|i: int|
        0 <= i < v.enchants.len() ==> v.items[i + 1] == (UnitView {
            keys: seq![ItemKey::Enchant((#[trigger] v.enchants[i]).score, i as u32)],
            uses: 0u32,
        })
}

/// The search's starting state: nothing merged, nothing spent.
pub open spec fn initial_path(v: SolverView) -> PathView {
    PathView { cost: 0u32, max_cost: 0u32, remaining: v.items, steps: Seq::empty() }
}

/// One entry of a resolved step: the target item itself, or one of the
/// original selections.
#[derive(Debug, Clone)]
pub enum ResolvedStepItem {
    Item,
    Enchant(Enchant),
}

/// The mathematical value of a resolved entry.
pub ghost enum ResolvedItemView {
    Item,
    Enchant(SelectionView),
}

impl View for ResolvedStepItem {
    type V = ResolvedItemView;

    open spec fn view(&self) -> ResolvedItemView {
        match self {
            ResolvedStepItem::Item => ResolvedItemView::Item,
            ResolvedStepItem::Enchant(e) => ResolvedItemView::Enchant(e@),
        }
    }
}

impl DeepView for ResolvedStepItem {
    type V = ResolvedItemView;

    open spec fn deep_view(&self) -> ResolvedItemView {
        self.view()
    }
}

/// One merge of the answer, in caller terms: what the receiving and the
/// sacrificed carriers held.
#[derive(Debug, Clone)]
pub struct ResolvedStep {
    pub left: Vec<ResolvedStepItem>,
    pub right: Vec<ResolvedStepItem>,
}

/// The mathematical value of a resolved step.
#[verifier::ext_equal]
pub ghost struct ResolvedStepView {
    pub left: Seq<ResolvedItemView>,
    pub right: Seq<ResolvedItemView>,
}

impl View for ResolvedStep {
    type V = ResolvedStepView;

    open spec fn view(&self) -> ResolvedStepView {
        ResolvedStepView { left: self.left.deep_view(), right: self.right.deep_view() }
    }
}

/// The answer: the total cost and the merges, in order.
#[derive(Debug, Clone)]
pub struct ResolvedPath {
    pub cost: u32,
    pub steps: Vec<ResolvedStep>,
}

/// The mathematical value of a resolved path.
#[verifier::ext_equal]
pub ghost struct ResolvedPathView {
    pub cost: u32,
    pub steps: Seq<ResolvedStepView>,
}

impl View for ResolvedPath {
    type V = ResolvedPathView;

    open spec fn view(&self) -> ResolvedPathView {
        ResolvedPathView {
            cost: self.cost,
            steps: self.steps@.map_values(|s: ResolvedStep| s@),
        }
    }
}

/// What a whole run returns: the best path, if any merge sequence exists,
/// and how many candidate pairs were examined over completed branches.
#[derive(Debug, Clone)]
pub struct SolverResult {
    pub path: Option<ResolvedPath>,
    pub paths_tried: u32,
}

/// How one entry resolves: the bare item to the item marker, an enchantment
/// entry to the selection its index names.
pub open spec fn resolve_key_spec(k: ItemKey, enchants: Seq<SelectionView>) -> ResolvedItemView {
    match k {
        ItemKey::Item => ResolvedItemView::Item,
        ItemKey::Enchant(_, idx) => ResolvedItemView::Enchant(enchants[idx as int]),
    }
}

/// How a unit's entries resolve, in order.
pub open spec fn resolve_keys_spec(s: Seq<ItemKey>, enchants: Seq<SelectionView>) -> Seq<
    ResolvedItemView,
> {
    s.map_values(|k: ItemKey| resolve_key_spec(k, enchants))
}

/// How one step resolves: both snapshots, entry by entry.
pub open spec fn resolve_step_spec(s: StepView, enchants: Seq<SelectionView>) -> ResolvedStepView {
    ResolvedStepView {
        left: resolve_keys_spec(s.left.keys, enchants),
        right: resolve_keys_spec(s.right.keys, enchants),
    }
}

/// How a whole run of steps resolves, in order.
pub open spec fn resolve_steps_spec(ss: Seq<StepView>, enchants: Seq<SelectionView>) -> Seq<
    ResolvedStepView,
> {
    ss.map_values(|s: StepView| resolve_step_spec(s, enchants))
}

impl Solver {
    /// A solver over the given selections: the bare target item plus one
    /// single-entry unit per selection, in selection order, none used yet.
    pub fn new(enchants: Vec<Enchant>) -> (r: Self)
        requires
            enchants@.len() + 1 < u32::MAX,
        ensures
            r@.enchants == enchants@.map_values(|e: Enchant| e@),
            solver_wf(r@),
    {
        let mut items: Vec<ItemKeyCombination> = Vec::new();
        items.push(ItemKeyCombination::single_item(ItemKey::Item, 0));
        proof {
            assert(items@[0]@ =~= (UnitView { keys: seq![ItemKey::Item], uses: 0u32 }));
        }
        let mut index: usize = 0;
        while index < enchants.len()
            invariant
                index <= enchants@.len(),
                enchants@.len() + 1 < u32::MAX,
                items@.len() == index + 1,
                items@[0]@ == (UnitView { keys: seq![ItemKey::Item], uses: 0u32 }),
                forall|i: int|
                    0 <= i < index ==> (#[trigger] items@[i + 1])@ == (UnitView {
                        keys: seq![ItemKey::Enchant(enchants@[i]@.score, i as u32)],
                        uses: 0u32,
                    }),
            decreases enchants@.len() - index,
        {
            let unit = ItemKeyCombination::single_item(
                ItemKey::Enchant(enchants[index].score, index as u32),
                0,
            );
            proof {
                assert(unit@ =~= (UnitView {
                    keys: seq![ItemKey::Enchant(enchants@[index as int]@.score, index as u32)],
                    uses: 0u32,
                }));
            }
            items.push(unit);
            index += 1;
        }
        let r = Solver { enchants, items };
        proof {
            assert(r@.enchants =~= r.enchants@.map_values(|e: Enchant| e@));
            assert(solver_wf(r@)) by {
                assert(r@.items.len() == r@.enchants.len() + 1);
                assert(r@.items[0] == (UnitView { keys: seq![ItemKey::Item], uses: 0u32 }));
                assert forall|i: int|
                    0 <= i < r@.enchants.len() implies r@.items[i + 1] == (UnitView {
                    keys: seq![ItemKey::Enchant((#[trigger] r@.enchants[i]).score, i as u32)],
                    uses: 0u32,
                }) by {
                    assert(r@.items[i + 1] == r.items@[i + 1]@);
                    assert(r@.enchants[i] == r.enchants@[i]@);
                }
            }
        }
        r
    }

    /// Resolves one entry back into caller terms.
    pub fn resolve_item_key(&self, item_key: &ItemKey) -> (r: ResolvedStepItem)
        requires
            *item_key matches ItemKey::Enchant(_, idx) ==> idx < self@.enchants.len(),
        ensures
            r@ == resolve_key_spec(*item_key, self@.enchants),
    {
        match item_key {
            ItemKey::Item => ResolvedStepItem::Item,
            ItemKey::Enchant(_, index) => {
                let enchant = &self.enchants[*index as usize];
                ResolvedStepItem::Enchant(enchant.duplicate())
            },
        }
    }

    /// Resolves a whole unit's entries back into caller terms.
    pub fn resolve_combination(&self, combination: &ItemKeyCombination) -> (r: Vec<
        ResolvedStepItem,
    >)
        requires
            keys_bounded(combination@.keys, self@.enchants.len() as int),
        ensures
            r.deep_view() == resolve_keys_spec(combination@.keys, self@.enchants),
    {
        let mut out: Vec<ResolvedStepItem> = Vec::new();
        let mut i: usize = 0;
        while i < combination.combination.len()
            invariant
                i <= combination@.keys.len(),
                keys_bounded(combination@.keys, self@.enchants.len() as int),
                out@.len() == i,
                forall|m: int|
                    0 <= m < i ==> (#[trigger] out@[m])@ == resolve_key_spec(
                        combination@.keys[m],
                        self@.enchants,
                    ),
            decreases combination@.keys.len() - i,
        {
            out.push(self.resolve_item_key(&combination.combination[i]));
            i += 1;
        }
        proof {
            assert(out.deep_view() =~= resolve_keys_spec(combination@.keys, self@.enchants));
        }
        out
    }

    /// The recursive search: expands the state, recurses on every successor
    /// that still has more than one unit, and on every completed merge order
    /// reports progress and keeps the more effective of it and the best
    /// found so far.
    pub fn solve_inner<F: Fn(u32)>(
        incomplete_path: &Path,
        best_path: &mut Option<Path>,
        path_explored_callback: &F,
        paths_tried: &mut u32,
    )
        requires
            path_wf(incomplete_path@),
            incomplete_path@.remaining.len() >= 2,
            incomplete_path@.steps.len() + incomplete_path@.remaining.len() < u32::MAX,
            forall|x: u32| call_requires(*path_explored_callback, (x,)),
            *old(best_path) matches Some(b0) ==> path_wf(b0@) && b0@.remaining.len() == 1
                && b0@.steps.len() + b0@.remaining.len() == incomplete_path@.steps.len()
                + incomplete_path@.remaining.len(),
        ensures
            *final(best_path) is Some,
            *final(best_path) matches Some(b) ==> path_wf(b@) && b@.remaining.len() == 1
                && b@.steps.len() + b@.remaining.len() == incomplete_path@.steps.len()
                + incomplete_path@.remaining.len(),
            forall|n: int|
                #![trigger path_bounded(incomplete_path@, n)]
                path_bounded(incomplete_path@, n) && (*old(best_path) matches Some(b0)
                    ==> path_bounded(b0@, n)) ==> (*final(best_path) matches Some(b)
                    ==> path_bounded(b@, n)),
            forall|p0: PathView|
                #![trigger reachable(p0, incomplete_path@)]
                reachable(p0, incomplete_path@) && (*old(best_path) matches Some(b0)
                    ==> reachable(p0, b0@)) ==> (*final(best_path) matches Some(b)
                    ==> reachable(p0, b@)),
            *final(paths_tried) >= *old(paths_tried),
            *final(paths_tried) >= 1,
            *old(best_path) matches Some(b0) ==> (*final(best_path) matches Some(b) ==> b@.cost
                <= b0@.cost),
            forall|pairs: Seq<(int, int)>|
                #![trigger legal_run(incomplete_path@, pairs)]
                legal_run(incomplete_path@, pairs) && run_merges(
                    incomplete_path@,
                    pairs,
                ).remaining.len() == 1 ==> (*final(best_path) matches Some(b) ==> b@.cost
                    <= run_merges(incomplete_path@, pairs).cost),
        decreases incomplete_path@.remaining.len(),
    {
        let ghost big_n = incomplete_path@.steps.len() + incomplete_path@.remaining.len();
        let ghost initial_best = *best_path;
        let (mut paths, tried) = incomplete_path.explode();
        proof {
            let p = incomplete_path@;
            let (wl, wr): (int, int) = if carries_item(p.remaining[0]) {
                (0int, 1int)
            } else {
                (1int, 0int)
            };
            assert(legal_pair(p, wl, wr));
            lemma_num_legal_pos(p, wl, wr);
            assert(tried >= 1);
        }
        let ghost len0 = paths@.len();
        proof {
            assert forall|pairs: Seq<(int, int)>|
                #![trigger legal_run(incomplete_path@, pairs)]
                legal_run(incomplete_path@, pairs) && run_merges(
                    incomplete_path@,
                    pairs,
                ).remaining.len() == 1 implies covered(
                incomplete_path@,
                *best_path,
                paths@,
                pairs,
            ) by {
                if pairs.len() == 0 {
                    assert(run_merges(incomplete_path@, pairs) == incomplete_path@);
                } else {
                    let l0 = pairs[0].0;
                    let r0 = pairs[0].1;
                    assert(legal_pair(incomplete_path@, l0, r0));
                    let e = expand(incomplete_path@, l0, r0);
                    assert(legal_run(e, pairs.drop_first()));
                    assert(run_merges(incomplete_path@, pairs) == run_merges(
                        e,
                        pairs.drop_first(),
                    ));
                    let k = choose|k: int|
                        0 <= k < paths@.len() && (#[trigger] paths@[k]@).remaining == e.remaining
                            && paths@[k]@.cost <= e.cost;
                    lemma_runs_transfer(paths@[k]@, e, pairs.drop_first());
                    assert(0 <= k < paths@.len() && legal_run(paths@[k]@, pairs.drop_first())
                        && run_merges(paths@[k]@, pairs.drop_first()).remaining.len() == 1
                        && run_merges(paths@[k]@, pairs.drop_first()).cost <= run_merges(
                        incomplete_path@,
                        pairs,
                    ).cost);
                }
            }
        }
        while paths.len() > 0
            invariant
                path_wf(incomplete_path@),
                incomplete_path@.remaining.len() >= 2,
                big_n == incomplete_path@.steps.len() + incomplete_path@.remaining.len(),
                big_n < u32::MAX,
                len0 >= 1,
                tried >= 1,
                initial_best == *old(best_path),
                forall|x: u32| call_requires(*path_explored_callback, (x,)),
                forall|k: int| 0 <= k < paths@.len() ==> path_wf(#[trigger] paths@[k]@),
                forall|k: int|
                    0 <= k < paths@.len() ==> (#[trigger] paths@[k]@).remaining.len() + 1
                        == incomplete_path@.remaining.len() && paths@[k]@.steps.len()
                        == incomplete_path@.steps.len() + 1,
                forall|k: int|
                    #![trigger paths@[k]]
                    0 <= k < paths@.len() ==> exists|l: int, rr: int|
                        legal_pair(incomplete_path@, l, rr) && paths@[k]@ == expand(
                            incomplete_path@,
                            l,
                            rr,
                        ),
                forall|n: int, k: int|
                    path_bounded(incomplete_path@, n) && 0 <= k < paths@.len()
                        ==> #[trigger] path_bounded(paths@[k]@, n),
                *best_path matches Some(b) ==> path_wf(b@) && b@.remaining.len() == 1
                    && b@.steps.len() + b@.remaining.len() == big_n,
                initial_best matches Some(b0) ==> *best_path is Some,
                paths@.len() < len0 ==> *best_path is Some,
                paths@.len() < len0 ==> *paths_tried >= 1,
                forall|n: int|
                    #![trigger path_bounded(incomplete_path@, n)]
                    path_bounded(incomplete_path@, n) && (initial_best matches Some(b0)
                        ==> path_bounded(b0@, n)) ==> (*best_path matches Some(b)
                        ==> path_bounded(b@, n)),
                forall|p0: PathView|
                    #![trigger reachable(p0, incomplete_path@)]
                    reachable(p0, incomplete_path@) && (initial_best matches Some(b0)
                        ==> reachable(p0, b0@)) ==> (*best_path matches Some(b) ==> reachable(
                        p0,
                        b@,
                    )),
                *paths_tried >= *old(paths_tried),
                initial_best matches Some(b0) ==> (*best_path matches Some(b) ==> b@.cost
                    <= b0@.cost),
                forall|pairs: Seq<(int, int)>|
                    #![trigger legal_run(incomplete_path@, pairs)]
                    legal_run(incomplete_path@, pairs) && run_merges(
                        incomplete_path@,
                        pairs,
                    ).remaining.len() == 1 ==> covered(
                        incomplete_path@,
                        *best_path,
                        paths@,
                        pairs,
                    ),
            decreases paths@.len(),
        {
            let ghost paths0 = paths@;
            let path = paths.remove(0);
            proof {
                assert(paths@ =~= paths0.drop_first());
            }
            let ghost pk = path@;
            if path.remaining.len() > 1 {
                proof {
                    assert(pk.remaining.len() >= 2);
                    assert(pk.steps.len() + pk.remaining.len() == big_n);
                }
                let ghost pre_best = *best_path;
                Solver::solve_inner(&path, best_path, path_explored_callback, paths_tried);
                proof {
                    assert forall|n: int|
                        #![trigger path_bounded(incomplete_path@, n)]
                        path_bounded(incomplete_path@, n) && (initial_best matches Some(b0)
                            ==> path_bounded(b0@, n)) implies (*best_path matches Some(b)
                        ==> path_bounded(b@, n)) by {
                        if path_bounded(incomplete_path@, n) {
                            assert(path_bounded(pk, n));
                        }
                    }
                    assert forall|p0: PathView|
                        #![trigger reachable(p0, incomplete_path@)]
                        reachable(p0, incomplete_path@) && (initial_best matches Some(b0)
                            ==> reachable(p0, b0@)) implies (*best_path matches Some(b)
                        ==> reachable(p0, b@)) by {
                        if reachable(p0, incomplete_path@) {
                            let (l, rr) = choose|l: int, rr: int|
                                legal_pair(incomplete_path@, l, rr) && pk == expand(
                                    incomplete_path@,
                                    l,
                                    rr,
                                );
                            lemma_reachable_step(p0, incomplete_path@, pk, l, rr);
                            assert(reachable(p0, pk));
                        }
                    }
                    assert forall|pairs: Seq<(int, int)>|
                        #![trigger legal_run(incomplete_path@, pairs)]
                        legal_run(incomplete_path@, pairs) && run_merges(
                            incomplete_path@,
                            pairs,
                        ).remaining.len() == 1 implies covered(
                        incomplete_path@,
                        *best_path,
                        paths@,
                        pairs,
                    ) by {
                        assert(covered(incomplete_path@, pre_best, paths0, pairs));
                        let rc = run_merges(incomplete_path@, pairs).cost;
                        if pre_best is Some && pre_best->Some_0@.cost <= rc {
                            assert(*best_path matches Some(b) ==> b@.cost <= pre_best->Some_0@.cost);
                        } else {
                            let (k, pairs2) = choose|k: int, pairs2: Seq<(int, int)>|
                                0 <= k < paths0.len() && #[trigger] legal_run(paths0[k]@, pairs2)
                                    && run_merges(paths0[k]@, pairs2).remaining.len() == 1
                                    && run_merges(paths0[k]@, pairs2).cost <= rc;
                            if k == 0 {
                                assert(paths0[0]@ == pk);
                                assert(legal_run(pk, pairs2));
                                assert(*best_path matches Some(b) ==> b@.cost <= run_merges(
                                    pk,
                                    pairs2,
                                ).cost);
                            } else {
                                assert(paths@[k - 1] == paths0[k]);
                                assert(0 <= k - 1 < paths@.len() && legal_run(
                                    paths@[k - 1]@,
                                    pairs2,
                                ) && run_merges(paths@[k - 1]@, pairs2).remaining.len() == 1
                                    && run_merges(paths@[k - 1]@, pairs2).cost <= rc);
                            }
                        }
                    }
                }
            } else {
                proof {
                    assert(pk.remaining.len() == 1);
                    assert(pk.steps.len() + pk.remaining.len() == big_n);
                }
                (*path_explored_callback)(tried);
                *paths_tried = (*paths_tried).saturating_add(tried);
                let ghost pre_best = *best_path;
                let replace = match &*best_path {
                    Some(e) => path.is_more_effective(e),
                    None => true,
                };
                if replace {
                    proof {
                        assert forall|p0: PathView|
                            #![trigger reachable(p0, incomplete_path@)]
                            reachable(p0, incomplete_path@) implies reachable(p0, pk) by {
                            let (l, rr) = choose|l: int, rr: int|
                                legal_pair(incomplete_path@, l, rr) && pk == expand(
                                    incomplete_path@,
                                    l,
                                    rr,
                                );
                            lemma_reachable_step(p0, incomplete_path@, pk, l, rr);
                        }
                    }
                    *best_path = Some(path);
                }
                proof {
                    assert(*best_path matches Some(b) && b@.cost <= pk.cost);
                    assert forall|pairs: Seq<(int, int)>|
                        #![trigger legal_run(incomplete_path@, pairs)]
                        legal_run(incomplete_path@, pairs) && run_merges(
                            incomplete_path@,
                            pairs,
                        ).remaining.len() == 1 implies covered(
                        incomplete_path@,
                        *best_path,
                        paths@,
                        pairs,
                    ) by {
                        assert(covered(incomplete_path@, pre_best, paths0, pairs));
                        let rc = run_merges(incomplete_path@, pairs).cost;
                        if pre_best is Some && pre_best->Some_0@.cost <= rc {
                            assert(*best_path matches Some(b) ==> b@.cost <= pre_best->Some_0@.cost);
                        } else {
                            let (k, pairs2) = choose|k: int, pairs2: Seq<(int, int)>|
                                0 <= k < paths0.len() && #[trigger] legal_run(paths0[k]@, pairs2)
                                    && run_merges(paths0[k]@, pairs2).remaining.len() == 1
                                    && run_merges(paths0[k]@, pairs2).cost <= rc;
                            if k == 0 {
                                assert(paths0[0]@ == pk);
                                lemma_complete_run_is_empty(pk, pairs2);
                                assert(run_merges(pk, pairs2) == pk);
                                assert(*best_path matches Some(b) && b@.cost <= rc);
                            } else {
                                assert(paths@[k - 1] == paths0[k]);
                                assert(0 <= k - 1 < paths@.len() && legal_run(
                                    paths@[k - 1]@,
                                    pairs2,
                                ) && run_merges(paths@[k - 1]@, pairs2).remaining.len() == 1
                                    && run_merges(paths@[k - 1]@, pairs2).cost <= rc);
                            }
                        }
                    }
                }
            }
        }
    }

    /// Runs the whole search over the selections this solver was built on.
    ///
    /// With no selections there is nothing to merge and no path comes back.
    /// Otherwise the search returns a complete merge order that is reachable
    /// by legal merges and costs no more than any other legal merge order —
    /// one step per selection, the bare item never sacrificed — resolved
    /// into caller terms with its exact accumulated cost. The callback
    /// hears, once per completed merge order, how many candidate pairs that
    /// order's parent state examined.
    pub fn solve<F: Fn(u32)>(&self, path_explored_callback: F) -> (r: SolverResult)
        requires
            solver_wf(self@),
            forall|x: u32| call_requires(path_explored_callback, (x,)),
        ensures
            self@.enchants.len() == 0 ==> r.path is None && r.paths_tried == 0,
            self@.enchants.len() > 0 ==> r.path is Some && r.paths_tried >= 1,
            r.path matches Some(rp) ==> exists|b: PathView|
                {
                    &&& path_wf(b)
                    &&& #[trigger] reachable(initial_path(self@), b)
                    &&& b.remaining.len() == 1
                    &&& b.steps.len() == self@.enchants.len()
                    &&& rp@.cost == b.cost
                    &&& rp@.steps == resolve_steps_spec(b.steps, self@.enchants)
                },
            r.path matches Some(rp) ==> forall|pairs: Seq<(int, int)>|
                #![trigger legal_run(initial_path(self@), pairs)]
                legal_run(initial_path(self@), pairs) && run_merges(
                    initial_path(self@),
                    pairs,
                ).remaining.len() == 1 ==> rp@.cost <= run_merges(initial_path(self@), pairs).cost,
            r.path matches Some(rp) ==> rp@.steps.len() == self@.enchants.len(),
            r.path matches Some(rp) ==> forall|i: int, j: int|
                0 <= i < rp@.steps.len() && 0 <= j < rp@.steps[i].right.len() ==> !((
                #[trigger] rp@.steps[i].right[j]) is Item),
    {
        if self.enchants.len() == 0 {
            return SolverResult { path: None, paths_tried: 0 };
        }
        let ghost n = self@.enchants.len() as int;

        // The starting state: the bare item plus one unit per selection.
        let mut remaining: Vec<ItemKeyCombination> = Vec::new();
        let mut i: usize = 0;
        while i < self.items.len()
            invariant
                i <= self.items@.len(),
                remaining@.len() == i,
                forall|m: int| 0 <= m < i ==> (#[trigger] remaining@[m])@ == self.items@[m]@,
            decreases self.items@.len() - i,
        {
            remaining.push(self.items[i].duplicate());
            i += 1;
        }
        let incomplete_path = Path {
            cost: 0,
            max_cost: 0,
            remaining,
            steps: Vec::new(),
        };
        proof {
            assert(incomplete_path@.remaining =~= self@.items);
            assert(incomplete_path@.steps =~= Seq::<StepView>::empty());
            assert(incomplete_path@ =~= initial_path(self@));
            let q = incomplete_path@;
            assert(path_wf(q)) by {
                assert forall|k: int| 0 <= k < q.remaining.len() implies unit_wf(
                    #[trigger] q.remaining[k],
                ) by {
                    if k > 0 {
                        assert(q.remaining[k] == self@.items[k]);
                        assert(q.remaining[k].keys =~= seq![
                            ItemKey::Enchant(self@.enchants[k - 1].score, (k - 1) as u32),
                        ]);
                    }
                }
                assert(units_sorted(q.remaining)) by {
                    assert forall|k1: int, k2: int|
                        0 <= k1 < k2 < q.remaining.len() implies unit_le(
                        q.remaining[k1],
                        q.remaining[k2],
                    ) by {
                        let ka = q.remaining[k1].keys;
                        let kb = q.remaining[k2].keys;
                        assert(q.remaining[k2] == self@.items[k2]);
                        assert(self@.enchants[k2 - 1] == self@.enchants[k2 - 1]);
                        assert(kb == seq![
                            ItemKey::Enchant(self@.enchants[k2 - 1].score, (k2 - 1) as u32),
                        ]);
                        assert(kb.len() == 1 && kb[0] is Enchant);
                        if k1 == 0 {
                            assert(q.remaining[k1] == self@.items[0]);
                            assert(ka == seq![ItemKey::Item]);
                            assert(!key_eqv(ka[0], kb[0]) && key_lt(ka[0], kb[0]));
                            assert(keys_lt(ka, kb));
                        } else {
                            assert(q.remaining[k1] == self@.items[k1]);
                            assert(ka == seq![
                                ItemKey::Enchant(self@.enchants[k1 - 1].score, (k1 - 1) as u32),
                            ]);
                            assert(!key_eqv(ka[0], kb[0]) && key_lt(ka[0], kb[0]));
                            assert(keys_lt(ka, kb));
                        }
                    }
                }
                assert(q.steps.len() == 0);
                assert(cost_of_steps(q.steps) == 0);
                assert(max_of_steps(q.steps) == 0);
                assert forall|k: int| 0 <= k < q.remaining.len() implies (
                #[trigger] q.remaining[k]).uses <= q.steps.len() by {
                    assert(q.remaining[k] == self@.items[k]);
                    if k > 0 {
                        assert(self@.items[k] == (UnitView {
                            keys: seq![
                                ItemKey::Enchant(self@.enchants[k - 1].score, (k - 1) as u32),
                            ],
                            uses: 0u32,
                        }));
                    }
                }
                assert(at_most_one_carrier(q.remaining)) by {
                    assert forall|k1: int, k2: int|
                        0 <= k1 < k2 < q.remaining.len() implies !(carries_item(q.remaining[k1])
                        && carries_item(q.remaining[k2])) by {
                        assert(q.remaining[k2] == self@.items[k2]);
                        assert(q.remaining[k2].keys == seq![
                            ItemKey::Enchant(self@.enchants[k2 - 1].score, (k2 - 1) as u32),
                        ]);
                        assert(q.remaining[k2].keys[0] is Enchant);
                    }
                }
            }
            assert(path_bounded(q, n)) by {
                assert forall|k: int| 0 <= k < q.remaining.len() implies keys_bounded(
                    (#[trigger] q.remaining[k]).keys,
                    n,
                ) by {
                    if k > 0 {
                        assert(q.remaining[k].keys =~= seq![
                            ItemKey::Enchant(self@.enchants[k - 1].score, (k - 1) as u32),
                        ]);
                    }
                }
            }
            lemma_reachable_refl(initial_path(self@));
        }
        let mut best_path: Option<Path> = None;
        let mut paths_tried: u32 = 0;
        Solver::solve_inner(
            &incomplete_path,
            &mut best_path,
            &path_explored_callback,
            &mut paths_tried,
        );
        match best_path {
            Some(path) => {
                let ghost b = path@;
                proof {
                    assert(path_wf(b) && b.remaining.len() == 1);
                    assert(b.steps.len() == n);
                    assert(path_bounded(b, n));
                    assert(reachable(initial_path(self@), b));
                    assert(incomplete_path@ == initial_path(self@));
                    assert forall|pairs: Seq<(int, int)>|
                        #![trigger legal_run(initial_path(self@), pairs)]
                        legal_run(initial_path(self@), pairs) && run_merges(
                            initial_path(self@),
                            pairs,
                        ).remaining.len() == 1 implies b.cost <= run_merges(
                        initial_path(self@),
                        pairs,
                    ).cost by {
                        assert(legal_run(incomplete_path@, pairs));
                        assert(run_merges(incomplete_path@, pairs).remaining.len() == 1);
                    }
                }
                let mut steps: Vec<ResolvedStep> = Vec::new();
                let mut si: usize = 0;
                while si < path.steps.len()
                    invariant
                        si <= path.steps@.len(),
                        b == path@,
                        n == self@.enchants.len(),
                        path_wf(b),
                        path_bounded(b, n),
                        steps@.len() == si,
                        forall|m: int|
                            0 <= m < si ==> (#[trigger] steps@[m])@ == resolve_step_spec(
                                b.steps[m],
                                self@.enchants,
                            ),
                    decreases path.steps@.len() - si,
                {
                    proof {
                        assert(path.steps@[si as int]@ == b.steps[si as int]);
                        assert(step_wf(b.steps[si as int]));
                    }
                    let left = self.resolve_combination(&path.steps[si].left);
                    let right = self.resolve_combination(&path.steps[si].right);
                    let rs = ResolvedStep { left, right };
                    proof {
                        assert(rs@ =~= resolve_step_spec(b.steps[si as int], self@.enchants));
                    }
                    steps.push(rs);
                    si += 1;
                }
                let rp = ResolvedPath { cost: path.cost, steps };
                proof {
                    assert(rp@.steps =~= resolve_steps_spec(b.steps, self@.enchants));
                    assert(rp@.cost == b.cost);
                    assert forall|i2: int, j2: int|
                        0 <= i2 < rp@.steps.len() && 0 <= j2 < rp@.steps[i2].right.len() implies !((
                        #[trigger] rp@.steps[i2].right[j2]) is Item) by {
                        assert(rp@.steps[i2].right == resolve_keys_spec(
                            b.steps[i2].right.keys,
                            self@.enchants,
                        ));
                        let k = b.steps[i2].right.keys[j2];
                        assert(step_wf(b.steps[i2]));
                        assert(k is Enchant) by {
                            if j2 == 0 {
                                assert(!carries_item(b.steps[i2].right));
                            }
                        }
                        assert(rp@.steps[i2].right[j2] == resolve_key_spec(k, self@.enchants));
                    }
                }
                SolverResult { path: Some(rp), paths_tried }
            },
            None => {
                proof {
                    assert(false);
                }
                SolverResult { path: None, paths_tried }
            },
        }
    }
}

impl crate::step_ext::StepExt for ResolvedStepItem {
    open spec fn format_req(&self, item: registry::Item) -> bool {
        true
    }

    open spec fn format_spec(&self, item: registry::Item) -> Seq<char> {
        crate::step_ext::item_label(self@, item)
    }

    fn format(&self, item: registry::Item) -> (r: String)
    {
        match self {
            ResolvedStepItem::Item => item.label(),
            ResolvedStepItem::Enchant(e) => {
                let mut name = e.enchant.name.clone();
                if e.level > 1 {
                    name.append(" ");
                    let level = crate::step_ext::u32_decimal(e.level);
                    name.append(level.as_str());
                    proof {
                        reveal_strlit(" ");
                        assert(name@ =~= crate::step_ext::item_label(self@, item));
                    }
                }
                name
            },
        }
    }
}

impl crate::step_ext::StepExt for Vec<ResolvedStepItem> {
    open spec fn format_req(&self, item: registry::Item) -> bool {
        self@.len() > 0
    }

    open spec fn format_spec(&self, item: registry::Item) -> Seq<char> {
        if self@.len() == 1 {
            crate::step_ext::item_label(self@[0]@, item)
        } else {
            crate::step_ext::item_label(self@[0]@, item) + " (w/ "@ + crate::step_ext::join_spec(
                crate::step_ext::item_labels(self@.drop_first(), item),
                " + "@,
            ) + ")"@
        }
    }

    fn format(&self, item: registry::Item) -> (r: String)
    {
        let mut result = self[0].format(item);
        if self.len() > 1 {
            result.append(" (w/ ");
            let mut parts: Vec<String> = Vec::new();
            let mut i: usize = 1;
            while i < self.len()
                invariant
                    1 <= i <= self@.len(),
                    parts@.len() == i - 1,
                    forall|m: int|
                        0 <= m < i - 1 ==> (#[trigger] parts@[m])@ == crate::step_ext::item_label(
                            self@[m + 1]@,
                            item,
                        ),
                decreases self@.len() - i,
            {
                parts.push(self[i].format(item));
                i += 1;
            }
            proof {
                assert(parts.deep_view() =~= crate::step_ext::item_labels(self@.drop_first(), item));
            }
            let joined = crate::step_ext::join_strings(&parts, " + ");
            result.append(joined.as_str());
            result.append(")");
            proof {
                reveal_strlit(" + ");
                assert(result@ =~= self.format_spec(item));
            }
        }
        result
    }
}

} // verus!
