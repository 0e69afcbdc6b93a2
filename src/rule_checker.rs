use vstd::prelude::*;

use crate::holes::{holes_iter, table_holes, Hole, HollIndex};
use crate::seq_lemmas::{lemma_first_some_found, lemma_sorted_unique};
use crate::shift_gen::{Incomplete, StaffGroupList, StaffIndex, WeekRuleTable};
use crate::validate::{
    all_covered, check_index, check_index_result, check_unassigned_staff, covered, empty_coverage_table, group_sizes,
    is_member, lemma_covered_step, lists_uncovered, range_fault_against, refers, staff_index_lt, ValidateErr,
};

verus! {

/// A rule that `data` must satisfy before any roster is generated from it.
pub trait CheckRule<Data> {
    type Error;

    /// The rule holds of `data`.
    spec fn passes(&self, data: Data) -> bool;

    /// `err` is what the rule reports on `data`, which it rejects.
    spec fn reports(&self, data: Data, err: Self::Error) -> bool;

    fn check_rule(&self, data: &Data) -> (r: Result<(), Self::Error>)
        ensures
            r is Ok <==> self.passes(*data),
            r matches Err(e) ==> self.reports(*data, e),
    ;
}

/// Rule `i` is the first of `rules` that rejects `data`, and it reports `e`.
pub open spec fn first_rejection<Data, E, R: CheckRule<Data, Error = E>>(data: Data, rules: Seq<R>, i: int, e: E) -> bool {
    &&& 0 <= i < rules.len()
    &&& forall|j: int| 0 <= j < i ==> (#[trigger] rules[j]).passes(data)
    &&& !rules[i].passes(data)
    &&& rules[i].reports(data, e)
}

/// Some rule of `rules` is the first to reject `data`, and it reports `e`.
pub open spec fn rejects_with<Data, E, R: CheckRule<Data, Error = E>>(data: Data, rules: Seq<R>, e: E) -> bool {
    exists|i: int| #[trigger] first_rejection(data, rules, i, e)
}

/// Runs the rules in order and stops at the first that rejects `data`; hands
/// `data` back when all of them pass.
pub fn verify<'a, Data, E, R: CheckRule<Data, Error = E>>(data: &'a Data, rules: &[R]) -> (r: Result<&'a Data, E>)
    ensures
        r is Ok <==> forall|i: int| 0 <= i < rules@.len() ==> (#[trigger] rules@[i]).passes(*data),
        r matches Ok(d) ==> *d == *data,
        r matches Err(e) ==> rejects_with(*data, rules@, e),
{
    let mut i: usize = 0;
    while i < rules.len()
        invariant
            i <= rules@.len(),
            forall|j: int| 0 <= j < i ==> (#[trigger] rules@[j]).passes(*data),
        decreases rules@.len() - i,
    {
        match rules[i].check_rule(data) {
            Ok(()) => {},
            Err(e) => {
                assert(first_rejection(*data, rules@, i as int, e));
                return Err(e);
            },
        }
        i += 1;
    }
    Ok(data)
}

/// A staff member's morning and afternoon counts over the whole cycle.
#[derive(Clone, Copy, Debug, PartialEq, Eq, Structural)]
pub struct AmPmCounter {
    pub group_id: usize,
    pub index: usize,
    pub morning_count: usize,
    pub afternoon_count: usize,
}

/// The members whose counts differ from the targets, in order, with their counts.
#[derive(Debug)]
pub struct AmPmErr {
    pub err_case: Vec<AmPmCounter>,
}

/// Why a rule rejected a cycle of templates.
#[derive(Debug)]
pub enum CauseOfRuleErr {
    /// The slot at this place names a group that the registry does not have.
    GroupIdOutOfRangeErr(HollIndex),
    /// The slot at this place has a rotation key not below its group's size.
    StaffIdOutOfRangeErr(HollIndex),
    /// These members appear in no slot of the cycle.
    UnassignedStaffErr(Vec<StaffIndex>),
    /// These members work other than the wanted number of mornings or afternoons.
    AmPmErr(AmPmErr),
    /// The slot at this place points at a member that an earlier slot points at.
    DupHollErr(HollIndex),
}

/// A rule's report on the data it rejected.
#[derive(Debug)]
pub struct RuleErr {
    pub reason: CauseOfRuleErr,
}

/// What a `RuleErr` says, with its lists as sequences.
pub enum RuleErrView {
    GroupIdOutOfRange(HollIndex),
    StaffIdOutOfRange(HollIndex),
    UnassignedStaff(Seq<StaffIndex>),
    AmPm(Seq<AmPmCounter>),
    DupHoll(HollIndex),
}

impl View for RuleErr {
    type V = RuleErrView;

    open spec fn view(&self) -> RuleErrView {
        match self.reason {
            CauseOfRuleErr::GroupIdOutOfRangeErr(at) => RuleErrView::GroupIdOutOfRange(at),
            CauseOfRuleErr::StaffIdOutOfRangeErr(at) => RuleErrView::StaffIdOutOfRange(at),
            CauseOfRuleErr::UnassignedStaffErr(list) => RuleErrView::UnassignedStaff(list@),
            CauseOfRuleErr::AmPmErr(e) => RuleErrView::AmPm(e.err_case@),
            CauseOfRuleErr::DupHollErr(at) => RuleErrView::DupHoll(at),
        }
    }
}

/// `err` reports the index fault `e`.
pub open spec fn reports_index_fault(e: ValidateErr, err: RuleErr) -> bool {
    match e {
        ValidateErr::GroupIdOutOfRangeErr(at) => err.reason == CauseOfRuleErr::GroupIdOutOfRangeErr(at),
        ValidateErr::StaffIdOutOfRangeErr(at) => err.reason == CauseOfRuleErr::StaffIdOutOfRangeErr(at),
        ValidateErr::UnAssignedStaffErr(_) => false,
    }
}

fn index_fault_to_rule_err(e: ValidateErr) -> (r: RuleErr)
    requires
        !(e is UnAssignedStaffErr),
    ensures
        reports_index_fault(e, r),
{
    match e {
        ValidateErr::GroupIdOutOfRangeErr(at) => RuleErr { reason: CauseOfRuleErr::GroupIdOutOfRangeErr(at) },
        ValidateErr::StaffIdOutOfRangeErr(at) => RuleErr { reason: CauseOfRuleErr::StaffIdOutOfRangeErr(at) },
        ValidateErr::UnAssignedStaffErr(_) => RuleErr { reason: CauseOfRuleErr::UnassignedStaffErr(Vec::new()) },
    }
}

/// Checks the slots' indices, failing at the first bad slot, and then that every
/// staff member appears in some slot.
pub struct BasicChecker();

impl CheckRule<(WeekRuleTable<Incomplete>, StaffGroupList)> for BasicChecker {
    type Error = RuleErr;

    open spec fn passes(&self, data: (WeekRuleTable<Incomplete>, StaffGroupList)) -> bool {
        check_index_result(data) is Ok && all_covered(table_holes(data.0.0@), data.1.sizes())
    }

    open spec fn reports(&self, data: (WeekRuleTable<Incomplete>, StaffGroupList), err: RuleErr) -> bool {
        match check_index_result(data) {
            Err(e) => reports_index_fault(e, err),
            Ok(()) => err.reason matches CauseOfRuleErr::UnassignedStaffErr(list) && lists_uncovered(
                list@,
                table_holes(data.0.0@),
                data.1.sizes(),
            ),
        }
    }

    fn check_rule(&self, data: &(WeekRuleTable<Incomplete>, StaffGroupList)) -> (r: Result<(), RuleErr>) {
        match check_index(data) {
            Ok(()) => {},
            Err(e) => {
                proof {
                    lemma_first_some_found(table_holes(data.0.0@), range_fault_against(data.1.sizes()));
                }
                return Err(index_fault_to_rule_err(e));
            },
        }
        match check_unassigned_staff(data) {
            Ok(()) => Ok(()),
            Err(ValidateErr::UnAssignedStaffErr(list)) => Err(
                RuleErr { reason: CauseOfRuleErr::UnassignedStaffErr(list) },
            ),
            Err(e) => Err(index_fault_to_rule_err(e)),
        }
    }
}

/// How many holes of the given half of the day point at member `i` of group `g`.
pub open spec fn count_refs(holes: Seq<Hole>, sizes: Seq<nat>, g: int, i: int, morning: bool) -> nat
    decreases holes.len(),
{
    if holes.len() == 0 {
        0
    } else {
        count_refs(holes.drop_last(), sizes, g, i, morning) + if holes.last().is_morning() == morning && refers(
            holes.last(),
            sizes,
            g,
            i,
        ) {
            1nat
        } else {
            0nat
        }
    }
}

proof fn lemma_count_refs_bound(holes: Seq<Hole>, sizes: Seq<nat>, g: int, i: int, morning: bool)
    ensures
        count_refs(holes, sizes, g, i, morning) <= holes.len(),
    decreases holes.len(),
{
    if holes.len() > 0 {
        lemma_count_refs_bound(holes.drop_last(), sizes, g, i, morning);
    }
}

/// `c` holds the true counts of member `i` of group `g`.
pub open spec fn counted(c: AmPmCounter, holes: Seq<Hole>, sizes: Seq<nat>, g: int, i: int) -> bool {
    &&& c.group_id == g
    &&& c.index == i
    &&& c.morning_count == count_refs(holes, sizes, g, i, true)
    &&& c.afternoon_count == count_refs(holes, sizes, g, i, false)
}

/// Member `i` of group `g` works exactly `morning` mornings and `afternoon` afternoons.
pub open spec fn balanced(holes: Seq<Hole>, sizes: Seq<nat>, g: int, i: int, morning: nat, afternoon: nat) -> bool {
    count_refs(holes, sizes, g, i, true) == morning && count_refs(holes, sizes, g, i, false) == afternoon
}

/// Every member of every group works exactly the target numbers.
pub open spec fn all_balanced(holes: Seq<Hole>, sizes: Seq<nat>, morning: nat, afternoon: nat) -> bool {
    forall|g: int, i: int| is_member(sizes, g, i) ==> #[trigger] balanced(holes, sizes, g, i, morning, afternoon)
}

/// The member that `a` counts comes before member `i` of group `g`.
pub open spec fn counter_lt(a: AmPmCounter, g: int, i: int) -> bool {
    a.group_id < g || (a.group_id == g && a.index < i)
}

/// `list` holds, in increasing order and with their counts, exactly the
/// unbalanced members that come before member `i` of group `g`.
pub open spec fn lists_unbalanced_below(
    list: Seq<AmPmCounter>,
    holes: Seq<Hole>,
    sizes: Seq<nat>,
    morning: nat,
    afternoon: nat,
    g: int,
    i: int,
) -> bool {
    &&& forall|a: int, b: int|
        #![trigger list[a], list[b]]
        0 <= a < b < list.len() ==> counter_lt(list[a], list[b].group_id as int, list[b].index as int)
    &&& forall|k: int|
        0 <= k < list.len() ==> is_member(sizes, (#[trigger] list[k]).group_id as int, list[k].index as int)
            && counted(list[k], holes, sizes, list[k].group_id as int, list[k].index as int) && !balanced(
            holes,
            sizes,
            list[k].group_id as int,
            list[k].index as int,
            morning,
            afternoon,
        ) && counter_lt(list[k], g, i)
    &&& forall|j: int, i2: int|
        is_member(sizes, j, i2) && !#[trigger] balanced(holes, sizes, j, i2, morning, afternoon) && (j < g || (j == g
            && i2 < i)) ==> exists|k: int|
            0 <= k < list.len() && (#[trigger] list[k]).group_id == j && list[k].index == i2
}

/// `list` holds, in increasing order and with their counts, exactly the unbalanced members.
pub open spec fn lists_unbalanced(
    list: Seq<AmPmCounter>,
    holes: Seq<Hole>,
    sizes: Seq<nat>,
    morning: nat,
    afternoon: nat,
) -> bool {
    &&& forall|a: int, b: int|
        #![trigger list[a], list[b]]
        0 <= a < b < list.len() ==> counter_lt(list[a], list[b].group_id as int, list[b].index as int)
    &&& forall|k: int|
        0 <= k < list.len() ==> is_member(sizes, (#[trigger] list[k]).group_id as int, list[k].index as int)
            && counted(list[k], holes, sizes, list[k].group_id as int, list[k].index as int) && !balanced(
            holes,
            sizes,
            list[k].group_id as int,
            list[k].index as int,
            morning,
            afternoon,
        )
    &&& forall|j: int, i2: int|
        is_member(sizes, j, i2) && !#[trigger] balanced(holes, sizes, j, i2, morning, afternoon) ==> exists|k: int|
            0 <= k < list.len() && (#[trigger] list[k]).group_id == j && list[k].index == i2
}

/// Counts `h` in `table`: one more morning or afternoon, by the half of the
/// day `h` stands in, for the member that `h` points at, if it points at one.
fn count_staff_list(h: &Hole, check_list: &Vec<usize>, table: &mut Vec<Vec<AmPmCounter>>, sizes: Ghost<Seq<nat>>)
    requires
        check_list@.len() == sizes@.len(),
        forall|g: int| 0 <= g < check_list@.len() ==> check_list@[g] == #[trigger] sizes@[g],
        old(table)@.len() == sizes@.len(),
        forall|g: int| 0 <= g < old(table)@.len() ==> (#[trigger] old(table)@[g])@.len() == sizes@[g],
        forall|g: int, i: int|
            is_member(sizes@, g, i) ==> (#[trigger] old(table)@[g]@[i]).morning_count < usize::MAX
                && old(table)@[g]@[i].afternoon_count < usize::MAX,
    ensures
        final(table)@.len() == sizes@.len(),
        forall|g: int| 0 <= g < final(table)@.len() ==> (#[trigger] final(table)@[g])@.len() == sizes@[g],
        forall|g: int, i: int|
            is_member(sizes@, g, i) ==> #[trigger] final(table)@[g]@[i] == (if refers(*h, sizes@, g, i) {
                if h.is_morning() {
                    AmPmCounter { morning_count: (old(table)@[g]@[i].morning_count + 1) as usize, ..old(table)@[g]@[i] }
                } else {
                    AmPmCounter {
                        afternoon_count: (old(table)@[g]@[i].afternoon_count + 1) as usize,
                        ..old(table)@[g]@[i]
                    }
                }
            } else {
                old(table)@[g]@[i]
            }),
{
    if h.group_id < check_list.len() && check_list[h.group_id] > 0 {
        let j = h.id % check_list[h.group_id];
        let c = table[h.group_id][j];
        proof {
            assert(is_member(sizes@, h.group_id as int, j as int));
        }
        let c2 = if h.at.time_kind.is_morning() {
            AmPmCounter { morning_count: c.morning_count + 1, ..c }
        } else {
            AmPmCounter { afternoon_count: c.afternoon_count + 1, ..c }
        };
        table[h.group_id][j] = c2;
    }
}

/// The counts of every member of every group.
fn count_table(holes: &Vec<Hole>, check_list: &Vec<usize>, sizes: Ghost<Seq<nat>>) -> (r: Vec<Vec<AmPmCounter>>)
    requires
        check_list@.len() == sizes@.len(),
        forall|g: int| 0 <= g < check_list@.len() ==> check_list@[g] == #[trigger] sizes@[g],
    ensures
        r@.len() == sizes@.len(),
        forall|g: int| 0 <= g < r@.len() ==> (#[trigger] r@[g])@.len() == sizes@[g],
        forall|g: int, i: int| is_member(sizes@, g, i) ==> #[trigger] counted(r@[g]@[i], holes@, sizes@, g, i),
{
    let mut table: Vec<Vec<AmPmCounter>> = Vec::new();
    let mut g: usize = 0;
    while g < check_list.len()
        invariant
            g <= check_list@.len(),
            table@.len() == g,
            forall|j: int| 0 <= j < g ==> (#[trigger] table@[j])@.len() == check_list@[j],
            forall|j: int, i: int|
                0 <= j < g && 0 <= i < check_list@[j] ==> #[trigger] table@[j]@[i] == (AmPmCounter {
                    group_id: j as usize,
                    index: i as usize,
                    morning_count: 0,
                    afternoon_count: 0,
                }),
        decreases check_list@.len() - g,
    {
        let n = check_list[g];
        let mut row: Vec<AmPmCounter> = Vec::new();
        let mut i: usize = 0;
        while i < n
            invariant
                i <= n,
                row@.len() == i,
                forall|k: int|
                    0 <= k < i ==> #[trigger] row@[k] == (AmPmCounter {
                        group_id: g,
                        index: k as usize,
                        morning_count: 0,
                        afternoon_count: 0,
                    }),
            decreases n - i,
        {
            row.push(AmPmCounter { group_id: g, index: i, morning_count: 0, afternoon_count: 0 });
            i += 1;
        }
        table.push(row);
        g += 1;
    }
    proof {
        assert forall|g: int, i: int| is_member(sizes@, g, i) implies #[trigger] counted(
            table@[g]@[i],
            holes@.take(0),
            sizes@,
            g,
            i,
        ) by {
            assert(holes@.take(0).len() == 0);
        }
    }
    let mut k: usize = 0;
    while k < holes.len()
        invariant
            k <= holes@.len(),
            check_list@.len() == sizes@.len(),
            forall|g: int| 0 <= g < check_list@.len() ==> check_list@[g] == #[trigger] sizes@[g],
            table@.len() == sizes@.len(),
            forall|g: int| 0 <= g < table@.len() ==> (#[trigger] table@[g])@.len() == sizes@[g],
            forall|g: int, i: int|
                is_member(sizes@, g, i) ==> #[trigger] counted(table@[g]@[i], holes@.take(k as int), sizes@, g, i),
        decreases holes@.len() - k,
    {
        let h = holes[k];
        let ghost before = table@;
        proof {
            assert(holes@.take(k + 1).drop_last() =~= holes@.take(k as int));
            assert(holes@.take(k + 1).last() == h);
            assert forall|g: int, i: int| is_member(sizes@, g, i) implies (#[trigger] table@[g]@[i]).morning_count
                < usize::MAX && table@[g]@[i].afternoon_count < usize::MAX by {
                assert(counted(table@[g]@[i], holes@.take(k as int), sizes@, g, i));
                lemma_count_refs_bound(holes@.take(k as int), sizes@, g, i, true);
                lemma_count_refs_bound(holes@.take(k as int), sizes@, g, i, false);
            }
        }
        count_staff_list(&h, check_list, &mut table, sizes);
        proof {
            assert forall|g: int, i: int| is_member(sizes@, g, i) implies #[trigger] counted(
                table@[g]@[i],
                holes@.take(k + 1),
                sizes@,
                g,
                i,
            ) by {
                assert(counted(before[g]@[i], holes@.take(k as int), sizes@, g, i));
            }
        }
        k += 1;
    }
    assert(holes@.take(k as int) =~= holes@);
    table
}

/// Checks the slots' indices, failing at the first bad slot, and then that every
/// staff member works exactly `morning_count` mornings and `afternoon_count`
/// afternoons over the whole cycle.
pub struct AmPmChecker {
    pub morning_count: usize,
    pub afternoon_count: usize,
}

impl AmPmChecker {
    pub fn new(morning_count: usize, afternoon_count: usize) -> (r: Self)
        ensures
            r == (AmPmChecker { morning_count, afternoon_count }),
    {
        Self { morning_count, afternoon_count }
    }
}

impl CheckRule<(WeekRuleTable<Incomplete>, StaffGroupList)> for AmPmChecker {
    type Error = RuleErr;

    open spec fn passes(&self, data: (WeekRuleTable<Incomplete>, StaffGroupList)) -> bool {
        check_index_result(data) is Ok && all_balanced(
            table_holes(data.0.0@),
            data.1.sizes(),
            self.morning_count as nat,
            self.afternoon_count as nat,
        )
    }

    open spec fn reports(&self, data: (WeekRuleTable<Incomplete>, StaffGroupList), err: RuleErr) -> bool {
        match check_index_result(data) {
            Err(e) => reports_index_fault(e, err),
            Ok(()) => err.reason matches CauseOfRuleErr::AmPmErr(x) && lists_unbalanced(
                x.err_case@,
                table_holes(data.0.0@),
                data.1.sizes(),
                self.morning_count as nat,
                self.afternoon_count as nat,
            ),
        }
    }

    fn check_rule(&self, data: &(WeekRuleTable<Incomplete>, StaffGroupList)) -> (r: Result<(), RuleErr>) {
        match check_index(data) {
            Ok(()) => {},
            Err(e) => {
                proof {
                    lemma_first_some_found(table_holes(data.0.0@), range_fault_against(data.1.sizes()));
                }
                return Err(index_fault_to_rule_err(e));
            },
        }
        let ghost sizes = data.1.sizes();
        let ghost m = self.morning_count as nat;
        let ghost a = self.afternoon_count as nat;
        let check_list = group_sizes(&data.1);
        let holes = holes_iter(&data.0);
        let table = count_table(&holes, &check_list, Ghost(sizes));
        let ghost hs = holes@;
        let mut err_case: Vec<AmPmCounter> = Vec::new();
        let mut g: usize = 0;
        while g < table.len()
            invariant
                g <= table@.len(),
                table@.len() == sizes.len(),
                m == self.morning_count,
                a == self.afternoon_count,
                forall|j: int| 0 <= j < table@.len() ==> (#[trigger] table@[j])@.len() == sizes[j],
                forall|j: int, i: int| is_member(sizes, j, i) ==> #[trigger] counted(table@[j]@[i], hs, sizes, j, i),
                lists_unbalanced_below(err_case@, hs, sizes, m, a, g as int, 0),
            decreases table@.len() - g,
        {
            let row = &table[g];
            let mut i: usize = 0;
            while i < row.len()
                invariant
                    g < table@.len(),
                    *row == table@[g as int],
                    i <= row@.len(),
                    table@.len() == sizes.len(),
                    m == self.morning_count,
                    a == self.afternoon_count,
                    forall|j: int| 0 <= j < table@.len() ==> (#[trigger] table@[j])@.len() == sizes[j],
                    forall|j: int, i: int| is_member(sizes, j, i) ==> #[trigger] counted(table@[j]@[i], hs, sizes, j, i),
                    lists_unbalanced_below(err_case@, hs, sizes, m, a, g as int, i as int),
                decreases row@.len() - i,
            {
                let c = row[i];
                proof {
                    assert(counted(table@[g as int]@[i as int], hs, sizes, g as int, i as int));
                }
                if c.morning_count != self.morning_count || c.afternoon_count != self.afternoon_count {
                    let ghost before = err_case@;
                    err_case.push(c);
                    proof {
                        assert forall|j: int, i2: int|
                            is_member(sizes, j, i2) && !#[trigger] balanced(hs, sizes, j, i2, m, a) && (j < g || (j
                                == g && i2 < i + 1)) implies exists|k: int|
                            0 <= k < err_case@.len() && (#[trigger] err_case@[k]).group_id == j && err_case@[k].index
                                == i2 by {
                            if j == g && i2 == i {
                                assert(err_case@[before.len() as int] == c);
                            } else {
                                let k = choose|k: int|
                                    0 <= k < before.len() && (#[trigger] before[k]).group_id == j && before[k].index
                                        == i2;
                                assert(err_case@[k] == before[k]);
                            }
                        }
                    }
                }
                i += 1;
            }
            g += 1;
        }
        proof {
            if err_case@.len() == 0 {
                assert forall|j: int, i: int| is_member(sizes, j, i) implies #[trigger] balanced(hs, sizes, j, i, m, a) by {
                    if !balanced(hs, sizes, j, i, m, a) {
                        assert(j < g);
                    }
                }
            } else {
                let c = err_case@[0];
                assert(!balanced(hs, sizes, c.group_id as int, c.index as int, m, a));
            }
        }
        if err_case.len() == 0 {
            Ok(())
        } else {
            Err(RuleErr { reason: CauseOfRuleErr::AmPmErr(AmPmErr { err_case }) })
        }
    }
}

/// Once the slots' indices are in range, the balance check passes exactly when
/// every member works exactly the target numbers of mornings and afternoons; and
/// any member who works more or fewer of either is named in its report, with
/// the counts found.
pub proof fn lemma_balance_exactness(
    c: AmPmChecker,
    data: (WeekRuleTable<Incomplete>, StaffGroupList),
    err: RuleErr,
    g: int,
    i: int,
)
    requires
        check_index_result(data) is Ok,
    ensures
        ({
            let holes = table_holes(data.0.0@);
            let sizes = data.1.sizes();
            c.passes(data) <==> (forall|j: int, i2: int|
                is_member(sizes, j, i2) ==> #[trigger] count_refs(holes, sizes, j, i2, true) == c.morning_count
                    && count_refs(holes, sizes, j, i2, false) == c.afternoon_count)
        }),
        ({
            let holes = table_holes(data.0.0@);
            let sizes = data.1.sizes();
            c.reports(data, err) && is_member(sizes, g, i) && (count_refs(holes, sizes, g, i, true)
                != c.morning_count || count_refs(holes, sizes, g, i, false) != c.afternoon_count)
                ==> (err.reason matches CauseOfRuleErr::AmPmErr(x) && exists|k: int|
                0 <= k < x.err_case@.len() && #[trigger] x.err_case@[k] == (AmPmCounter {
                    group_id: g as usize,
                    index: i as usize,
                    morning_count: count_refs(holes, sizes, g, i, true) as usize,
                    afternoon_count: count_refs(holes, sizes, g, i, false) as usize,
                }))
        }),
{
    let holes = table_holes(data.0.0@);
    let sizes = data.1.sizes();
    let m = c.morning_count as nat;
    let a = c.afternoon_count as nat;
    if c.passes(data) {
        assert forall|j: int, i2: int| is_member(sizes, j, i2) implies #[trigger] count_refs(holes, sizes, j, i2, true)
            == c.morning_count && count_refs(holes, sizes, j, i2, false) == c.afternoon_count by {
            assert(balanced(holes, sizes, j, i2, m, a));
        }
    }
    if forall|j: int, i2: int|
        is_member(sizes, j, i2) ==> #[trigger] count_refs(holes, sizes, j, i2, true) == c.morning_count && count_refs(
            holes,
            sizes,
            j,
            i2,
            false,
        ) == c.afternoon_count {
        assert forall|j: int, i2: int| is_member(sizes, j, i2) implies #[trigger] balanced(holes, sizes, j, i2, m, a) by {
            assert(count_refs(holes, sizes, j, i2, true) == c.morning_count);
        }
        assert(all_balanced(holes, sizes, m, a));
        assert(c.passes(data));
    }
    assert(c.passes(data) <==> (forall|j: int, i2: int|
                is_member(sizes, j, i2) ==> #[trigger] count_refs(holes, sizes, j, i2, true) == c.morning_count
                    && count_refs(holes, sizes, j, i2, false) == c.afternoon_count));
    if c.reports(data, err) && is_member(sizes, g, i) && !balanced(holes, sizes, g, i, m, a) {
        let x = err.reason->AmPmErr_0;
        let k = choose|k: int|
            0 <= k < x.err_case@.len() && (#[trigger] x.err_case@[k]).group_id == g && x.err_case@[k].index == i;
        assert(counted(x.err_case@[k], holes, sizes, g, i));
        assert(x.err_case@[k] == (AmPmCounter {
            group_id: g as usize,
            index: i as usize,
            morning_count: count_refs(holes, sizes, g, i, true) as usize,
            afternoon_count: count_refs(holes, sizes, g, i, false) as usize,
        }));
    }
}

/// Hole `h` points at a member that some hole of `earlier` points at.
pub open spec fn repeats(earlier: Seq<Hole>, h: Hole, sizes: Seq<nat>) -> bool {
    &&& 0 <= h.group_id < sizes.len()
    &&& sizes[h.group_id as int] > 0
    &&& covered(earlier, sizes, h.group_id as int, h.id as int % sizes[h.group_id as int] as int)
}

/// The place of the first hole that points at a member an earlier hole points at.
pub open spec fn first_dup(holes: Seq<Hole>, sizes: Seq<nat>) -> Option<HollIndex>
    decreases holes.len(),
{
    if holes.len() == 0 {
        None
    } else {
        match first_dup(holes.drop_last(), sizes) {
            Some(at) => Some(at),
            None => if repeats(holes.drop_last(), holes.last(), sizes) {
                Some(holes.last().at)
            } else {
                None
            },
        }
    }
}

proof fn lemma_first_dup_stays(holes: Seq<Hole>, sizes: Seq<nat>, a: int)
    requires
        0 <= a <= holes.len(),
        first_dup(holes.take(a), sizes) is Some,
    ensures
        first_dup(holes, sizes) == first_dup(holes.take(a), sizes),
    decreases holes.len() - a,
{
    if a < holes.len() {
        assert(holes.take(a + 1).drop_last() =~= holes.take(a));
        lemma_first_dup_stays(holes, sizes, a + 1);
    } else {
        assert(holes.take(a) =~= holes);
    }
}

/// Checks the slots' indices, failing at the first bad slot, and then that no
/// two slots of the cycle point at the same member; the first slot that repeats
/// an earlier one is reported.
pub struct DupHollChecker();

impl CheckRule<(WeekRuleTable<Incomplete>, StaffGroupList)> for DupHollChecker {
    type Error = RuleErr;

    open spec fn passes(&self, data: (WeekRuleTable<Incomplete>, StaffGroupList)) -> bool {
        check_index_result(data) is Ok && first_dup(table_holes(data.0.0@), data.1.sizes()) is None
    }

    open spec fn reports(&self, data: (WeekRuleTable<Incomplete>, StaffGroupList), err: RuleErr) -> bool {
        match check_index_result(data) {
            Err(e) => reports_index_fault(e, err),
            Ok(()) => first_dup(table_holes(data.0.0@), data.1.sizes()) matches Some(at) && err.reason
                == CauseOfRuleErr::DupHollErr(at),
        }
    }

    fn check_rule(&self, data: &(WeekRuleTable<Incomplete>, StaffGroupList)) -> (r: Result<(), RuleErr>) {
        match check_index(data) {
            Ok(()) => {},
            Err(e) => {
                proof {
                    lemma_first_some_found(table_holes(data.0.0@), range_fault_against(data.1.sizes()));
                }
                return Err(index_fault_to_rule_err(e));
            },
        }
        let ghost sizes = data.1.sizes();
        let check_list = group_sizes(&data.1);
        let holes = holes_iter(&data.0);
        let mut table = empty_coverage_table(&check_list);
        let mut k: usize = 0;
        while k < holes.len()
            invariant
                k <= holes@.len(),
                holes@ == table_holes(data.0.0@),
                sizes == data.1.sizes(),
                check_list@.len() == sizes.len(),
                forall|g: int| 0 <= g < check_list@.len() ==> check_list@[g] == #[trigger] sizes[g],
                table@.len() == sizes.len(),
                forall|g: int| 0 <= g < table@.len() ==> (#[trigger] table@[g])@.len() == sizes[g],
                forall|g: int, i: int|
                    is_member(sizes, g, i) ==> table@[g]@[i] == #[trigger] covered(holes@.take(k as int), sizes, g, i),
                first_dup(holes@.take(k as int), sizes) is None,
                check_index_result(*data) is Ok,
            decreases holes@.len() - k,
        {
            let h = holes[k];
            proof {
                assert(holes@.take(k + 1).drop_last() =~= holes@.take(k as int));
                assert(holes@.take(k + 1).last() == h);
            }
            if h.group_id < check_list.len() && check_list[h.group_id] > 0 {
                let j = h.id % check_list[h.group_id];
                if table[h.group_id][j] {
                    proof {
                        assert(is_member(sizes, h.group_id as int, j as int));
                        assert(covered(holes@.take(k as int), sizes, h.group_id as int, j as int));
                        assert(first_dup(holes@.take(k + 1), sizes) == Some(h.at));
                        lemma_first_dup_stays(holes@, sizes, k + 1);
                    }
                    return Err(RuleErr { reason: CauseOfRuleErr::DupHollErr(h.at) });
                }
                table[h.group_id][j] = true;
            }
            proof {
                assert forall|g: int, i: int| is_member(sizes, g, i) implies table@[g]@[i] == #[trigger] covered(
                    holes@.take(k + 1),
                    sizes,
                    g,
                    i,
                ) by {
                    lemma_covered_step(holes@, sizes, k as int, g, i);
                }
            }
            k += 1;
        }
        proof {
            assert(holes@.take(k as int) =~= holes@);
        }
        Ok(())
    }
}

/// Any of the rules above, so that one list can hold rules of several kinds.
pub enum RosterRule {
    Basic(BasicChecker),
    AmPm(AmPmChecker),
    DupHoll(DupHollChecker),
}

impl CheckRule<(WeekRuleTable<Incomplete>, StaffGroupList)> for RosterRule {
    type Error = RuleErr;

    open spec fn passes(&self, data: (WeekRuleTable<Incomplete>, StaffGroupList)) -> bool {
        match self {
            RosterRule::Basic(c) => c.passes(data),
            RosterRule::AmPm(c) => c.passes(data),
            RosterRule::DupHoll(c) => c.passes(data),
        }
    }

    open spec fn reports(&self, data: (WeekRuleTable<Incomplete>, StaffGroupList), err: RuleErr) -> bool {
        match self {
            RosterRule::Basic(c) => c.reports(data, err),
            RosterRule::AmPm(c) => c.reports(data, err),
            RosterRule::DupHoll(c) => c.reports(data, err),
        }
    }

    fn check_rule(&self, data: &(WeekRuleTable<Incomplete>, StaffGroupList)) -> (r: Result<(), RuleErr>) {
        match self {
            RosterRule::Basic(c) => c.check_rule(data),
            RosterRule::AmPm(c) => c.check_rule(data),
            RosterRule::DupHoll(c) => c.check_rule(data),
        }
    }
}

/// A rule reports one thing only: two reports of one rule on the same data say
/// the same.
pub proof fn lemma_reports_unique(
    rule: RosterRule,
    data: (WeekRuleTable<Incomplete>, StaffGroupList),
    e1: RuleErr,
    e2: RuleErr,
)
    requires
        rule.reports(data, e1),
        rule.reports(data, e2),
    ensures
        e1@ == e2@,
{
    let holes = table_holes(data.0.0@);
    let sizes = data.1.sizes();
    if check_index_result(data) is Ok {
        match rule {
            RosterRule::Basic(_) => {
                let l1 = e1.reason->UnassignedStaffErr_0@;
                let l2 = e2.reason->UnassignedStaffErr_0@;
                let lt = |a: StaffIndex, b: StaffIndex| staff_index_lt(a, b);
                assert forall|k: int| 0 <= k < l1.len() implies l2.contains(#[trigger] l1[k]) by {
                    let x = l1[k];
                    assert(!covered(holes, sizes, x.group_id as int, x.index as int));
                    let m = choose|m: int|
                        0 <= m < l2.len() && #[trigger] l2[m] == (StaffIndex {
                            group_id: x.group_id as int as usize,
                            index: x.index as int as usize,
                        });
                    assert(l2[m] == x);
                }
                assert forall|k: int| 0 <= k < l2.len() implies l1.contains(#[trigger] l2[k]) by {
                    let x = l2[k];
                    assert(!covered(holes, sizes, x.group_id as int, x.index as int));
                    let m = choose|m: int|
                        0 <= m < l1.len() && #[trigger] l1[m] == (StaffIndex {
                            group_id: x.group_id as int as usize,
                            index: x.index as int as usize,
                        });
                    assert(l1[m] == x);
                }
                assert forall|a: int, b: int| 0 <= a < b < l1.len() implies #[trigger] lt(l1[a], l1[b]) by {
                    assert(staff_index_lt(l1[a], l1[b]));
                }
                assert forall|a: int, b: int| 0 <= a < b < l2.len() implies #[trigger] lt(l2[a], l2[b]) by {
                    assert(staff_index_lt(l2[a], l2[b]));
                }
                lemma_sorted_unique(l1, l2, lt);
            },
            RosterRule::AmPm(c) => {
                let m = c.morning_count as nat;
                let a = c.afternoon_count as nat;
                let l1 = e1.reason->AmPmErr_0.err_case@;
                let l2 = e2.reason->AmPmErr_0.err_case@;
                let lt = |x: AmPmCounter, y: AmPmCounter| counter_lt(x, y.group_id as int, y.index as int);
                assert forall|k: int| 0 <= k < l1.len() implies l2.contains(#[trigger] l1[k]) by {
                    let x = l1[k];
                    assert(!balanced(holes, sizes, x.group_id as int, x.index as int, m, a));
                    let q = choose|q: int|
                        0 <= q < l2.len() && (#[trigger] l2[q]).group_id == x.group_id as int && l2[q].index
                            == x.index as int;
                    assert(counted(l2[q], holes, sizes, x.group_id as int, x.index as int));
                    assert(l2[q] == x);
                }
                assert forall|k: int| 0 <= k < l2.len() implies l1.contains(#[trigger] l2[k]) by {
                    let x = l2[k];
                    assert(!balanced(holes, sizes, x.group_id as int, x.index as int, m, a));
                    let q = choose|q: int|
                        0 <= q < l1.len() && (#[trigger] l1[q]).group_id == x.group_id as int && l1[q].index
                            == x.index as int;
                    assert(counted(l1[q], holes, sizes, x.group_id as int, x.index as int));
                    assert(l1[q] == x);
                }
                assert forall|p: int, q: int| 0 <= p < q < l1.len() implies #[trigger] lt(l1[p], l1[q]) by {
                    assert(counter_lt(l1[p], l1[q].group_id as int, l1[q].index as int));
                }
                assert forall|p: int, q: int| 0 <= p < q < l2.len() implies #[trigger] lt(l2[p], l2[q]) by {
                    assert(counter_lt(l2[p], l2[q].group_id as int, l2[q].index as int));
                }
                lemma_sorted_unique(l1, l2, lt);
            },
            RosterRule::DupHoll(_) => {},
        }
    }
}

/// Checking is a function of its inputs: two failures that both meet the
/// contract of `verify` for the same data and rules carry the same report.
/// (Whether it passes, and that a pass hands back the data itself, that
/// contract states outright.)
pub proof fn lemma_verify_deterministic(
    data: (WeekRuleTable<Incomplete>, StaffGroupList),
    rules: Seq<RosterRule>,
    e1: RuleErr,
    e2: RuleErr,
)
    requires
        rejects_with(data, rules, e1),
        rejects_with(data, rules, e2),
    ensures
        e1@ == e2@,
{
    let i1 = choose|i: int| #[trigger] first_rejection(data, rules, i, e1);
    let i2 = choose|i: int| #[trigger] first_rejection(data, rules, i, e2);
    if i1 < i2 {
        assert(rules[i1].passes(data));
    } else if i2 < i1 {
        assert(rules[i2].passes(data));
    }
    lemma_reports_unique(rules[i1], data, e1, e2);
}

} // verus!
