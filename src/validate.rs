use error_combinator::check::{lift, Check, CheckState};
use error_combinator::cmberr::VecCombine;
use vstd::prelude::*;

use crate::holes::{holes_iter, table_holes, Hole, HollIndex};
use crate::seq_lemmas::{first_some, lemma_first_some_at, lemma_first_some_none};
use crate::shift_gen::{Incomplete, StaffGroupList, StaffIndex, Unconfirmed, WeekRuleTable};

verus! {

/// Why a cycle of templates does not fit its staff registry.
#[derive(Debug)]
pub enum ValidateErr {
    /// The slot at this place names a group that the registry does not have.
    GroupIdOutOfRangeErr(HollIndex),
    /// The slot at this place has a rotation key not below its group's size.
    StaffIdOutOfRangeErr(HollIndex),
    /// These members appear in no slot of the cycle.
    UnAssignedStaffErr(Vec<StaffIndex>),
}

/// The range fault of one hole against groups of the given sizes, if it has one.
pub open spec fn range_fault(h: Hole, sizes: Seq<nat>) -> Option<ValidateErr> {
    if h.group_id >= sizes.len() {
        Some(ValidateErr::GroupIdOutOfRangeErr(h.at))
    } else if h.id >= sizes[h.group_id as int] {
        Some(ValidateErr::StaffIdOutOfRangeErr(h.at))
    } else {
        None
    }
}

/// `range_fault` against fixed group sizes, as a function of the hole.
pub open spec fn range_fault_against(sizes: Seq<nat>) -> spec_fn(Hole) -> Option<ValidateErr> {
    |h: Hole| range_fault(h, sizes)
}

/// The range fault of the first hole that has one.
pub open spec fn first_range_fault(holes: Seq<Hole>, sizes: Seq<nat>) -> Option<ValidateErr> {
    first_some(holes, range_fault_against(sizes))
}

/// Member `i` of group `g` exists in groups of the given sizes.
pub open spec fn is_member(sizes: Seq<nat>, g: int, i: int) -> bool {
    0 <= g < sizes.len() && 0 <= i < sizes[g]
}

/// Hole `h` points at member `i` of group `g`: its group is `g`, which has members,
/// and its rotation key is `i` modulo the group's size.
pub open spec fn refers(h: Hole, sizes: Seq<nat>, g: int, i: int) -> bool {
    &&& h.group_id == g
    &&& 0 <= g < sizes.len()
    &&& sizes[g] > 0
    &&& h.id as int % sizes[g] as int == i
}

/// Some hole points at member `i` of group `g`.
pub open spec fn covered(holes: Seq<Hole>, sizes: Seq<nat>, g: int, i: int) -> bool {
    exists|k: int| 0 <= k < holes.len() && #[trigger] refers(holes[k], sizes, g, i)
}

/// `a` comes before `b`: by group, then by member.
pub open spec fn staff_index_lt(a: StaffIndex, b: StaffIndex) -> bool {
    a.group_id < b.group_id || (a.group_id == b.group_id && a.index < b.index)
}

/// `list` holds, in increasing order, exactly the members that no hole points at.
pub open spec fn lists_uncovered(list: Seq<StaffIndex>, holes: Seq<Hole>, sizes: Seq<nat>) -> bool {
    &&& forall|a: int, b: int| 0 <= a < b < list.len() ==> staff_index_lt(#[trigger] list[a], #[trigger] list[b])
    &&& forall|k: int|
        0 <= k < list.len() ==> is_member(sizes, (#[trigger] list[k]).group_id as int, list[k].index as int)
            && !covered(holes, sizes, list[k].group_id as int, list[k].index as int)
    &&& forall|g: int, i: int|
        is_member(sizes, g, i) && !#[trigger] covered(holes, sizes, g, i) ==> exists|k: int|
            0 <= k < list.len() && #[trigger] list[k] == (StaffIndex { group_id: g as usize, index: i as usize })
}

/// Every member of every group is pointed at by some hole.
pub open spec fn all_covered(holes: Seq<Hole>, sizes: Seq<nat>) -> bool {
    forall|g: int, i: int| is_member(sizes, g, i) ==> #[trigger] covered(holes, sizes, g, i)
}

/// The size of each group, as a vector.
pub(crate) fn group_sizes(staff_group_list: &StaffGroupList) -> (r: Vec<usize>)
    ensures
        r@.len() == staff_group_list.sizes().len(),
        forall|g: int| 0 <= g < r@.len() ==> r@[g] == #[trigger] staff_group_list.sizes()[g],
{
    let mut out: Vec<usize> = Vec::new();
    let mut g: usize = 0;
    while g < staff_group_list.0.len()
        invariant
            g <= staff_group_list.0@.len(),
            out@.len() == g,
            forall|j: int| 0 <= j < g ==> out@[j] == #[trigger] staff_group_list.sizes()[j],
        decreases staff_group_list.0@.len() - g,
    {
        out.push(staff_group_list.0[g].len());
        g += 1;
    }
    out
}

/// Checks one hole: its group exists and its rotation key is below the group's size.
fn fill_check_list(h: &Hole, check_list: &Vec<usize>, sizes: Ghost<Seq<nat>>) -> (r: Result<(), ValidateErr>)
    requires
        check_list@.len() == sizes@.len(),
        forall|g: int| 0 <= g < check_list@.len() ==> check_list@[g] == #[trigger] sizes@[g],
    ensures
        r == match range_fault(*h, sizes@) {
            Some(e) => Err(e),
            None => Ok::<(), ValidateErr>(()),
        },
{
    if h.group_id >= check_list.len() {
        return Err(ValidateErr::GroupIdOutOfRangeErr(h.at));
    }
    if h.id >= check_list[h.group_id] {
        return Err(ValidateErr::StaffIdOutOfRangeErr(h.at));
    }
    Ok(())
}

/// Checks that every slot names an existing group and a rotation key below that
/// group's size; the first slot that does not is reported.
pub fn check_index(data: &(WeekRuleTable<Incomplete>, StaffGroupList)) -> (r: Result<(), ValidateErr>)
    ensures
        r == check_index_result(*data),
{
    let ghost sizes = data.1.sizes();
    let check_list = group_sizes(&data.1);
    let holes = holes_iter(&data.0);
    let mut k: usize = 0;
    while k < holes.len()
        invariant
            k <= holes@.len(),
            holes@ == table_holes(data.0.0@),
            sizes == data.1.sizes(),
            check_list@.len() == sizes.len(),
            forall|g: int| 0 <= g < check_list@.len() ==> check_list@[g] == #[trigger] sizes[g],
            forall|j: int| 0 <= j < k ==> (#[trigger] range_fault_against(sizes)(holes@[j])) is None,
        decreases holes@.len() - k,
    {
        match fill_check_list(&holes[k], &check_list, Ghost(sizes)) {
            Ok(()) => {},
            Err(e) => {
                proof {
                    lemma_first_some_at(holes@, range_fault_against(sizes), k as int);
                }
                return Err(e);
            },
        }
        k += 1;
    }
    proof {
        lemma_first_some_none(holes@, range_fault_against(sizes));
    }
    Ok(())
}

pub(crate) proof fn lemma_covered_step(holes: Seq<Hole>, sizes: Seq<nat>, k: int, g: int, i: int)
    requires
        0 <= k < holes.len(),
    ensures
        covered(holes.take(k + 1), sizes, g, i) == (covered(holes.take(k), sizes, g, i) || refers(
            holes[k],
            sizes,
            g,
            i,
        )),
{
    let a = holes.take(k);
    let b = holes.take(k + 1);
    if covered(a, sizes, g, i) {
        let j = choose|j: int| 0 <= j < a.len() && #[trigger] refers(a[j], sizes, g, i);
        assert(b[j] == a[j]);
    }
    if refers(holes[k], sizes, g, i) {
        assert(b[k] == holes[k]);
    }
    if covered(b, sizes, g, i) {
        let j = choose|j: int| 0 <= j < b.len() && #[trigger] refers(b[j], sizes, g, i);
        if j < k {
            assert(a[j] == b[j]);
        }
    }
}

/// A vector of `n` copies of `false`.
fn falses(n: usize) -> (r: Vec<bool>)
    ensures
        r@ == Seq::new(n as nat, |_i: int| false),
{
    let mut out: Vec<bool> = Vec::new();
    let mut i: usize = 0;
    while i < n
        invariant
            i <= n,
            out@ =~= Seq::new(i as nat, |_i: int| false),
        decreases n - i,
    {
        out.push(false);
        i += 1;
    }
    out
}

/// A row of `false` per group, as long as the group.
pub(crate) fn empty_coverage_table(check_list: &Vec<usize>) -> (r: Vec<Vec<bool>>)
    ensures
        r@.len() == check_list@.len(),
        forall|g: int| 0 <= g < r@.len() ==> (#[trigger] r@[g])@ == Seq::new(check_list@[g] as nat, |_i: int| false),
{
    let mut table: Vec<Vec<bool>> = Vec::new();
    let mut g: usize = 0;
    while g < check_list.len()
        invariant
            g <= check_list@.len(),
            table@.len() == g,
            forall|j: int| 0 <= j < g ==> (#[trigger] table@[j])@ == Seq::new(check_list@[j] as nat, |_i: int| false),
        decreases check_list@.len() - g,
    {
        table.push(falses(check_list[g]));
        g += 1;
    }
    table
}

/// Marks in `table` the member that `h` points at, if it points at one.
pub(crate) fn fill_check_unassigned_staff(
    h: &Hole,
    check_list: &Vec<usize>,
    table: &mut Vec<Vec<bool>>,
    sizes: Ghost<Seq<nat>>,
)
    requires
        check_list@.len() == sizes@.len(),
        forall|g: int| 0 <= g < check_list@.len() ==> check_list@[g] == #[trigger] sizes@[g],
        old(table)@.len() == sizes@.len(),
        forall|g: int| 0 <= g < old(table)@.len() ==> (#[trigger] old(table)@[g])@.len() == sizes@[g],
    ensures
        final(table)@.len() == sizes@.len(),
        forall|g: int| 0 <= g < final(table)@.len() ==> (#[trigger] final(table)@[g])@.len() == sizes@[g],
        forall|g: int, i: int|
            is_member(sizes@, g, i) ==> #[trigger] final(table)@[g]@[i] == (old(table)@[g]@[i] || refers(
                *h,
                sizes@,
                g,
                i,
            )),
{
    if h.group_id < check_list.len() && check_list[h.group_id] > 0 {
        let j = h.id % check_list[h.group_id];
        table[h.group_id][j] = true;
    }
}

/// For each member of each group, whether some hole points at it.
fn coverage_table(holes: &Vec<Hole>, check_list: &Vec<usize>, sizes: Ghost<Seq<nat>>) -> (r: Vec<Vec<bool>>)
    requires
        check_list@.len() == sizes@.len(),
        forall|g: int| 0 <= g < check_list@.len() ==> check_list@[g] == #[trigger] sizes@[g],
    ensures
        r@.len() == sizes@.len(),
        forall|g: int| 0 <= g < r@.len() ==> (#[trigger] r@[g])@.len() == sizes@[g],
        forall|g: int, i: int| is_member(sizes@, g, i) ==> r@[g]@[i] == #[trigger] covered(holes@, sizes@, g, i),
{
    let mut table = empty_coverage_table(check_list);
    let mut k: usize = 0;
    while k < holes.len()
        invariant
            k <= holes@.len(),
            check_list@.len() == sizes@.len(),
            forall|g: int| 0 <= g < check_list@.len() ==> check_list@[g] == #[trigger] sizes@[g],
            table@.len() == sizes@.len(),
            forall|g: int| 0 <= g < table@.len() ==> (#[trigger] table@[g])@.len() == sizes@[g],
            forall|g: int, i: int|
                is_member(sizes@, g, i) ==> table@[g]@[i] == #[trigger] covered(holes@.take(k as int), sizes@, g, i),
        decreases holes@.len() - k,
    {
        fill_check_unassigned_staff(&holes[k], check_list, &mut table, sizes);
        proof {
            assert forall|g: int, i: int| is_member(sizes@, g, i) implies table@[g]@[i] == #[trigger] covered(
                holes@.take(k + 1),
                sizes@,
                g,
                i,
            ) by {
                lemma_covered_step(holes@, sizes@, k as int, g, i);
            }
        }
        k += 1;
    }
    assert(holes@.take(k as int) =~= holes@);
    table
}

/// Checks that every member of every group appears in some slot of the cycle; a
/// slot points at member `id mod n` of its group of `n` members. All members that
/// appear nowhere are reported, in order.
pub fn check_unassigned_staff(data: &(WeekRuleTable<Incomplete>, StaffGroupList)) -> (r: Result<(), ValidateErr>)
    ensures
        r is Ok <==> all_covered(table_holes(data.0.0@), data.1.sizes()),
        r matches Err(e) ==> e matches ValidateErr::UnAssignedStaffErr(list) && lists_uncovered(
            list@,
            table_holes(data.0.0@),
            data.1.sizes(),
        ),
{
    let ghost sizes = data.1.sizes();
    let check_list = group_sizes(&data.1);
    let holes = holes_iter(&data.0);
    let table = coverage_table(&holes, &check_list, Ghost(sizes));
    let ghost hs = holes@;
    let mut rlist: Vec<StaffIndex> = Vec::new();
    let mut g: usize = 0;
    while g < table.len()
        invariant
            g <= table@.len(),
            table@.len() == sizes.len(),
            forall|j: int| 0 <= j < table@.len() ==> (#[trigger] table@[j])@.len() == sizes[j],
            forall|j: int, i: int| is_member(sizes, j, i) ==> table@[j]@[i] == #[trigger] covered(hs, sizes, j, i),
            lists_uncovered_below(rlist@, hs, sizes, g as int, 0),
        decreases table@.len() - g,
    {
        let row = &table[g];
        let mut i: usize = 0;
        while i < row.len()
            invariant
                g < table@.len(),
                *row == table@[g as int],
                i <= row@.len(),
                table@.len() == sizes.len(),
                forall|j: int| 0 <= j < table@.len() ==> (#[trigger] table@[j])@.len() == sizes[j],
                forall|j: int, i: int| is_member(sizes, j, i) ==> table@[j]@[i] == #[trigger] covered(hs, sizes, j, i),
                lists_uncovered_below(rlist@, hs, sizes, g as int, i as int),
            decreases row@.len() - i,
        {
            if !row[i] {
                let ghost before = rlist@;
                let at = StaffIndex { group_id: g, index: i };
                rlist.push(at);
                proof {
                    assert(rlist@.last() == at);
                    assert forall|a: int| 0 <= a < rlist@.len() implies (#[trigger] rlist@[a]).group_id <= g
                        && (rlist@[a].group_id == g ==> rlist@[a].index <= i) by {
                        if a < before.len() {
                            assert(rlist@[a] == before[a]);
                        }
                    }
                    assert forall|j: int, i2: int|
                        is_member(sizes, j, i2) && !#[trigger] covered(hs, sizes, j, i2) && (j < g || (j == g
                            && i2 < i + 1)) implies exists|k: int|
                        0 <= k < rlist@.len() && #[trigger] rlist@[k] == (StaffIndex {
                            group_id: j as usize,
                            index: i2 as usize,
                        }) by {
                        if j == g && i2 == i {
                            assert(rlist@[before.len() as int] == at);
                        } else {
                            let k = choose|k: int|
                                0 <= k < before.len() && #[trigger] before[k] == (StaffIndex {
                                    group_id: j as usize,
                                    index: i2 as usize,
                                });
                            assert(rlist@[k] == before[k]);
                        }
                    }
                }
            }
            i += 1;
        }
        g += 1;
    }
    proof {
        if rlist@.len() == 0 {
            assert forall|j: int, i: int| is_member(sizes, j, i) implies #[trigger] covered(hs, sizes, j, i) by {
                if !covered(hs, sizes, j, i) {
                    assert(j < g);
                }
            }
        } else {
            let s = rlist@[0];
            assert(!covered(hs, sizes, s.group_id as int, s.index as int));
        }
    }
    if rlist.len() == 0 {
        Ok(())
    } else {
        Err(ValidateErr::UnAssignedStaffErr(rlist))
    }
}

/// `list` holds, in increasing order, exactly the uncovered members that come
/// before member `i` of group `g`.
pub open spec fn lists_uncovered_below(list: Seq<StaffIndex>, holes: Seq<Hole>, sizes: Seq<nat>, g: int, i: int) -> bool {
    &&& forall|a: int, b: int| 0 <= a < b < list.len() ==> staff_index_lt(#[trigger] list[a], #[trigger] list[b])
    &&& forall|k: int|
        0 <= k < list.len() ==> is_member(sizes, (#[trigger] list[k]).group_id as int, list[k].index as int)
            && !covered(holes, sizes, list[k].group_id as int, list[k].index as int)
            && staff_index_lt(list[k], StaffIndex { group_id: g as usize, index: i as usize })
    &&& forall|j: int, i2: int|
        is_member(sizes, j, i2) && !#[trigger] covered(holes, sizes, j, i2) && (j < g || (j == g && i2 < i)) ==> exists|k: int|
            0 <= k < list.len() && #[trigger] list[k] == (StaffIndex { group_id: j as usize, index: i2 as usize })
}

/// Phase marker: the slots' indices have been checked.
struct IndexChecked;

/// Phase marker: the coverage of the staff has been checked.
struct CoverageChecked;

/// Relies on error_combinator's `lift`, `Check::and` with `VecCombine` and
/// `CheckOutcome::to_result`: `and` runs the second check only when the first
/// passed, and `VecCombine` hands back the one failure as a one-element vector.
#[verifier::external_body]
fn combine_checks<'a>(data: &'a (WeekRuleTable<Incomplete>, StaffGroupList)) -> (r: Result<
    &'a (WeekRuleTable<Incomplete>, StaffGroupList),
    Vec<ValidateErr>,
>)
    ensures
        match check_index_result(*data) {
            Err(e) => r matches Err(v) && v@ == seq![e],
            Ok(()) => match r {
                Ok(d) => *d == *data && all_covered(table_holes(data.0.0@), data.1.sizes()),
                Err(v) => v@.len() == 1 && check_unassigned_staff_failed(*data, v@[0]),
            },
        },
{
    lift::<_, (WeekRuleTable<Incomplete>, StaffGroupList), Unconfirmed, IndexChecked, ValidateErr, _>(check_index)
        .and::<_, VecCombine<ValidateErr>>(
            lift::<_, (WeekRuleTable<Incomplete>, StaffGroupList), IndexChecked, CoverageChecked, ValidateErr, _>(
                check_unassigned_staff,
            ),
        )
        .check(CheckState::new(data))
        .to_result()
}

/// What `check_index` returns on `data`.
pub open spec fn check_index_result(data: (WeekRuleTable<Incomplete>, StaffGroupList)) -> Result<(), ValidateErr> {
    match first_range_fault(table_holes(data.0.0@), data.1.sizes()) {
        Some(e) => Err(e),
        None => Ok(()),
    }
}

/// `e` is what `check_unassigned_staff` reports on `data` when some member is in no slot.
pub open spec fn check_unassigned_staff_failed(data: (WeekRuleTable<Incomplete>, StaffGroupList), e: ValidateErr) -> bool {
    &&& !all_covered(table_holes(data.0.0@), data.1.sizes())
    &&& e matches ValidateErr::UnAssignedStaffErr(list) && lists_uncovered(
        list@,
        table_holes(data.0.0@),
        data.1.sizes(),
    )
}

/// Runs the index check and then, if it passed, the coverage check; hands the
/// data back when both pass, else the failure, alone in a vector.
pub fn checker(data: (WeekRuleTable<Incomplete>, StaffGroupList)) -> (r: Result<
    (WeekRuleTable<Incomplete>, StaffGroupList),
    Vec<ValidateErr>,
>)
    ensures
        match check_index_result(data) {
            Err(e) => r matches Err(v) && v@ == seq![e],
            Ok(()) => if all_covered(table_holes(data.0.0@), data.1.sizes()) {
                r == Ok::<(WeekRuleTable<Incomplete>, StaffGroupList), Vec<ValidateErr>>(data)
            } else {
                r matches Err(v) && v@.len() == 1 && check_unassigned_staff_failed(data, v@[0])
            },
        },
{
    match combine_checks(&data) {
        Ok(_) => Ok(data),
        Err(e) => Err(e),
    }
}

/// A cycle with a slot that names a group the registry does not have is always
/// rejected by the index check, and that slot cannot be assigned either.
pub proof fn lemma_range_rejection(data: (WeekRuleTable<Incomplete>, StaffGroupList), k: int)
    requires
        0 <= k < table_holes(data.0.0@).len(),
        table_holes(data.0.0@)[k].group_id >= data.1.sizes().len(),
    ensures
        check_index_result(data) is Err,
        ({
            let h = table_holes(data.0.0@)[k];
            crate::shift_gen::slot_fault(
                crate::shift_gen::SlotView { group_id: h.group_id, id: h.id, staff: None },
                data.1.sizes(),
            ) == Some(crate::shift_gen::AssignErr::GroupIdOutOfRange(h.group_id))
        }),
{
    let holes = table_holes(data.0.0@);
    let f = range_fault_against(data.1.sizes());
    assert(f(holes[k]) is Some);
    lemma_first_some_none(holes, f);
}

/// When every member of every group appears in some slot, the coverage check
/// passes; when one member appears nowhere, the check fails and its list names
/// that member, and names nothing else when all other members appear.
pub proof fn lemma_coverage_completeness(
    holes: Seq<Hole>,
    sizes: Seq<nat>,
    list: Seq<StaffIndex>,
    g: int,
    i: int,
)
    requires
        lists_uncovered(list, holes, sizes),
    ensures
        is_member(sizes, g, i) && !covered(holes, sizes, g, i) ==> !all_covered(holes, sizes) && list.contains(
            StaffIndex { group_id: g as usize, index: i as usize },
        ),
        is_member(sizes, g, i) && !covered(holes, sizes, g, i) && (forall|j: int, i2: int|
            is_member(sizes, j, i2) && (j, i2) != (g, i) ==> #[trigger] covered(holes, sizes, j, i2)) ==> list
            == seq![StaffIndex { group_id: g as usize, index: i as usize }],
{
    let at = StaffIndex { group_id: g as usize, index: i as usize };
    if is_member(sizes, g, i) && !covered(holes, sizes, g, i) {
        let k = choose|k: int| 0 <= k < list.len() && #[trigger] list[k] == at;
        assert(list[k] == at);
        if forall|j: int, i2: int| is_member(sizes, j, i2) && (j, i2) != (g, i) ==> #[trigger] covered(holes, sizes, j, i2) {
            assert forall|a: int| 0 <= a < list.len() implies #[trigger] list[a] == at by {
                let x = list[a];
                assert(!covered(holes, sizes, x.group_id as int, x.index as int));
                if (x.group_id as int, x.index as int) != (g, i) {
                    assert(covered(holes, sizes, x.group_id as int, x.index as int));
                }
            }
            if list.len() > 1 {
                assert(staff_index_lt(list[0], list[1]));
            }
            assert(list =~= seq![at]);
        }
    }
}

} // verus!
