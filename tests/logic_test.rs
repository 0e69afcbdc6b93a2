use shift_calendar::holes::{HollIndex, TimeKind};
use shift_calendar::rule_checker::{
    verify, AmPmChecker, BasicChecker, CauseOfRuleErr, CheckRule, DupHollChecker, RosterRule, RuleErr,
};
use shift_calendar::shift_gen::{
    gen_shift, AssignErr, DayRule, Incomplete, ShiftHall, StaffGroup, StaffGroupList, StaffIndex, WeekRule,
    WeekRuleTable,
};
use shift_calendar::validate::{check_index, check_unassigned_staff, checker, ValidateErr};

/// A slot of group `a` (0), `b` (1) or `c` (2, which the registry lacks).
fn h(kind: char, id: usize) -> ShiftHall<Incomplete> {
    match kind {
        'a' => ShiftHall::new(0, id),
        'b' => ShiftHall::new(1, id),
        'c' => ShiftHall::new(2, id),
        _ => panic!("unknown group"),
    }
}

fn day(morning: &[(char, usize)], afternoon: &[(char, usize)]) -> DayRule<Incomplete> {
    DayRule {
        shift_morning: morning.iter().map(|&(k, i)| h(k, i)).collect(),
        shift_afternoon: afternoon.iter().map(|&(k, i)| h(k, i)).collect(),
    }
}

fn empty_day() -> DayRule<Incomplete> {
    day(&[], &[])
}

fn group(prefix: &str, n: usize) -> StaffGroup {
    let mut g = StaffGroup::new();
    for i in 0..n {
        g.add_staff(&format!("{}{}", prefix, i));
    }
    g
}

fn registry() -> StaffGroupList {
    StaffGroupList(vec![group("a", 6), group("b", 6)])
}

fn week_rule0() -> WeekRule<Incomplete> {
    WeekRule([
        day(&[('a', 0), ('b', 0)], &[('b', 1)]),
        day(&[], &[('a', 1)]),
        empty_day(),
        day(&[('b', 4)], &[]),
        day(&[('b', 5), ('b', 2)], &[('a', 3), ('b', 3), ('a', 2)]),
        empty_day(),
        empty_day(),
    ])
}

fn week_rule1() -> WeekRule<Incomplete> {
    WeekRule([
        day(&[('a', 2), ('b', 3)], &[('b', 2)]),
        day(&[], &[('b', 4)]),
        empty_day(),
        day(&[('a', 1)], &[]),
        day(&[('b', 1), ('b', 3)], &[('b', 5), ('a', 0), ('b', 0)]),
        empty_day(),
        empty_day(),
    ])
}

fn at(week: usize, day: usize, kind: TimeKind) -> HollIndex {
    HollIndex { week_rule_index: week, day_rule: day, time_kind: kind }
}

fn si(group_id: usize, index: usize) -> StaffIndex {
    StaffIndex { group_id, index }
}

#[test]
fn it_works00() {
    let data = (WeekRuleTable(vec![week_rule0(), week_rule1()]), registry());
    let rules = [RosterRule::Basic(BasicChecker())];
    match verify(&data, &rules) {
        Ok(_) => panic!("a4 and a5 appear in no slot"),
        Err(RuleErr { reason: CauseOfRuleErr::UnassignedStaffErr(list) }) => {
            assert_eq!(list, vec![si(0, 4), si(0, 5)]);
        }
        Err(e) => panic!("unexpected error {:?}", e),
    }
    let shift = gen_shift(&data.0, &data.1, 25, 5).unwrap();
    assert_eq!(shift.len(), 5);
}

#[test]
fn it_works01() {
    // the second week has a slot of a group that the registry lacks
    let week_rule0 = WeekRule([
        day(&[('a', 0), ('b', 0)], &[('b', 1)]),
        day(&[], &[('a', 1)]),
        empty_day(),
        day(&[('a', 1)], &[]),
        day(&[('b', 5), ('b', 2)], &[('a', 3), ('b', 3), ('a', 2)]),
        empty_day(),
        empty_day(),
    ]);
    let week_rule1 = WeekRule([
        day(&[('a', 2), ('b', 3)], &[('b', 2)]),
        day(&[], &[('b', 4)]),
        empty_day(),
        day(&[('b', 4)], &[('c', 0)]),
        day(&[('b', 1), ('b', 3)], &[('b', 5), ('a', 0), ('b', 0)]),
        empty_day(),
        empty_day(),
    ]);
    let data = (WeekRuleTable(vec![week_rule0, week_rule1]), registry());
    match BasicChecker().check_rule(&data) {
        Err(RuleErr { reason: CauseOfRuleErr::GroupIdOutOfRangeErr(place) }) => {
            assert_eq!(place, at(1, 3, TimeKind::AfternoonIndex(0)));
        }
        other => panic!("unexpected result {:?}", other),
    }
    assert_eq!(gen_shift(&data.0, &data.1, 25, 5).err(), Some(AssignErr::GroupIdOutOfRange(2)));
}

#[test]
fn concrete_scenario_week_25() {
    let table = WeekRuleTable(vec![week_rule0(), week_rule1()]);
    let list = registry();
    let shift = gen_shift(&table, &list, 25, 5).unwrap();
    assert_eq!(shift.len(), 5);
    // week 25 uses template 1 at offset 12
    let fri = &shift[0].0[4];
    assert_eq!(fri.shift_afternoon, vec![si(1, 5), si(0, 0), si(1, 0)]);
    assert_eq!(shift[0].0[0].shift_morning, vec![si(0, 2), si(1, 3)]);
    let a0 = list.get_staff(fri.shift_afternoon[1]).unwrap();
    assert_eq!(a0.name, "a0");
    assert_eq!(a0.get_id(), 0);
    // week 26 uses template 0 at offset 13
    assert_eq!(shift[1].0[0].shift_morning, vec![si(0, 1), si(1, 1)]);
    assert_eq!(shift[1].0[0].shift_afternoon, vec![si(1, 2)]);
}

#[test]
fn rotation_formula_wraps_in_group() {
    let list = StaffGroupList(vec![group("a", 6), group("b", 4)]);
    let slot = ShiftHall::new(1, 3);
    let ready = slot.set_self_from_staff_list(&list, 7).unwrap();
    assert_eq!(ready.gen_decided(), Some(si(1, 2)));
    let ready = slot.set_self_from_staff_list(&list, usize::MAX).unwrap();
    // (usize::MAX + 3) mod 4 == (3 + 3) mod 4
    assert_eq!(ready.gen_decided(), Some(si(1, 2)));
    assert_eq!(ready.group_id(), 1);
    assert_eq!(ready.id(), 3);
}

#[test]
fn assignment_rejects_missing_and_empty_groups() {
    let list = StaffGroupList(vec![group("a", 2), StaffGroup::new()]);
    assert_eq!(
        ShiftHall::new(2, 0).set_self_from_staff_list(&list, 0).err(),
        Some(AssignErr::GroupIdOutOfRange(2))
    );
    assert_eq!(ShiftHall::new(1, 0).set_self_from_staff_list(&list, 0).err(), Some(AssignErr::EmptyGroup(1)));
}

#[test]
fn cycle_periodicity_shifts_members() {
    let table = WeekRuleTable(vec![week_rule0(), week_rule1()]);
    let list = registry();
    let first = gen_shift(&table, &list, 3, 4).unwrap();
    // three whole cycles later
    let later = gen_shift(&table, &list, 3 + 3 * 2, 4).unwrap();
    for i in 0..4 {
        for d in 0..7 {
            let (x, y) = (&first[i].0[d], &later[i].0[d]);
            assert_eq!(x.shift_morning.len(), y.shift_morning.len());
            for (p, q) in x.shift_morning.iter().zip(y.shift_morning.iter()) {
                assert_eq!(p.group_id, q.group_id);
                assert_eq!(q.index, (p.index + 3) % 6);
            }
            for (p, q) in x.shift_afternoon.iter().zip(y.shift_afternoon.iter()) {
                assert_eq!(q.index, (p.index + 3) % 6);
            }
        }
    }
}

#[test]
fn generation_is_deterministic() {
    let table = WeekRuleTable(vec![week_rule0(), week_rule1()]);
    let list = registry();
    let a = gen_shift(&table, &list, 10, 6).unwrap();
    let b = gen_shift(&table, &list, 10, 6).unwrap();
    for i in 0..6 {
        for d in 0..7 {
            assert_eq!(a[i].0[d].shift_morning, b[i].0[d].shift_morning);
            assert_eq!(a[i].0[d].shift_afternoon, b[i].0[d].shift_afternoon);
        }
    }
}

#[test]
fn empty_morning_gives_empty_list() {
    let table = WeekRuleTable(vec![week_rule0()]);
    let shift = gen_shift(&table, &registry(), 0, 1).unwrap();
    let tue = &shift[0].0[1];
    assert!(tue.shift_morning.is_empty());
    assert_eq!(tue.shift_afternoon, vec![si(0, 1)]);
    assert!(shift[0].0[2].shift_afternoon.is_empty());
}

#[test]
fn zero_weeks_generates_nothing() {
    let table = WeekRuleTable(vec![week_rule0()]);
    let shift = gen_shift(&table, &registry(), 4, 0).unwrap();
    assert!(shift.is_empty());
}

#[test]
fn range_check_reports_first_bad_slot() {
    let mut w = week_rule0();
    w.0[2] = day(&[('a', 6)], &[('c', 0)]);
    let data = (WeekRuleTable(vec![w]), registry());
    match check_index(&data) {
        Err(ValidateErr::StaffIdOutOfRangeErr(place)) => {
            assert_eq!(place, at(0, 2, TimeKind::MorningIndex(0)));
        }
        other => panic!("unexpected result {:?}", other),
    }
    let mut w = week_rule0();
    w.0[6] = day(&[], &[('b', 0), ('c', 1)]);
    let data = (WeekRuleTable(vec![week_rule1(), w]), registry());
    match check_index(&data) {
        Err(ValidateErr::GroupIdOutOfRangeErr(place)) => {
            assert_eq!(place, at(1, 6, TimeKind::AfternoonIndex(1)));
        }
        other => panic!("unexpected result {:?}", other),
    }
}

#[test]
fn coverage_passes_when_all_appear() {
    let mut w = week_rule1();
    w.0[5] = day(&[('a', 4)], &[('a', 5), ('a', 3)]);
    let data = (WeekRuleTable(vec![week_rule0(), w]), registry());
    assert!(check_unassigned_staff(&data).is_ok());
    assert!(BasicChecker().check_rule(&data).is_ok());
    assert!(checker(data).is_ok());
}

#[test]
fn coverage_names_the_one_missing_member() {
    let mut w = week_rule1();
    w.0[5] = day(&[('a', 4)], &[]);
    let data = (WeekRuleTable(vec![week_rule0(), w]), registry());
    match check_unassigned_staff(&data) {
        Err(ValidateErr::UnAssignedStaffErr(list)) => assert_eq!(list, vec![si(0, 5)]),
        other => panic!("unexpected result {:?}", other),
    }
}

#[test]
fn coverage_counts_keys_modulo_group_size() {
    // key 7 in a group of 6 points at member 1
    let w = WeekRule([
        day(&[('a', 0), ('a', 7)], &[('a', 2), ('a', 3), ('a', 4), ('a', 5)]),
        empty_day(),
        empty_day(),
        empty_day(),
        empty_day(),
        empty_day(),
        empty_day(),
    ]);
    let data = (WeekRuleTable(vec![w]), StaffGroupList(vec![group("a", 6)]));
    assert!(check_unassigned_staff(&data).is_ok());
}

#[test]
fn checker_stops_at_index_fault() {
    let mut w = week_rule0();
    w.0[0] = day(&[('c', 0)], &[]);
    let data = (WeekRuleTable(vec![w]), registry());
    match checker(data) {
        Err(errs) => {
            assert_eq!(errs.len(), 1);
            assert!(matches!(errs[0], ValidateErr::GroupIdOutOfRangeErr(_)));
        }
        Ok(_) => panic!("group 2 does not exist"),
    }
}

#[test]
fn checker_reports_uncovered_members() {
    let data = (WeekRuleTable(vec![week_rule0(), week_rule1()]), registry());
    match checker(data) {
        Err(errs) => {
            assert_eq!(errs.len(), 1);
            match &errs[0] {
                ValidateErr::UnAssignedStaffErr(list) => assert_eq!(list, &vec![si(0, 4), si(0, 5)]),
                other => panic!("unexpected error {:?}", other),
            }
        }
        Ok(_) => panic!("a4 and a5 appear in no slot"),
    }
}

/// Each of the two members of each group works one morning and one afternoon.
fn balanced_week() -> WeekRule<Incomplete> {
    WeekRule([
        day(&[('a', 0), ('b', 1)], &[('a', 1), ('b', 0)]),
        day(&[('a', 1), ('b', 0)], &[('a', 0), ('b', 1)]),
        empty_day(),
        empty_day(),
        empty_day(),
        empty_day(),
        empty_day(),
    ])
}

#[test]
fn balance_passes_on_exact_counts() {
    let data = (WeekRuleTable(vec![balanced_week()]), StaffGroupList(vec![group("a", 2), group("b", 2)]));
    assert!(AmPmChecker::new(1, 1).check_rule(&data).is_ok());
}

#[test]
fn balance_names_members_above_and_below() {
    let mut w = balanced_week();
    // a0 gets a second morning, a1 loses its afternoon
    w.0[0] = day(&[('a', 0), ('b', 1)], &[('a', 0), ('b', 0)]);
    let data = (WeekRuleTable(vec![w]), StaffGroupList(vec![group("a", 2), group("b", 2)]));
    match AmPmChecker::new(1, 1).check_rule(&data) {
        Err(RuleErr { reason: CauseOfRuleErr::AmPmErr(e) }) => {
            assert_eq!(e.err_case.len(), 2);
            assert_eq!((e.err_case[0].group_id, e.err_case[0].index), (0, 0));
            assert_eq!((e.err_case[0].morning_count, e.err_case[0].afternoon_count), (1, 2));
            assert_eq!((e.err_case[1].group_id, e.err_case[1].index), (0, 1));
            assert_eq!((e.err_case[1].morning_count, e.err_case[1].afternoon_count), (1, 0));
        }
        other => panic!("unexpected result {:?}", other),
    }
}

#[test]
fn duplicate_checker_finds_repeat() {
    let data = (WeekRuleTable(vec![balanced_week()]), StaffGroupList(vec![group("a", 2), group("b", 2)]));
    match DupHollChecker().check_rule(&data) {
        Err(RuleErr { reason: CauseOfRuleErr::DupHollErr(place) }) => {
            assert_eq!(place, at(0, 1, TimeKind::MorningIndex(0)));
        }
        other => panic!("unexpected result {:?}", other),
    }
    let single = WeekRule([
        day(&[('a', 0)], &[('a', 1)]),
        empty_day(),
        empty_day(),
        empty_day(),
        empty_day(),
        empty_day(),
        empty_day(),
    ]);
    let data = (WeekRuleTable(vec![single]), StaffGroupList(vec![group("a", 2)]));
    assert!(DupHollChecker().check_rule(&data).is_ok());
}

#[test]
fn verify_stops_at_first_failing_rule() {
    let data = (WeekRuleTable(vec![balanced_week()]), StaffGroupList(vec![group("a", 2), group("b", 2)]));
    let rules = [
        RosterRule::Basic(BasicChecker()),
        RosterRule::AmPm(AmPmChecker::new(1, 1)),
        RosterRule::DupHoll(DupHollChecker()),
        RosterRule::AmPm(AmPmChecker::new(2, 0)),
    ];
    match verify(&data, &rules) {
        Err(RuleErr { reason: CauseOfRuleErr::DupHollErr(_) }) => {}
        other => panic!("unexpected result {:?}", other.err()),
    }
    let passing = [RosterRule::Basic(BasicChecker()), RosterRule::AmPm(AmPmChecker::new(1, 1))];
    let checked = verify(&data, &passing).unwrap();
    assert_eq!(checked.0 .0.len(), 1);
    let none: [RosterRule; 0] = [];
    assert!(verify(&data, &none).is_ok());
}

#[test]
fn staff_registry_builds_in_order() {
    let g = group("x", 3);
    assert_eq!(g.len(), 3);
    assert_eq!(g.pickup_staff(2).name, "x2");
    assert_eq!(g.pickup_staff(2).get_id(), 2);
    let s = shift_calendar::Staff::new("solo");
    assert_eq!(s.get_id(), 0);
    assert_eq!(s.name, "solo");
    let list = StaffGroupList(vec![g]);
    assert!(list.get_staff(si(0, 3)).is_none());
    assert!(list.get_staff(si(1, 0)).is_none());
}
