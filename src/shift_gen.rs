use std::marker::PhantomData;
use vstd::prelude::*;

use crate::seq_lemmas::{first_some, lemma_first_some_at, lemma_first_some_concat, lemma_first_some_none};

verus! {

// ========= staff =========

/// What a staff member holds: a name and the member's place in its group.
pub struct StaffView {
    pub name: Seq<char>,
    pub id: usize,
}

/// A staff member.
#[derive(Debug)]
pub struct Staff {
    pub name: String,
    id: usize,
}

impl View for Staff {
    type V = StaffView;

    closed spec fn view(&self) -> StaffView {
        StaffView { name: self.name@, id: self.id }
    }
}

impl Staff {
    /// A member that belongs to no group yet: its id is 0.
    pub fn new(name: &str) -> (r: Self)
        ensures
            r@ == (StaffView { name: name@, id: 0 }),
    {
        Staff { name: name.to_owned(), id: 0 }
    }

    pub fn get_id(&self) -> (r: usize)
        ensures
            r == self@.id,
    {
        self.id
    }
}

/// An ordered group of staff members; `add_staff` gives each its place as id.
pub struct StaffGroup {
    staff_list: Vec<Staff>,
}

impl View for StaffGroup {
    type V = Seq<StaffView>;

    closed spec fn view(&self) -> Seq<StaffView> {
        self.staff_list@.map_values(|s: Staff| s@)
    }
}

impl StaffGroup {
    pub fn new() -> (r: Self)
        ensures
            r@ == Seq::<StaffView>::empty(),
    {
        StaffGroup { staff_list: Vec::new() }
    }

    /// Appends a member named `name`; its id is its place in the group.
    pub fn add_staff(&mut self, name: &str)
        requires
            old(self)@.len() < usize::MAX,
        ensures
            final(self)@ == old(self)@.push(StaffView { name: name@, id: old(self)@.len() as usize }),
    {
        let id = self.staff_list.len();
        self.staff_list.push(Staff { name: name.to_owned(), id });
        assert(self@ =~= old(self)@.push(StaffView { name: name@, id: id }));
    }

    pub fn len(&self) -> (r: usize)
        ensures
            r == self@.len(),
    {
        self.staff_list.len()
    }

    /// The member at `index`.
    pub fn pickup_staff(&self, index: usize) -> (r: &Staff)
        requires
            index < self@.len(),
        ensures
            r@ == self@[index as int],
    {
        &self.staff_list[index]
    }
}

/// The staff registry: groups in order, indexed by group id.
pub struct StaffGroupList(pub Vec<StaffGroup>);

impl StaffGroupList {
    /// The number of members of each group, in group order.
    pub open spec fn sizes(&self) -> Seq<nat> {
        self.0@.map_values(|g: StaffGroup| g@.len())
    }

    /// The member that `at` points to, if there is one.
    pub fn get_staff(&self, at: StaffIndex) -> (r: Option<&Staff>)
        ensures
            r is Some <==> at.group_id < self.0@.len() && at.index < self.0@[at.group_id as int]@.len(),
            r matches Some(s) ==> s@ == self.0@[at.group_id as int]@[at.index as int],
    {
        if at.group_id < self.0.len() && at.index < self.0[at.group_id].len() {
            Some(self.0[at.group_id].pickup_staff(at.index))
        } else {
            None
        }
    }
}

// ========= slots =========

/// Phase marker: a slot of a template, not yet given a staff member.
pub struct Incomplete;

/// Phase marker: a slot that has been given a staff member.
pub struct Ready;

/// Phase marker: a template that no rule checker has looked at yet.
pub struct Unconfirmed;

/// Where a decided slot points: member `index` of group `group_id`.
#[derive(Clone, Copy, Debug, PartialEq, Eq, Structural)]
pub struct StaffIndex {
    pub group_id: usize,
    pub index: usize,
}

/// Why a slot cannot be given a staff member.
#[derive(Clone, Copy, Debug, PartialEq, Eq, Structural)]
pub enum AssignErr {
    /// The slot names a group that the registry does not have.
    GroupIdOutOfRange(usize),
    /// The slot names a group with no members.
    EmptyGroup(usize),
}

/// What a slot holds: its group, its rotation key, and the member it was given.
pub struct SlotView {
    pub group_id: usize,
    pub id: usize,
    pub staff: Option<StaffIndex>,
}

/// One shift slot: a staff group and a rotation key inside that group.
///
/// The phase parameter tells a template slot (`Incomplete`) from a decided one
/// (`Ready`); only the assignment step turns the first into the second.
pub struct ShiftHall<State> {
    group_id: usize,
    id: usize,
    staff: Option<StaffIndex>,
    _state: PhantomData<State>,
}

impl<State> View for ShiftHall<State> {
    type V = SlotView;

    closed spec fn view(&self) -> SlotView {
        SlotView { group_id: self.group_id, id: self.id, staff: self.staff }
    }
}

/// The member index that rotation key `id` selects in a group of `n` members
/// at rotation offset `delta`.
pub open spec fn rotation_index(delta: int, id: int, n: int) -> int {
    (delta + id) % n
}

/// Why slot `s` cannot be assigned against groups of the given sizes, if it cannot.
pub open spec fn slot_fault(s: SlotView, sizes: Seq<nat>) -> Option<AssignErr> {
    if s.group_id >= sizes.len() {
        Some(AssignErr::GroupIdOutOfRange(s.group_id))
    } else if sizes[s.group_id as int] == 0 {
        Some(AssignErr::EmptyGroup(s.group_id))
    } else {
        None
    }
}

/// The member that slot `s` is given at rotation offset `delta`.
pub open spec fn assigned_index(s: SlotView, sizes: Seq<nat>, delta: nat) -> StaffIndex {
    StaffIndex {
        group_id: s.group_id,
        index: rotation_index(delta as int, s.id as int, sizes[s.group_id as int] as int) as usize,
    }
}

impl<State> ShiftHall<State> {
    pub fn group_id(&self) -> (r: usize)
        ensures
            r == self@.group_id,
    {
        self.group_id
    }

    pub fn id(&self) -> (r: usize)
        ensures
            r == self@.id,
    {
        self.id
    }
}

impl ShiftHall<Incomplete> {
    pub fn new(group_id: usize, id: usize) -> (r: Self)
        ensures
            r@ == (SlotView { group_id, id, staff: None }),
    {
        ShiftHall { group_id, id, staff: None, _state: PhantomData }
    }

    /// Gives this slot the member `(delta + id) mod n` of its group of `n` members.
    pub fn set_self_from_staff_list(&self, staff_group_list: &StaffGroupList, delta: usize) -> (r:
        Result<ShiftHall<Ready>, AssignErr>)
        ensures
            match slot_fault(self@, staff_group_list.sizes()) {
                Some(e) => r == Err::<ShiftHall<Ready>, AssignErr>(e),
                None => r matches Ok(h) && h@ == (SlotView {
                    staff: Some(assigned_index(self@, staff_group_list.sizes(), delta as nat)),
                    ..self@
                }),
            },
    {
        if self.group_id >= staff_group_list.0.len() {
            return Err(AssignErr::GroupIdOutOfRange(self.group_id));
        }
        let n = staff_group_list.0[self.group_id].len();
        if n == 0 {
            return Err(AssignErr::EmptyGroup(self.group_id));
        }
        let a = delta % n;
        let b = self.id % n;
        // a + b may not fit in usize; wrap it by hand
        let index = if a >= n - b {
            a - (n - b)
        } else {
            a + b
        };
        proof {
            vstd::arithmetic::div_mod::lemma_add_mod_noop(delta as int, self.id as int, n as int);
            if a >= n - b {
                vstd::arithmetic::div_mod::lemma_mod_add_multiples_vanish(index as int, n as int);
                vstd::arithmetic::div_mod::lemma_small_mod(index as nat, n as nat);
            } else {
                vstd::arithmetic::div_mod::lemma_small_mod(index as nat, n as nat);
            }
        }
        Ok(ShiftHall {
            group_id: self.group_id,
            id: self.id,
            staff: Some(StaffIndex { group_id: self.group_id, index }),
            _state: PhantomData,
        })
    }
}

impl ShiftHall<Ready> {
    /// The member this slot was given.
    pub fn gen_decided(&self) -> (r: Option<StaffIndex>)
        ensures
            r == self@.staff,
    {
        self.staff
    }
}

// ========= days and weeks =========

/// The morning and afternoon slots of one day.
pub struct DayRule<State> {
    pub shift_morning: Vec<ShiftHall<State>>,
    pub shift_afternoon: Vec<ShiftHall<State>>,
}

/// Who works one day: the members given to the morning and afternoon slots, in slot order.
#[derive(Debug, Clone)]
pub struct DayDecidedShift {
    pub shift_morning: Vec<StaffIndex>,
    pub shift_afternoon: Vec<StaffIndex>,
}

/// Seven day rules, one per day of the week.
pub struct WeekRule<State>(pub [DayRule<State>; 7]);

/// Who works each of the seven days of one week.
pub struct WeekDecidedShift(pub [DayDecidedShift; 7]);

/// The cycle of week templates; week `w` uses template `w mod len`.
pub struct WeekRuleTable<State>(pub Vec<WeekRule<State>>);

/// What each slot of a list holds, in order.
pub open spec fn slot_views<State>(s: Seq<ShiftHall<State>>) -> Seq<SlotView> {
    s.map_values(|h: ShiftHall<State>| h@)
}

/// The slots of a day: morning first, then afternoon.
pub open spec fn day_slots(day: DayRule<Incomplete>) -> Seq<SlotView> {
    slot_views(day.shift_morning@) + slot_views(day.shift_afternoon@)
}

/// The slots of a week, day by day.
pub open spec fn week_slots(w: WeekRule<Incomplete>) -> Seq<SlotView> {
    day_slots(w.0@[0]) + day_slots(w.0@[1]) + day_slots(w.0@[2]) + day_slots(w.0@[3])
        + day_slots(w.0@[4]) + day_slots(w.0@[5]) + day_slots(w.0@[6])
}

/// `slot_fault` against fixed group sizes, as a function of the slot.
pub open spec fn fault_against(sizes: Seq<nat>) -> spec_fn(SlotView) -> Option<AssignErr> {
    |s: SlotView| slot_fault(s, sizes)
}

/// The fault of the first slot of `slots` that cannot be assigned, if there is one.
pub open spec fn first_fault(slots: Seq<SlotView>, sizes: Seq<nat>) -> Option<AssignErr> {
    first_some(slots, fault_against(sizes))
}

/// The slots once each has been given its member at rotation offset `delta`.
pub open spec fn assigned_slots(s: Seq<SlotView>, sizes: Seq<nat>, delta: nat) -> Seq<SlotView> {
    s.map_values(|v: SlotView| SlotView { staff: Some(assigned_index(v, sizes, delta)), ..v })
}

/// The members that the slots are given at rotation offset `delta`, slot by slot.
pub open spec fn staff_of(s: Seq<SlotView>, sizes: Seq<nat>, delta: nat) -> Seq<StaffIndex> {
    s.map_values(|v: SlotView| assigned_index(v, sizes, delta))
}

/// The members held by the slots that have one, in order.
pub open spec fn decided_of(s: Seq<SlotView>) -> Seq<StaffIndex>
    decreases s.len(),
{
    if s.len() == 0 {
        Seq::empty()
    } else {
        match s.last().staff {
            Some(x) => decided_of(s.drop_last()).push(x),
            None => decided_of(s.drop_last()),
        }
    }
}

/// `d` is day template `t` with every slot given its member at offset `delta`.
pub open spec fn day_assigned(d: DayRule<Ready>, t: DayRule<Incomplete>, sizes: Seq<nat>, delta: nat) -> bool {
    &&& slot_views(d.shift_morning@) == assigned_slots(slot_views(t.shift_morning@), sizes, delta)
    &&& slot_views(d.shift_afternoon@) == assigned_slots(slot_views(t.shift_afternoon@), sizes, delta)
}

/// `r` lists, for each slot of day template `t`, its member at offset `delta`.
pub open spec fn day_decided_from(r: DayDecidedShift, t: DayRule<Incomplete>, sizes: Seq<nat>, delta: nat) -> bool {
    &&& r.shift_morning@ == staff_of(slot_views(t.shift_morning@), sizes, delta)
    &&& r.shift_afternoon@ == staff_of(slot_views(t.shift_afternoon@), sizes, delta)
}

/// `r` lists, day by day, the members of week template `t` at offset `delta`.
pub open spec fn week_decided_from(r: WeekDecidedShift, t: WeekRule<Incomplete>, sizes: Seq<nat>, delta: nat) -> bool {
    forall|d: int| 0 <= d < 7 ==> #[trigger] day_decided_from(r.0@[d], t.0@[d], sizes, delta)
}

proof fn lemma_decided_of_assigned(s: Seq<SlotView>, sizes: Seq<nat>, delta: nat)
    ensures
        decided_of(assigned_slots(s, sizes, delta)) == staff_of(s, sizes, delta),
    decreases s.len(),
{
    if s.len() > 0 {
        let a = assigned_slots(s, sizes, delta);
        assert(a.drop_last() =~= assigned_slots(s.drop_last(), sizes, delta));
        lemma_decided_of_assigned(s.drop_last(), sizes, delta);
        assert(staff_of(s, sizes, delta) =~= staff_of(s.drop_last(), sizes, delta).push(
            assigned_index(s.last(), sizes, delta),
        ));
    }
}

fn assign_slots(slots: &Vec<ShiftHall<Incomplete>>, staff_group_list: &StaffGroupList, delta: usize) -> (r:
    Result<Vec<ShiftHall<Ready>>, AssignErr>)
    ensures
        match first_fault(slot_views(slots@), staff_group_list.sizes()) {
            Some(e) => r == Err::<Vec<ShiftHall<Ready>>, AssignErr>(e),
            None => r matches Ok(v) && slot_views(v@) == assigned_slots(
                slot_views(slots@),
                staff_group_list.sizes(),
                delta as nat,
            ),
        },
{
    let ghost sizes = staff_group_list.sizes();
    let ghost views = slot_views(slots@);
    let mut out: Vec<ShiftHall<Ready>> = Vec::new();
    let mut i: usize = 0;
    while i < slots.len()
        invariant
            i <= slots@.len(),
            sizes == staff_group_list.sizes(),
            views == slot_views(slots@),
            forall|k: int| 0 <= k < i ==> (#[trigger] fault_against(sizes)(views[k])) is None,
            out@.len() == i,
            slot_views(out@) =~= assigned_slots(views, sizes, delta as nat).take(i as int),
        decreases slots@.len() - i,
    {
        assert(views[i as int] == slots@[i as int]@);
        match slots[i].set_self_from_staff_list(staff_group_list, delta) {
            Err(e) => {
                proof {
                    lemma_first_some_at(views, fault_against(sizes), i as int);
                }
                return Err(e);
            },
            Ok(h) => {
                let ghost prev = out@;
                out.push(h);
                assert forall|k: int| 0 <= k < i + 1 implies #[trigger] slot_views(out@)[k]
                    == assigned_slots(views, sizes, delta as nat)[k] by {
                    if k < i {
                        assert(slot_views(out@)[k] == slot_views(prev)[k]);
                    }
                }
                assert(slot_views(out@) =~= assigned_slots(views, sizes, delta as nat).take(i + 1));
            },
        }
        i += 1;
    }
    proof {
        lemma_first_some_none(views, fault_against(sizes));
    }
    Ok(out)
}

fn decided_list(slots: &Vec<ShiftHall<Ready>>) -> (r: Vec<StaffIndex>)
    ensures
        r@ == decided_of(slot_views(slots@)),
{
    let ghost views = slot_views(slots@);
    let mut out: Vec<StaffIndex> = Vec::new();
    let mut i: usize = 0;
    while i < slots.len()
        invariant
            i <= slots@.len(),
            views == slot_views(slots@),
            out@ == decided_of(views.take(i as int)),
        decreases slots@.len() - i,
    {
        proof {
            assert(views.take(i + 1).drop_last() =~= views.take(i as int));
        }
        match slots[i].gen_decided() {
            Some(x) => out.push(x),
            None => {},
        }
        i += 1;
    }
    proof {
        assert(views.take(slots@.len() as int) =~= views);
    }
    out
}

impl DayRule<Incomplete> {
    /// Gives every slot of the day its member at rotation offset `delta`; the
    /// first slot that cannot be assigned stops the whole day.
    pub fn set_self_from_staff_list(&self, staff_group_list: &StaffGroupList, delta: usize) -> (r:
        Result<DayRule<Ready>, AssignErr>)
        ensures
            match first_fault(day_slots(*self), staff_group_list.sizes()) {
                Some(e) => r == Err::<DayRule<Ready>, AssignErr>(e),
                None => r matches Ok(d) && day_assigned(d, *self, staff_group_list.sizes(), delta as nat),
            },
    {
        proof {
            lemma_first_some_concat(
                slot_views(self.shift_morning@),
                slot_views(self.shift_afternoon@),
                fault_against(staff_group_list.sizes()),
            );
        }
        let shift_morning = assign_slots(&self.shift_morning, staff_group_list, delta)?;
        let shift_afternoon = assign_slots(&self.shift_afternoon, staff_group_list, delta)?;
        Ok(DayRule { shift_morning, shift_afternoon })
    }
}

impl DayRule<Ready> {
    /// The members of the day's slots, morning and afternoon, in slot order.
    pub fn gen_decided(&self) -> (r: DayDecidedShift)
        ensures
            r.shift_morning@ == decided_of(slot_views(self.shift_morning@)),
            r.shift_afternoon@ == decided_of(slot_views(self.shift_afternoon@)),
    {
        DayDecidedShift {
            shift_morning: decided_list(&self.shift_morning),
            shift_afternoon: decided_list(&self.shift_afternoon),
        }
    }
}

impl WeekRule<Incomplete> {
    /// Gives every slot of the week its member at rotation offset `delta`; the
    /// first slot that cannot be assigned stops the whole week.
    pub fn set_self_from_staff_list(&self, staff_group_list: &StaffGroupList, delta: usize) -> (r:
        Result<WeekRule<Ready>, AssignErr>)
        ensures
            match first_fault(week_slots(*self), staff_group_list.sizes()) {
                Some(e) => r == Err::<WeekRule<Ready>, AssignErr>(e),
                None => r matches Ok(w) && forall|d: int|
                    0 <= d < 7 ==> #[trigger] day_assigned(w.0@[d], self.0@[d], staff_group_list.sizes(), delta as nat),
            },
    {
        proof {
            let f = fault_against(staff_group_list.sizes());
            let days = self.0@;
            lemma_first_some_concat(day_slots(days[0]), day_slots(days[1]), f);
            let p = day_slots(days[0]) + day_slots(days[1]);
            lemma_first_some_concat(p, day_slots(days[2]), f);
            let p = p + day_slots(days[2]);
            lemma_first_some_concat(p, day_slots(days[3]), f);
            let p = p + day_slots(days[3]);
            lemma_first_some_concat(p, day_slots(days[4]), f);
            let p = p + day_slots(days[4]);
            lemma_first_some_concat(p, day_slots(days[5]), f);
            let p = p + day_slots(days[5]);
            lemma_first_some_concat(p, day_slots(days[6]), f);
        }
        let d0 = self.0[0].set_self_from_staff_list(staff_group_list, delta)?;
        let d1 = self.0[1].set_self_from_staff_list(staff_group_list, delta)?;
        let d2 = self.0[2].set_self_from_staff_list(staff_group_list, delta)?;
        let d3 = self.0[3].set_self_from_staff_list(staff_group_list, delta)?;
        let d4 = self.0[4].set_self_from_staff_list(staff_group_list, delta)?;
        let d5 = self.0[5].set_self_from_staff_list(staff_group_list, delta)?;
        let d6 = self.0[6].set_self_from_staff_list(staff_group_list, delta)?;
        Ok(WeekRule([d0, d1, d2, d3, d4, d5, d6]))
    }
}

impl WeekRule<Ready> {
    /// The members of each day's slots.
    pub fn gen_decided(&self) -> (r: WeekDecidedShift)
        ensures
            forall|d: int|
                0 <= d < 7 ==> (#[trigger] r.0@[d]).shift_morning@ == decided_of(slot_views(self.0@[d].shift_morning@))
                    && r.0@[d].shift_afternoon@ == decided_of(slot_views(self.0@[d].shift_afternoon@)),
    {
        WeekDecidedShift(
            [
                self.0[0].gen_decided(),
                self.0[1].gen_decided(),
                self.0[2].gen_decided(),
                self.0[3].gen_decided(),
                self.0[4].gen_decided(),
                self.0[5].gen_decided(),
                self.0[6].gen_decided(),
            ],
        )
    }
}

// ========= the cycle =========

/// The template that absolute week `week` uses in a cycle of `cycle` templates.
pub open spec fn template_index(week: int, cycle: int) -> int {
    week % cycle
}

/// The rotation offset of absolute week `week`: the number of whole cycles before it.
pub open spec fn rotation_offset(week: int, cycle: int) -> int {
    week / cycle
}

/// The template that absolute week `week` uses.
pub open spec fn week_template(table: WeekRuleTable<Incomplete>, week: int) -> WeekRule<Incomplete> {
    table.0@[template_index(week, table.0@.len() as int)]
}

/// The first fault met when assigning weeks `start .. start + count` in order.
pub open spec fn first_fault_in_weeks(
    table: WeekRuleTable<Incomplete>,
    sizes: Seq<nat>,
    start: int,
    count: int,
) -> Option<AssignErr>
    decreases count,
{
    if count <= 0 {
        None
    } else {
        match first_fault_in_weeks(table, sizes, start, count - 1) {
            Some(e) => Some(e),
            None => first_fault(week_slots(week_template(table, start + count - 1)), sizes),
        }
    }
}

/// `r` is what generating weeks `start .. start + count` from `table` gives: the
/// first fault met, or one decided week per absolute week `w`, from template
/// `w mod len` at rotation offset `w div len`.
pub open spec fn gen_shift_result(
    table: WeekRuleTable<Incomplete>,
    staff_group_list: StaffGroupList,
    start: int,
    count: int,
    r: Result<Vec<WeekDecidedShift>, AssignErr>,
) -> bool {
    let sizes = staff_group_list.sizes();
    match first_fault_in_weeks(table, sizes, start, count) {
        Some(e) => r == Err::<Vec<WeekDecidedShift>, AssignErr>(e),
        None => r matches Ok(v) && v@.len() == count && forall|i: int|
            0 <= i < count ==> #[trigger] week_decided_from(
                v@[i],
                week_template(table, start + i),
                sizes,
                rotation_offset(start + i, table.0@.len() as int) as nat,
            ),
    }
}

proof fn lemma_first_fault_in_weeks_stays(
    table: WeekRuleTable<Incomplete>,
    sizes: Seq<nat>,
    start: int,
    a: int,
    b: int,
)
    requires
        0 <= a <= b,
        first_fault_in_weeks(table, sizes, start, a) is Some,
    ensures
        first_fault_in_weeks(table, sizes, start, b) == first_fault_in_weeks(table, sizes, start, a),
    decreases b - a,
{
    if a < b {
        lemma_first_fault_in_weeks_stays(table, sizes, start, a, b - 1);
    }
}

/// Generates `week_gen_range` weeks starting at absolute week `week_delta`: week
/// `w` uses template `w mod len` at rotation offset `w div len`.
pub fn gen_shift(
    week_rule_table: &WeekRuleTable<Incomplete>,
    staff_group_list: &StaffGroupList,
    week_delta: usize,
    week_gen_range: usize,
) -> (r: Result<Vec<WeekDecidedShift>, AssignErr>)
    requires
        week_rule_table.0@.len() > 0,
        week_delta + week_gen_range <= usize::MAX + 1,
    ensures
        gen_shift_result(*week_rule_table, *staff_group_list, week_delta as int, week_gen_range as int, r),
{
    let ghost sizes = staff_group_list.sizes();
    let cycle = week_rule_table.0.len();
    let mut out: Vec<WeekDecidedShift> = Vec::new();
    let mut i: usize = 0;
    while i < week_gen_range
        invariant
            i <= week_gen_range,
            cycle == week_rule_table.0@.len(),
            cycle > 0,
            week_delta + week_gen_range <= usize::MAX + 1,
            sizes == staff_group_list.sizes(),
            first_fault_in_weeks(*week_rule_table, sizes, week_delta as int, i as int) is None,
            out@.len() == i,
            forall|j: int|
                0 <= j < i ==> #[trigger] week_decided_from(
                    out@[j],
                    week_template(*week_rule_table, week_delta + j),
                    sizes,
                    rotation_offset(week_delta + j, cycle as int) as nat,
                ),
        decreases week_gen_range - i,
    {
        let week = week_delta + i;
        let template = &week_rule_table.0[week % cycle];
        let ready = match template.set_self_from_staff_list(staff_group_list, week / cycle) {
            Err(e) => {
                proof {
                    lemma_first_fault_in_weeks_stays(
                        *week_rule_table,
                        sizes,
                        week_delta as int,
                        i + 1,
                        week_gen_range as int,
                    );
                }
                return Err(e);
            },
            Ok(w) => w,
        };
        let decided = ready.gen_decided();
        proof {
            let delta = (week / cycle) as nat;
            assert forall|d: int| 0 <= d < 7 implies #[trigger] day_decided_from(
                decided.0@[d],
                template.0@[d],
                sizes,
                delta,
            ) by {
                assert(day_assigned(ready.0@[d], template.0@[d], sizes, delta));
                lemma_decided_of_assigned(slot_views(template.0@[d].shift_morning@), sizes, delta);
                lemma_decided_of_assigned(slot_views(template.0@[d].shift_afternoon@), sizes, delta);
            }
        }
        out.push(decided);
        i += 1;
    }
    Ok(out)
}

/// Moving the first week on by `k` whole cycles keeps the template of every
/// generated week and raises its rotation offset by exactly `k`, so that the
/// member each slot selects in its group of `n` moves `k` places on, modulo `n`.
pub proof fn lemma_cycle_periodicity(table: WeekRuleTable<Incomplete>, start: int, k: int, i: int, id: int, n: int)
    requires
        table.0@.len() > 0,
        start >= 0,
        k >= 0,
        i >= 0,
        id >= 0,
        n > 0,
    ensures
        ({
            let c = table.0@.len() as int;
            let w1 = start + i;
            let w2 = start + k * c + i;
            &&& template_index(w2, c) == template_index(w1, c)
            &&& week_template(table, w2) == week_template(table, w1)
            &&& rotation_offset(w2, c) == rotation_offset(w1, c) + k
            &&& rotation_index(rotation_offset(w2, c), id, n) == (rotation_index(rotation_offset(w1, c), id, n) + k) % n
        }),
{
    let c = table.0@.len() as int;
    let w1 = start + i;
    let w2 = start + k * c + i;
    assert(w2 == c * k + w1) by (nonlinear_arith)
        requires
            w2 == start + k * c + i,
            w1 == start + i,
    ;
    vstd::arithmetic::div_mod::lemma_mod_multiples_vanish(k, w1, c);
    vstd::arithmetic::div_mod::lemma_hoist_over_denominator(w1, k, c as nat);
    assert(w1 + k * c == w2);
    let d1 = rotation_offset(w1, c);
    vstd::arithmetic::div_mod::lemma_add_mod_noop_right(k, d1 + id, n);
    assert(d1 + k + id == k + (d1 + id));
    assert((d1 + id) % n + k == k + (d1 + id) % n);
}

/// Moving the first week on by `k` whole cycles uses the same templates, so
/// generation fails, or succeeds, just as it did.
pub proof fn lemma_cycle_periodicity_faults(table: WeekRuleTable<Incomplete>, sizes: Seq<nat>, start: int, k: int, count: int)
    requires
        table.0@.len() > 0,
        start >= 0,
        k >= 0,
        count >= 0,
    ensures
        first_fault_in_weeks(table, sizes, start + k * table.0@.len(), count) == first_fault_in_weeks(
            table,
            sizes,
            start,
            count,
        ),
    decreases count,
{
    if count > 0 {
        lemma_cycle_periodicity_faults(table, sizes, start, k, count - 1);
        let c = table.0@.len() as int;
        let w1 = start + count - 1;
        assert(start + k * c + count - 1 == c * k + w1) by (nonlinear_arith)
            requires
                w1 == start + count - 1,
        ;
        vstd::arithmetic::div_mod::lemma_mod_multiples_vanish(k, w1, c);
    }
}

/// Generation is a function of its inputs: two results that both meet the
/// contract of `gen_shift` for the same inputs are equal, week by week and day by day.
pub proof fn lemma_gen_shift_deterministic(
    table: WeekRuleTable<Incomplete>,
    staff_group_list: StaffGroupList,
    start: int,
    count: int,
    r1: Result<Vec<WeekDecidedShift>, AssignErr>,
    r2: Result<Vec<WeekDecidedShift>, AssignErr>,
)
    requires
        gen_shift_result(table, staff_group_list, start, count, r1),
        gen_shift_result(table, staff_group_list, start, count, r2),
    ensures
        r1 is Ok <==> r2 is Ok,
        r1 is Err ==> r1 == r2,
        r1 matches Ok(v1) ==> r2 matches Ok(v2) && v1@.len() == v2@.len() && forall|i: int, d: int|
            0 <= i < v1@.len() && 0 <= d < 7 ==> (#[trigger] v1@[i].0@[d]).shift_morning@ == v2@[i].0@[d].shift_morning@
                && v1@[i].0@[d].shift_afternoon@ == v2@[i].0@[d].shift_afternoon@,
{
    if r1 is Ok {
        let v1 = r1->Ok_0;
        let v2 = r2->Ok_0;
        assert forall|i: int, d: int| 0 <= i < v1@.len() && 0 <= d < 7 implies (#[trigger] v1@[i].0@[d]).shift_morning@
            == v2@[i].0@[d].shift_morning@ && v1@[i].0@[d].shift_afternoon@ == v2@[i].0@[d].shift_afternoon@ by {
            let t = week_template(table, start + i);
            let delta = rotation_offset(start + i, table.0@.len() as int) as nat;
            assert(week_decided_from(v1@[i], t, staff_group_list.sizes(), delta));
            assert(week_decided_from(v2@[i], t, staff_group_list.sizes(), delta));
            assert(day_decided_from(v1@[i].0@[d], t.0@[d], staff_group_list.sizes(), delta));
            assert(day_decided_from(v2@[i].0@[d], t.0@[d], staff_group_list.sizes(), delta));
        }
    }
}

} // verus!
