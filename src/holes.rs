use vstd::prelude::*;

use crate::shift_gen::{DayRule, Incomplete, ShiftHall, WeekRule, WeekRuleTable};

verus! {

/// Morning or afternoon, with the slot's place in that list.
#[derive(Clone, Copy, Debug, PartialEq, Eq, Structural)]
pub enum TimeKind {
    AfternoonIndex(usize),
    MorningIndex(usize),
}

impl TimeKind {
    pub fn is_morning(&self) -> (r: bool)
        ensures
            r == (*self is MorningIndex),
    {
        match self {
            TimeKind::MorningIndex(_) => true,
            TimeKind::AfternoonIndex(_) => false,
        }
    }
}

/// Where a slot stands in a cycle of week templates.
#[derive(Clone, Copy, Debug, PartialEq, Eq, Structural)]
pub struct HollIndex {
    pub week_rule_index: usize,
    pub day_rule: usize,
    pub time_kind: TimeKind,
}

/// A template slot together with its place in the cycle.
#[derive(Clone, Copy, Debug, PartialEq, Eq, Structural)]
pub struct Hole {
    pub group_id: usize,
    pub id: usize,
    pub at: HollIndex,
}

impl Hole {
    /// The hole stands in a morning list.
    pub open spec fn is_morning(self) -> bool {
        self.at.time_kind is MorningIndex
    }
}

/// The holes of one list of slots of day `d` of week `w`.
pub open spec fn slot_holes(s: Seq<ShiftHall<Incomplete>>, w: int, d: int, morning: bool) -> Seq<Hole> {
    s.map(
        |k: int, h: ShiftHall<Incomplete>|
            Hole {
                group_id: h@.group_id,
                id: h@.id,
                at: HollIndex {
                    week_rule_index: w as usize,
                    day_rule: d as usize,
                    time_kind: if morning {
                        TimeKind::MorningIndex(k as usize)
                    } else {
                        TimeKind::AfternoonIndex(k as usize)
                    },
                },
            },
    )
}

/// The holes of day `d` of week `w`: morning slots first, then afternoon.
pub open spec fn day_holes(day: DayRule<Incomplete>, w: int, d: int) -> Seq<Hole> {
    slot_holes(day.shift_morning@, w, d, true) + slot_holes(day.shift_afternoon@, w, d, false)
}

/// The holes of the first `count` days of week `w`.
pub open spec fn days_holes(week: WeekRule<Incomplete>, w: int, count: int) -> Seq<Hole>
    decreases count,
{
    if count <= 0 {
        Seq::empty()
    } else {
        days_holes(week, w, count - 1) + day_holes(week.0@[count - 1], w, count - 1)
    }
}

/// Every slot of a cycle, week by week, day by day, morning before afternoon.
pub open spec fn table_holes(weeks: Seq<WeekRule<Incomplete>>) -> Seq<Hole>
    decreases weeks.len(),
{
    if weeks.len() == 0 {
        Seq::empty()
    } else {
        table_holes(weeks.drop_last()) + days_holes(weeks.last(), weeks.len() - 1, 7)
    }
}

fn push_slot_holes(out: &mut Vec<Hole>, slots: &Vec<ShiftHall<Incomplete>>, w: usize, d: usize, morning: bool)
    ensures
        final(out)@ == old(out)@ + slot_holes(slots@, w as int, d as int, morning),
{
    let ghost start = out@;
    let ghost target = slot_holes(slots@, w as int, d as int, morning);
    let mut k: usize = 0;
    while k < slots.len()
        invariant
            k <= slots@.len(),
            target == slot_holes(slots@, w as int, d as int, morning),
            out@ =~= start + target.take(k as int),
        decreases slots@.len() - k,
    {
        let time_kind = if morning {
            TimeKind::MorningIndex(k)
        } else {
            TimeKind::AfternoonIndex(k)
        };
        let h = &slots[k];
        out.push(
            Hole {
                group_id: h.group_id(),
                id: h.id(),
                at: HollIndex { week_rule_index: w, day_rule: d, time_kind },
            },
        );
        k += 1;
        assert(out@ =~= start + target.take(k as int));
    }
    assert(target.take(k as int) =~= target);
}

/// Lists every slot of the cycle with its place, in the order of `table_holes`.
pub fn holes_iter(table: &WeekRuleTable<Incomplete>) -> (r: Vec<Hole>)
    ensures
        r@ == table_holes(table.0@),
{
    let mut out: Vec<Hole> = Vec::new();
    let mut w: usize = 0;
    while w < table.0.len()
        invariant
            w <= table.0@.len(),
            out@ == table_holes(table.0@.take(w as int)),
        decreases table.0@.len() - w,
    {
        let week = &table.0[w];
        let ghost before = out@;
        let mut d: usize = 0;
        while d < 7
            invariant
                w < table.0@.len(),
                *week == table.0@[w as int],
                d <= 7,
                out@ == before + days_holes(*week, w as int, d as int),
            decreases 7 - d,
        {
            let ghost mid = out@;
            push_slot_holes(&mut out, &week.0[d].shift_morning, w, d, true);
            push_slot_holes(&mut out, &week.0[d].shift_afternoon, w, d, false);
            assert(out@ =~= mid + day_holes(week.0@[d as int], w as int, d as int));
            d += 1;
            assert(out@ =~= before + days_holes(*week, w as int, d as int));
        }
        proof {
            assert(table.0@.take(w + 1).drop_last() =~= table.0@.take(w as int));
        }
        w += 1;
    }
    proof {
        assert(table.0@.take(w as int) =~= table.0@);
    }
    out
}

} // verus!
