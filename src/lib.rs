pub mod holes;
pub mod rule_checker;
pub mod seq_lemmas;
pub mod shift_gen;
pub mod validate;

pub use shift_gen::{
    gen_shift, DayDecidedShift, DayRule, Incomplete, Ready, ShiftHall, Staff, StaffGroup, StaffGroupList,
    WeekDecidedShift, WeekRule, WeekRuleTable,
};
