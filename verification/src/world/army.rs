//! Growth, morale and strength of a single army.

use vstd::prelude::*;
use super::{Army, MAX_STACK_SIZE};

verus! {

/// `x / 2` rounded to the nearest integer, halves away from zero.
pub open spec fn spec_half_round(x: int) -> int {
    if x >= 0 {
        (x + 1) / 2
    } else {
        -((-x + 1) / 2)
    }
}

/// `x / 2` rounded towards positive infinity.
pub open spec fn spec_half_ceil(x: int) -> int {
    if x >= 0 {
        (x + 1) / 2
    } else {
        -((-x) / 2)
    }
}

/// `x / 2` rounded to the nearest integer, halves away from zero.
pub fn half_round(x: i32) -> (h: i32)
    ensures
        h == spec_half_round(x as int),
{
    if x >= 0 {
        ((x as i64 + 1) / 2) as i32
    } else {
        -(((-(x as i64)) + 1) / 2) as i32
    }
}

/// `x / 2` rounded towards positive infinity.
pub fn half_ceil(x: i32) -> (h: i32)
    ensures
        h == spec_half_ceil(x as int),
{
    if x >= 0 {
        ((x as i64 + 1) / 2) as i32
    } else {
        -((-(x as i64)) / 2) as i32
    }
}

/// Lower bound on an army's morale given its owner's total manpower:
/// one point per fifty men, but never above the army's own manpower.
pub open spec fn minimum_morale(manpower: int, total_manpower: int) -> int {
    if manpower <= total_manpower / 50 {
        manpower
    } else {
        total_manpower / 50
    }
}

impl Army {
    /// A fresh army that may move this turn, with morale at half its manpower.
    pub fn new(manpower: i32, owner_index: Option<usize>) -> (a: Self)
        ensures
            a.manpower == manpower,
            a.morale == spec_half_round(manpower as int),
            a.owner_index == owner_index,
            a.can_move,
    {
        Army { manpower, morale: half_round(manpower), owner_index, can_move: true }
    }

    /// Grows the army by `manpower` men (morale by half as much), both capped
    /// at `MAX_STACK_SIZE`, and returns the men that did not fit.
    pub fn grow(&mut self, manpower: i32) -> (overflow: i32)
        requires
            i32::MIN <= old(self).manpower + manpower <= i32::MAX,
            i32::MIN <= old(self).morale + spec_half_round(manpower as int) <= i32::MAX,
        ensures
            final(self).manpower == if old(self).manpower + manpower <= MAX_STACK_SIZE {
                old(self).manpower + manpower
            } else {
                MAX_STACK_SIZE as int
            },
            final(self).morale == if old(self).morale + spec_half_round(manpower as int)
                <= MAX_STACK_SIZE {
                old(self).morale + spec_half_round(manpower as int)
            } else {
                MAX_STACK_SIZE as int
            },
            overflow == if old(self).manpower + manpower > MAX_STACK_SIZE {
                old(self).manpower + manpower - MAX_STACK_SIZE
            } else {
                0
            },
            final(self).owner_index == old(self).owner_index,
            final(self).can_move == old(self).can_move,
    {
        let new_manpower = self.manpower + manpower;
        self.manpower = if new_manpower <= MAX_STACK_SIZE { new_manpower } else { MAX_STACK_SIZE };
        let new_morale = self.morale + half_round(manpower);
        self.morale = if new_morale <= MAX_STACK_SIZE { new_morale } else { MAX_STACK_SIZE };
        if new_manpower > MAX_STACK_SIZE {
            new_manpower - MAX_STACK_SIZE
        } else {
            0
        }
    }

    /// Raises morale by `bonus`, but not above the army's manpower.
    pub fn apply_morale_bonus(&mut self, bonus: i32)
        requires
            bonus > 0,
            old(self).morale + bonus <= i32::MAX,
        ensures
            final(self).morale == if old(self).manpower <= old(self).morale + bonus {
                old(self).manpower as int
            } else {
                old(self).morale + bonus
            },
            final(self).manpower == old(self).manpower,
            final(self).owner_index == old(self).owner_index,
            final(self).can_move == old(self).can_move,
    {
        let raised = self.morale + bonus;
        self.morale = if self.manpower <= raised { self.manpower } else { raised };
    }

    /// Lowers morale by `penalty`, but not below `minimum_morale` for the
    /// owner's total manpower.
    pub fn apply_morale_penalty(&mut self, penalty: i32, total_manpower: i32)
        requires
            penalty > 0,
            total_manpower >= 0,
            old(self).morale - penalty >= i32::MIN,
        ensures
            final(self).morale == if old(self).morale - penalty >= minimum_morale(
                old(self).manpower as int,
                total_manpower as int,
            ) {
                old(self).morale - penalty
            } else {
                minimum_morale(old(self).manpower as int, total_manpower as int)
            },
            final(self).manpower == old(self).manpower,
            final(self).owner_index == old(self).owner_index,
            final(self).can_move == old(self).can_move,
    {
        let floor = total_manpower / 50;
        let minimum = if self.manpower <= floor { self.manpower } else { floor };
        let lowered = self.morale - penalty;
        self.morale = if lowered >= minimum { lowered } else { minimum };
    }

    /// Manpower plus morale.
    pub fn combat_strength(&self) -> (s: i32)
        requires
            i32::MIN <= self.manpower + self.morale <= i32::MAX,
        ensures
            s == self.manpower + self.morale,
    {
        self.manpower + self.morale
    }
}

/// The army after a morale bonus of `bonus`: morale rises but not above manpower.
pub open spec fn bonus_applied(a: Army, bonus: int) -> Army {
    Army {
        morale: if a.manpower <= a.morale + bonus {
            a.manpower
        } else {
            (a.morale + bonus) as i32
        },
        ..a
    }
}

/// The army after a morale penalty of `penalty`, its owner holding
/// `total_manpower` men: morale drops but not below `minimum_morale`.
pub open spec fn penalty_applied(a: Army, penalty: int, total_manpower: int) -> Army {
    Army {
        morale: if a.morale - penalty >= minimum_morale(a.manpower as int, total_manpower) {
            (a.morale - penalty) as i32
        } else {
            minimum_morale(a.manpower as int, total_manpower) as i32
        },
        ..a
    }
}

} // verus!
