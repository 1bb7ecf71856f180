//! The next position to read in a target partition, from the distance
//! between the source offset found there and the one searched for.

use vstd::prelude::*;

verus! {

#[derive(Debug)]
pub struct CalculateOffsetInput {
    pub current_target: i64,
    pub current_source: i64,
    pub target_source: i64,
    pub high_water_mark: i64,
    pub low_water_mark: i64,
}

/// The target offset moved by the source distance, before the adjustment
/// of a result that would not move.
pub open spec fn moved_target(i: CalculateOffsetInput) -> Option<int> {
    if i.current_source < i.target_source {
        let calculated = i.current_target + (i.target_source - i.current_source);
        Some(if calculated > i.high_water_mark { i.high_water_mark - 1 } else { calculated })
    } else if i.current_source > i.target_source {
        let calculated = i.current_target - (i.current_source - i.target_source);
        Some(if calculated < i.low_water_mark { i.low_water_mark as int } else { calculated })
    } else {
        None
    }
}

/// The new target offset: `None` when the source offsets agree; otherwise
/// the moved target, or the last offset before the high watermark when the
/// move would stay on the current target.
pub open spec fn new_offset_spec(i: CalculateOffsetInput) -> Option<int> {
    match moved_target(i) {
        Some(v) => if v == i.current_target {
            Some(i.high_water_mark - 1)
        } else {
            Some(v)
        },
        None => None,
    }
}

pub open spec fn fits_i64(v: int) -> bool {
    i64::MIN <= v <= i64::MAX
}

/// The inputs on which the calculation stays within 64-bit integers.
pub open spec fn new_offset_defined(i: CalculateOffsetInput) -> bool {
    &&& i.current_source < i.target_source ==> {
        &&& fits_i64(i.target_source - i.current_source)
        &&& fits_i64(i.current_target + (i.target_source - i.current_source))
    }
    &&& i.current_source > i.target_source ==> {
        &&& fits_i64(i.current_source - i.target_source)
        &&& fits_i64(i.current_target - (i.current_source - i.target_source))
    }
    &&& (moved_target(i) matches Some(v) && (v == i.current_target || (i.current_source
        < i.target_source && i.current_target + (i.target_source - i.current_source)
        > i.high_water_mark))) ==> i.high_water_mark > i64::MIN
}

/// Calculates a new target offset based on the difference between current and target source offsets.
///
/// This function applies the offset delta from source to target, ensuring the result stays within
/// the partition's watermark boundaries. Returns `None` if no adjustment is needed.
pub fn execute(input: CalculateOffsetInput) -> (r: Option<i64>)
    requires
        new_offset_defined(input),
    ensures
        match new_offset_spec(input) {
            Some(v) => r == Some(v as i64) && v == r->Some_0,
            None => r is None,
        },
{
    let CalculateOffsetInput {
        current_target,
        current_source,
        target_source,
        high_water_mark,
        low_water_mark,
    } = input;
    let mut new_target;

    if current_source < target_source {
        let calculated_value = current_target + (target_source - current_source);
        if calculated_value > high_water_mark {
            new_target = Some(high_water_mark - 1);
        } else {
            new_target = Some(calculated_value)
        }
    } else if current_source > target_source {
        let calculated_value = current_target - (current_source - target_source);
        if calculated_value < low_water_mark {
            new_target = Some(low_water_mark);
        } else {
            new_target = Some(calculated_value)
        }
    } else {
        new_target = None
    }

    if let Some(value) = new_target {
        if value == current_target {
            new_target = Some(high_water_mark - 1);
        }
    }

    new_target
}

/// Whether the calculation stays within 64-bit integer arithmetic.
pub fn is_defined(input: &CalculateOffsetInput) -> (r: bool)
    ensures
        r == new_offset_defined(*input),
{
    let ct = input.current_target as i128;
    let cs = input.current_source as i128;
    let ts = input.target_source as i128;
    let hw = input.high_water_mark as i128;
    let lw = input.low_water_mark as i128;
    let min = i64::MIN as i128;
    let max = i64::MAX as i128;
    if cs < ts {
        let d = ts - cs;
        if d > max || ct + d > max || ct + d < min {
            return false;
        }
        let moved = if ct + d > hw { hw - 1 } else { ct + d };
        if ct + d > hw || moved == ct {
            return hw > min;
        }
        true
    } else if cs > ts {
        let d = cs - ts;
        if d > max || ct - d > max || ct - d < min {
            return false;
        }
        let moved = if ct - d < lw { lw } else { ct - d };
        if moved == ct {
            return hw > min;
        }
        true
    } else {
        true
    }
}

/// The result is `None` exactly when the source offsets agree; moving
/// forward never goes past the high watermark, moving backward never goes
/// below the low watermark unless the move is replaced by the last offset
/// before the high watermark.
pub proof fn law_new_offset_bounds(i: CalculateOffsetInput)
    ensures
        new_offset_spec(i) is None <==> i.current_source == i.target_source,
        i.current_source < i.target_source ==> new_offset_spec(i)->Some_0 <= i.high_water_mark,
        i.current_source > i.target_source ==> (new_offset_spec(i)->Some_0 >= i.low_water_mark
            || new_offset_spec(i)->Some_0 == i.high_water_mark - 1),
        new_offset_spec(i) matches Some(v) ==> (v != i.current_target || v == i.high_water_mark
            - 1),
{
}

/// The calculation is defined on every input on which its 64-bit
/// arithmetic fits: the distance between the source offsets, the target
/// moved by it, and the last offset before the high watermark (needed only
/// when the move is clamped or does not move) are all within `i64`.
pub proof fn law_defined_where_arithmetic_fits(i: CalculateOffsetInput)
    ensures
        i.current_source == i.target_source ==> new_offset_defined(i),
        i.current_source < i.target_source && fits_i64(i.target_source - i.current_source) && fits_i64(
            i.current_target + (i.target_source - i.current_source),
        ) && i.high_water_mark > i64::MIN ==> new_offset_defined(i),
        i.current_source > i.target_source && fits_i64(i.current_source - i.target_source) && fits_i64(
            i.current_target - (i.current_source - i.target_source),
        ) && i.high_water_mark > i64::MIN ==> new_offset_defined(i),
        i.current_source < i.target_source && fits_i64(i.target_source - i.current_source) && fits_i64(
            i.current_target + (i.target_source - i.current_source),
        ) && i.current_target + (i.target_source - i.current_source) <= i.high_water_mark && i.target_source
            != i.current_source ==> new_offset_defined(i),
{
}

} // verus!
