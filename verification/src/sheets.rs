//! Month-keyed sheet identifiers: records are grouped by month under
//! ids of the form year times one hundred plus month, and searches walk
//! backwards through the most recent months.

use vstd::prelude::*;

verus! {

/// The id of the month before the month `x` names: one less, except
/// across a year boundary, where the December of the previous year is
/// eighty-nine less.
pub open spec fn prev_sheet_id(x: int) -> int {
    if (x - 1) % 100 == 0 {
        x - 89
    } else {
        x - 1
    }
}

/// The ids of the month `id` and the `count - 1` months before it,
/// newest first.
pub fn last_sheet_ids(id: i32, count: usize) -> (r: Vec<i32>)
    requires
        count >= 1,
        89 * (count as int - 1) < id as int,
    ensures
        r@.len() == count,
        r@[0] == id,
        forall|k: int|
            0 <= k < count - 1 ==> #[trigger] r@[k + 1] as int == prev_sheet_id(r@[k] as int),
{
    let mut v: Vec<i32> = Vec::new();
    v.push(id);
    let mut i: usize = 1;
    while i < count
        invariant
            1 <= i <= count,
            89 * (count as int - 1) < id as int,
            v@.len() == i,
            v@[0] == id,
            v@[i - 1] as int >= id as int - 89 * (i - 1),
            forall|k: int|
                0 <= k < i - 1 ==> #[trigger] v@[k + 1] as int == prev_sheet_id(v@[k] as int),
        decreases count - i,
    {
        let last = v[i - 1];
        assert(last as int >= id as int - 89 * (count as int - 1) >= 1);
        let prev = if (last - 1) % 100 == 0 {
            last - 89
        } else {
            last - 1
        };
        v.push(prev);
        proof {
            assert(v@[i as int] as int == prev_sheet_id(v@[i - 1] as int));
        }
        i += 1;
    }
    v
}

} // verus!
