//! Month geometry: day count, starting weekday, and the partition of a
//! month's days into week-aligned display rows of at most seven cells.

use vstd::prelude::*;
use vstd::arithmetic::div_mod::lemma_hoist_over_denominator;
use crate::date::get_days_of_month;
use crate::date::spec_days_of_month;
use crate::date::spec_weekday;
use crate::date::start_weekday_index;

verus! {

#[derive(Clone, Copy, PartialEq, Eq, Structural, Debug)]
pub enum CalendarError {
    InvalidMonth,
}

/// Layout of one month: its number of days, the weekday (0 = Sunday ..
/// 6 = Saturday) of its first day, and the lengths of the display rows.
/// The `start_weekday_index` leading blank cells of the first row are a
/// rendering concern and are not counted in `row_lengths`.
pub struct MonthGeometry {
    pub day_count: u32,
    pub start_weekday_index: u32,
    pub row_lengths: Vec<u32>,
}

/// Row lengths of a block of `rem` days laid out after the first row:
/// rows of seven, then whatever remains as the last row.
pub open spec fn spec_rows_after(rem: int) -> Seq<int>
    decreases rem,
{
    if rem <= 7 {
        seq![rem]
    } else {
        seq![7int].add(spec_rows_after(rem - 7))
    }
}

/// Row lengths of a month of `day_count` days whose first day has weekday
/// index `start`: the first row holds the `7 - start` days beside the
/// `start` leading blank cells, and the rest follow seven to a row.
pub open spec fn spec_row_lengths(day_count: int, start: int) -> Seq<int> {
    seq![7 - start].add(spec_rows_after(day_count - (7 - start)))
}

/// A row-length vector as a sequence of mathematical integers.
pub open spec fn row_view(v: Seq<u32>) -> Seq<int> {
    v.map_values(|x: u32| x as int)
}

/// The sum of a sequence of integers.
pub open spec fn seq_sum(s: Seq<int>) -> int
    decreases s.len(),
{
    if s.len() == 0 {
        0
    } else {
        s[0] + seq_sum(s.drop_first())
    }
}

proof fn lemma_rows_after(rem: int)
    requires
        1 <= rem,
    ensures
        ({
            let rows = spec_rows_after(rem);
            &&& seq_sum(rows) == rem
            &&& rows.len() == (rem + 6) / 7
            &&& forall|i: int| 0 <= i < rows.len() - 1 ==> #[trigger] rows[i] == 7
            &&& rows[rows.len() - 1] == rem - 7 * (rows.len() - 1)
            &&& forall|i: int| 0 <= i < rows.len() ==> 1 <= #[trigger] rows[i] <= 7
        }),
    decreases rem,
{
    if rem <= 7 {
        assert(seq![rem].drop_first() =~= Seq::<int>::empty());
        assert(seq_sum(Seq::<int>::empty()) == 0);
        assert(seq_sum(seq![rem]) == rem);
        assert((rem + 6) / 7 == 1);
    } else {
        lemma_rows_after(rem - 7);
        let t = spec_rows_after(rem - 7);
        assert(seq![7int].add(t).drop_first() =~= t);
        assert((rem - 7 + 6) / 7 + 1 == (rem + 6) / 7) by {
            lemma_hoist_over_denominator(rem - 1, 1, 7);
        }
    }
}

/// The row partition of any month: the rows sum to the day count, the
/// first row holds `7 - start` days, every middle row holds seven, the
/// last row holds the remainder, and no row is empty or longer than
/// seven — also when the days fill the last row exactly.
pub proof fn lemma_row_partition(day_count: int, start: int)
    requires
        28 <= day_count <= 31,
        0 <= start <= 6,
    ensures
        ({
            let rows = spec_row_lengths(day_count, start);
            &&& seq_sum(rows) == day_count
            &&& rows.len() == (day_count + start + 6) / 7
            &&& rows[0] == 7 - start
            &&& forall|i: int| 1 <= i < rows.len() - 1 ==> #[trigger] rows[i] == 7
            &&& rows[rows.len() - 1] == day_count - (7 * (rows.len() - 1) - start)
            &&& forall|i: int| 0 <= i < rows.len() ==> 1 <= #[trigger] rows[i] <= 7
        }),
{
    let rem = day_count - (7 - start);
    lemma_rows_after(rem);
    let t = spec_rows_after(rem);
    assert(seq![7 - start].add(t).drop_first() =~= t);
    assert((rem + 6) / 7 + 1 == (day_count + start + 6) / 7) by {
        lemma_hoist_over_denominator(day_count + start - 1, 1, 7);
    }
}

/// Geometry of month `month` of year `year`: day count by the Gregorian
/// rule, starting weekday by proleptic Gregorian arithmetic, and the
/// week-row partition; months outside 1..=12 are rejected.
pub fn compute_geometry(year: i32, month: u32) -> (r: Result<MonthGeometry, CalendarError>)
    ensures
        1 <= month <= 12 ==> match r {
            Ok(g) => {
                &&& g.day_count == spec_days_of_month(year as int, month as int)
                &&& g.start_weekday_index == spec_weekday(year as int, month as int, 1)
                &&& row_view(g.row_lengths@) == spec_row_lengths(
                    g.day_count as int,
                    g.start_weekday_index as int,
                )
                &&& 28 <= g.day_count <= 31
                &&& g.start_weekday_index < 7
            },
            Err(_) => false,
        },
        !(1 <= month <= 12) ==> r == Result::<MonthGeometry, CalendarError>::Err(
            CalendarError::InvalidMonth,
        ),
{
    if month < 1 || month > 12 {
        return Err(CalendarError::InvalidMonth);
    }
    let day_count = get_days_of_month(year, month);
    let start = start_weekday_index(year, month);
    let first: u32 = 7 - start;
    let mut rows: Vec<u32> = Vec::new();
    rows.push(first);
    let mut rem: u32 = day_count - first;
    proof {
        assert(row_view(rows@) =~= seq![7 - start as int]);
        assert(seq![7 - start as int].add(spec_rows_after(rem as int)) =~= spec_row_lengths(
            day_count as int,
            start as int,
        ));
    }
    while rem > 7
        invariant
            1 <= rem <= 31,
            rows@.len() >= 1,
            row_view(rows@).add(spec_rows_after(rem as int)) == spec_row_lengths(
                day_count as int,
                start as int,
            ),
        decreases rem,
    {
        let ghost prev = row_view(rows@);
        rows.push(7);
        rem = rem - 7;
        proof {
            assert(row_view(rows@) =~= prev.push(7));
            assert(prev.push(7).add(spec_rows_after(rem as int)) =~= prev.add(
                spec_rows_after(rem + 7),
            ));
        }
    }
    let ghost prev = row_view(rows@);
    rows.push(rem);
    proof {
        assert(row_view(rows@) =~= prev.push(rem as int));
        assert(prev.push(rem as int) =~= prev.add(spec_rows_after(rem as int)));
    }
    Ok(MonthGeometry { day_count, start_weekday_index: start, row_lengths: rows })
}

} // verus!
