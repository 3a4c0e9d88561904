//! The holiday dataset and the classification of a month's days into
//! holiday days, make-up workdays and ordinary days.

use std::collections::HashMap;
use vstd::prelude::*;
use crate::date::parse_date;
use crate::date::spec_parse_date;

verus! {

broadcast use vstd::std_specs::hash::group_hash_axioms;

/// One holiday record. `holiday` true means a day off; false means a
/// weekend day worked as compensation. `date` is an ISO `YYYY-MM-DD`
/// date string, the month and the day also taken unpadded; the
/// remaining fields are carried for display only.
pub struct Holiday {
    pub holiday: bool,
    pub name: String,
    pub wage: i32,
    pub date: String,
    pub rest: Option<i32>,
    pub after: Option<bool>,
    pub target: Option<String>,
}

/// The holiday dataset of one year: a status code and the records, each
/// under an opaque record key. The dataset may be empty.
pub struct HolidayData {
    pub code: i32,
    pub holiday: Vec<(String, Holiday)>,
}

/// The date strings of a day-keyed map, as sequences of characters.
pub open spec fn map_view(m: Map<u32, String>) -> Map<u32, Seq<char>> {
    Map::new(|k: u32| m.dom().contains(k), |k: u32| m[k]@)
}

/// The classification of a dataset against month `m` of year `y`,
/// processing the records left to right: a record whose date string
/// denotes a date of that month puts its day of month into the first map
/// (when `holiday` is set) or the second (when it is not), mapped to the
/// record's date string, and withdraws the day from the other map — so
/// under conflicting records for one day the last-processed record wins;
/// a record whose date denotes a date of another month is ignored; a
/// record whose date string denotes no date is counted as skipped.
pub open spec fn spec_classify(recs: Seq<(String, Holiday)>, y: int, m: int) -> (
    Map<u32, Seq<char>>,
    Map<u32, Seq<char>>,
    int,
)
    decreases recs.len(),
{
    if recs.len() == 0 {
        (Map::empty(), Map::empty(), 0)
    } else {
        let prev = spec_classify(recs.drop_last(), y, m);
        let rec = recs.last().1;
        match spec_parse_date(rec.date@) {
            Some((ry, rm, rd)) => {
                if ry == y && rm == m {
                    if rec.holiday {
                        (prev.0.insert(rd as u32, rec.date@), prev.1.remove(rd as u32), prev.2)
                    } else {
                        (prev.0.remove(rd as u32), prev.1.insert(rd as u32, rec.date@), prev.2)
                    }
                } else {
                    prev
                }
            },
            None => (prev.0, prev.1, prev.2 + 1),
        }
    }
}

/// The outcome of classifying one month: day-of-month keyed maps of the
/// holiday days and of the make-up workdays, and the count of records
/// whose date string denoted no valid date and which were skipped.
pub struct MonthClassification {
    pub holidays: HashMap<u32, String>,
    pub workdays: HashMap<u32, String>,
    pub skipped: usize,
}

/// Classifies the dataset's records against month `month` of year `year`.
/// An empty dataset yields two empty maps, never an error; a record whose
/// date string denotes no date is skipped and counted, never a failure.
pub fn classify(data: &HolidayData, year: i32, month: u32) -> (r: MonthClassification)
    requires
        1 <= month <= 12,
    ensures
        ({
            let s = spec_classify(data.holiday@, year as int, month as int);
            &&& map_view(r.holidays@) == s.0
            &&& map_view(r.workdays@) == s.1
            &&& r.skipped == s.2
            &&& r.skipped <= data.holiday@.len()
        }),
{
    let mut holidays: HashMap<u32, String> = HashMap::new();
    let mut workdays: HashMap<u32, String> = HashMap::new();
    let mut skipped: usize = 0;
    let mut i: usize = 0;
    proof {
        assert(map_view(holidays@) =~= Map::<u32, Seq<char>>::empty());
        assert(map_view(workdays@) =~= Map::<u32, Seq<char>>::empty());
        assert(data.holiday@.take(0) =~= Seq::<(String, Holiday)>::empty());
    }
    while i < data.holiday.len()
        invariant
            1 <= month <= 12,
            0 <= i <= data.holiday@.len(),
            skipped <= i,
            ({
                let s = spec_classify(data.holiday@.take(i as int), year as int, month as int);
                &&& map_view(holidays@) == s.0
                &&& map_view(workdays@) == s.1
                &&& skipped == s.2
            }),
        decreases data.holiday@.len() - i,
    {
        let ghost prefix = data.holiday@.take(i as int);
        proof {
            assert(data.holiday@.take(i + 1).drop_last() =~= prefix);
            assert(data.holiday@.take(i + 1).last() == data.holiday@[i as int]);
        }
        let rec = &data.holiday[i].1;
        match parse_date(rec.date.as_str()) {
            Some(d) => {
                if d.year == year && d.month == month {
                    if rec.holiday {
                        let ghost prevh = holidays@;
                        let ghost prevw = workdays@;
                        holidays.insert(d.day, rec.date.clone());
                        workdays.remove(&d.day);
                        proof {
                            assert(map_view(holidays@) =~= map_view(prevh).insert(
                                d.day,
                                rec.date@,
                            ));
                            assert(map_view(workdays@) =~= map_view(prevw).remove(d.day));
                        }
                    } else {
                        let ghost prevh = holidays@;
                        let ghost prevw = workdays@;
                        workdays.insert(d.day, rec.date.clone());
                        holidays.remove(&d.day);
                        proof {
                            assert(map_view(workdays@) =~= map_view(prevw).insert(
                                d.day,
                                rec.date@,
                            ));
                            assert(map_view(holidays@) =~= map_view(prevh).remove(d.day));
                        }
                    }
                }
            },
            None => {
                skipped = skipped + 1;
            },
        }
        i = i + 1;
    }
    proof {
        assert(data.holiday@.take(data.holiday@.len() as int) =~= data.holiday@);
    }
    MonthClassification { holidays, workdays, skipped }
}

/// The day-keyed maps of holiday days and make-up workdays of month
/// `month` of year `year`, as the pair (holidays, workdays).
pub fn get_holidays_and_workday_in_month(
    holiday_data: &HolidayData,
    year: i32,
    month: u32,
) -> (r: (HashMap<u32, String>, HashMap<u32, String>))
    requires
        1 <= month <= 12,
    ensures
        ({
            let s = spec_classify(holiday_data.holiday@, year as int, month as int);
            &&& map_view(r.0@) == s.0
            &&& map_view(r.1@) == s.1
        }),
{
    let c = classify(holiday_data, year, month);
    (c.holidays, c.workdays)
}

/// The per-day tag of the display rule: a day of the holiday map is a
/// holiday, a day only of the make-up map is a make-up workday, any other
/// day is ordinary.
#[derive(Clone, Copy, PartialEq, Eq, Structural, Debug)]
pub enum DayClassification {
    Holiday,
    MakeUpWorkday,
    Ordinary,
}

pub open spec fn spec_day_classification(d: u32, hol: Set<u32>, mk: Set<u32>) -> DayClassification {
    if hol.contains(d) {
        DayClassification::Holiday
    } else if mk.contains(d) {
        DayClassification::MakeUpWorkday
    } else {
        DayClassification::Ordinary
    }
}

/// The display flag rule: a day is flagged exactly when it is a holiday
/// day, or it is a Sunday (weekday 0) not overridden as a make-up
/// workday. A Saturday alone is not flagged.
pub open spec fn spec_day_flagged(d: u32, weekday: int, hol: Set<u32>, mk: Set<u32>) -> bool {
    hol.contains(d) || (weekday == 0 && !mk.contains(d))
}

pub fn classify_day(
    day: u32,
    holidays: &HashMap<u32, String>,
    workdays: &HashMap<u32, String>,
) -> (r: DayClassification)
    ensures
        r == spec_day_classification(day, holidays@.dom(), workdays@.dom()),
{
    if holidays.contains_key(&day) {
        DayClassification::Holiday
    } else if workdays.contains_key(&day) {
        DayClassification::MakeUpWorkday
    } else {
        DayClassification::Ordinary
    }
}

/// Whether day `day` of the month, falling on weekday `weekday`
/// (0 = Sunday .. 6 = Saturday), gets the holiday styling.
pub fn is_day_flagged(
    day: u32,
    weekday: u32,
    holidays: &HashMap<u32, String>,
    workdays: &HashMap<u32, String>,
) -> (r: bool)
    ensures
        r == spec_day_flagged(day, weekday as int, holidays@.dom(), workdays@.dom()),
{
    holidays.contains_key(&day) || (weekday == 0 && !workdays.contains_key(&day))
}

/// Whether record `h` is one of month `m` of year `y` for day `d` with
/// the given `holiday` flag: its date string denotes exactly that date.
pub open spec fn record_matches(h: Holiday, y: int, m: int, d: u32, holiday: bool) -> bool {
    h.holiday == holiday && spec_parse_date(h.date@) == Some((y, m, d as int))
}

/// Every record whose date lies in the month and which no later record
/// contradicts shows up: its day of month stands in the holiday map when
/// the record is flagged as a holiday and in the make-up map when it is
/// not. A later record of the opposite flag for the same day wins
/// instead: the last-processed record decides.
pub proof fn lemma_classify_covers_record(
    recs: Seq<(String, Holiday)>,
    y: int,
    m: int,
    i: int,
    d: u32,
)
    requires
        0 <= i < recs.len(),
        record_matches(recs[i].1, y, m, d, recs[i].1.holiday),
        forall|j: int|
            i < j < recs.len() && recs[j].1.holiday != recs[i].1.holiday
                ==> #[trigger] spec_parse_date(recs[j].1.date@) != Some((y, m, d as int)),
    ensures
        recs[i].1.holiday ==> spec_classify(recs, y, m).0.dom().contains(d),
        !recs[i].1.holiday ==> spec_classify(recs, y, m).1.dom().contains(d),
    decreases recs.len(),
{
    assert(recs.last() == recs[recs.len() - 1]);
    if i < recs.len() - 1 {
        assert(forall|j: int|
            0 <= j < recs.len() - 1 ==> recs.drop_last()[j] == #[trigger] recs[j]);
        lemma_classify_covers_record(recs.drop_last(), y, m, i, d);
    }
}

/// A day stands in a classification map only for a record of the dataset
/// whose date string denotes that day of the month with the matching
/// flag; in particular a record whose date lies outside the month puts
/// its day in neither map, and an empty dataset yields two empty maps.
pub proof fn lemma_classify_only_from_records(recs: Seq<(String, Holiday)>, y: int, m: int, d: u32)
    ensures
        ({
            let s = spec_classify(recs, y, m);
            &&& s.0.dom().contains(d) ==> exists|i: int|
                0 <= i < recs.len() && #[trigger] record_matches(recs[i].1, y, m, d, true)
            &&& s.1.dom().contains(d) ==> exists|i: int|
                0 <= i < recs.len() && #[trigger] record_matches(recs[i].1, y, m, d, false)
        }),
    decreases recs.len(),
{
    if recs.len() > 0 {
        lemma_classify_only_from_records(recs.drop_last(), y, m, d);
        let s = spec_classify(recs, y, m);
        let prev = spec_classify(recs.drop_last(), y, m);
        assert(forall|j: int|
            0 <= j < recs.len() - 1 ==> recs.drop_last()[j] == #[trigger] recs[j]);
        if s.0.dom().contains(d) && !prev.0.dom().contains(d) {
            assert(record_matches(recs[recs.len() - 1].1, y, m, d, true));
        }
        if s.1.dom().contains(d) && !prev.1.dom().contains(d) {
            assert(record_matches(recs[recs.len() - 1].1, y, m, d, false));
        }
    }
}

/// No day is a holiday day and a make-up workday at once: the record
/// processed last for a day decides its class and withdraws the day from
/// the other map.
pub proof fn lemma_classify_disjoint(recs: Seq<(String, Holiday)>, y: int, m: int, d: u32)
    ensures
        !(spec_classify(recs, y, m).0.dom().contains(d) && spec_classify(
            recs,
            y,
            m,
        ).1.dom().contains(d)),
    decreases recs.len(),
{
    if recs.len() > 0 {
        lemma_classify_disjoint(recs.drop_last(), y, m, d);
    }
}

} // verus!
