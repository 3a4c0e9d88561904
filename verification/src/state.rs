//! The window's state: the holiday dataset on hand, the month in view,
//! and the theme toggle, with the month-navigation rules.

use vstd::prelude::*;
use crate::holiday::HolidayData;

verus! {

/// The state behind the calendar window. `dark_but_flag` true means the
/// button offering the dark theme is shown (the light theme is active).
pub struct MyApp {
    pub holiday_data: HolidayData,
    pub year: i32,
    pub month: u32,
    pub dark_but_flag: bool,
}

impl MyApp {
    /// The month in view is a real month.
    pub open spec fn wf(&self) -> bool {
        1 <= self.month <= 12
    }

    /// A fresh state showing month `month` of year `year`, with the
    /// dark-theme button offered first.
    pub fn new(holiday_data: HolidayData, year: i32, month: u32) -> (r: MyApp)
        requires
            1 <= month <= 12,
        ensures
            r.wf(),
            r.holiday_data == holiday_data,
            r.year == year,
            r.month == month,
            r.dark_but_flag,
    {
        MyApp { holiday_data, year, month, dark_but_flag: true }
    }

    /// Moves the view one month forward; at December the year steps
    /// forward and the view moves to January. Returns true exactly when
    /// the year boundary was crossed, after which the caller must fetch
    /// the new year's dataset.
    pub fn next_month(&mut self) -> (crossed_year: bool)
        requires
            old(self).wf(),
            old(self).month == 12 ==> old(self).year < i32::MAX,
        ensures
            final(self).wf(),
            crossed_year == (old(self).month == 12),
            old(self).month == 12 ==> final(self).year == old(self).year + 1
                && final(self).month == 1,
            old(self).month != 12 ==> final(self).year == old(self).year && final(self).month
                == old(self).month + 1,
            final(self).holiday_data == old(self).holiday_data,
            final(self).dark_but_flag == old(self).dark_but_flag,
    {
        if self.month == 12 {
            self.year = self.year + 1;
            self.month = 1;
            true
        } else {
            self.month = self.month + 1;
            false
        }
    }

    /// Moves the view one month back; at January the year steps back and
    /// the view moves to December. Returns true exactly when the year
    /// boundary was crossed, after which the caller must fetch the new
    /// year's dataset.
    pub fn prev_month(&mut self) -> (crossed_year: bool)
        requires
            old(self).wf(),
            old(self).month == 1 ==> old(self).year > i32::MIN,
        ensures
            final(self).wf(),
            crossed_year == (old(self).month == 1),
            old(self).month == 1 ==> final(self).year == old(self).year - 1
                && final(self).month == 12,
            old(self).month != 1 ==> final(self).year == old(self).year && final(self).month
                == old(self).month - 1,
            final(self).holiday_data == old(self).holiday_data,
            final(self).dark_but_flag == old(self).dark_but_flag,
    {
        if self.month == 1 {
            self.year = self.year - 1;
            self.month = 12;
            true
        } else {
            self.month = self.month - 1;
            false
        }
    }

    /// Replaces the dataset on hand, after a fetch for a new year.
    pub fn set_holiday_data(&mut self, holiday_data: HolidayData)
        ensures
            final(self).holiday_data == holiday_data,
            final(self).year == old(self).year,
            final(self).month == old(self).month,
            final(self).dark_but_flag == old(self).dark_but_flag,
    {
        self.holiday_data = holiday_data;
    }

    /// Flips which theme button is shown, when the shown one is pressed.
    pub fn toggle_theme(&mut self)
        ensures
            final(self).dark_but_flag == !old(self).dark_but_flag,
            final(self).holiday_data == old(self).holiday_data,
            final(self).year == old(self).year,
            final(self).month == old(self).month,
    {
        self.dark_but_flag = !self.dark_but_flag;
    }
}

} // verus!
