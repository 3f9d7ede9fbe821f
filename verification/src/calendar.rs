//! The date-picker widget's state and layout arithmetic.  The state is a
//! plain civil date; rendering into a terminal buffer belongs to the
//! surrounding program, which reads the state through this module.
use crate::datetime::{
    civil_from_days, civil_to_days, days_from_civil, valid_ymd, DateTime, DAY_LIMIT,
};
use vstd::prelude::*;

verus! {

/// Relies on `ratatui::style::Style`, the opaque style value a widget
/// carries; nothing of its contents is stated.
#[verifier::external_type_specification]
#[verifier::external_body]
pub struct ExStyle(ratatui::style::Style);

/// Relies on `ratatui::widgets::Block`, the opaque frame a widget may be
/// wrapped in; it is only carried through, never inspected.
#[verifier::external_type_specification]
#[verifier::external_body]
pub struct ExBlock<'a>(ratatui::widgets::Block<'a>);

/// Relies on `ratatui::style::Style::default`: some unstyled style value.
#[verifier::external_body]
fn default_style() -> (s: ratatui::style::Style) {
    ratatui::style::Style::default()
}

/// The calendar widget: an optional frame and a base style.
#[derive(Debug)]
pub struct Calendar<'a> {
    block: Option<ratatui::widgets::Block<'a>>,
    style: ratatui::style::Style,
}

impl<'a> Calendar<'a> {
    /// The frame the widget was given, if any.
    pub closed spec fn spec_block(self) -> Option<ratatui::widgets::Block<'a>> {
        self.block
    }

    /// The widget's base style.
    pub closed spec fn spec_style(self) -> ratatui::style::Style {
        self.style
    }

    /// A calendar without a frame.
    pub fn new() -> (r: Self)
        ensures
            r.spec_block() is None,
    {
        Self { block: None, style: default_style() }
    }

    /// The same calendar, framed by `block`; the style is untouched.
    pub fn block(self, block: ratatui::widgets::Block<'a>) -> (r: Self)
        ensures
            r.spec_block() == Some(block),
            r.spec_style() == self.spec_style(),
    {
        Self { block: Some(block), ..self }
    }

    /// Hands the frame back out for rendering; the style is untouched.
    pub fn take_block(self) -> (r: (Option<ratatui::widgets::Block<'a>>, Self))
        ensures
            r.0 == self.spec_block(),
            r.1.spec_block() is None,
            r.1.spec_style() == self.spec_style(),
    {
        let Calendar { block, style } = self;
        (block, Calendar { block: None, style })
    }
}

/// The day the picker currently points at.
#[derive(Clone, Copy, Debug, PartialEq, Eq, Structural)]
pub struct CalendarState {
    pub year: i64,
    pub month: u8,
    pub day: u8,
}

impl CalendarState {
    /// Whether the picker points at a real day inside the supported
    /// range.
    pub open spec fn valid(self) -> bool {
        valid_ymd(self.year as int, self.month as int, self.day as int) && -(DAY_LIMIT as int)
            <= days_from_civil(self.year as int, self.month as int, self.day as int) <= DAY_LIMIT
            as int
    }

    /// The day number the picker points at.
    pub open spec fn day_number(self) -> int {
        days_from_civil(self.year as int, self.month as int, self.day as int)
    }

    /// The picker pointed at the day of `datetime`.
    pub fn from_datetime(datetime: &DateTime) -> (r: CalendarState)
        requires
            datetime.valid(),
            -(DAY_LIMIT as int) <= days_from_civil(
                datetime.year as int,
                datetime.month as int,
                datetime.day as int,
            ) <= DAY_LIMIT as int,
        ensures
            r.year == datetime.year && r.month == datetime.month && r.day == datetime.day,
            r.valid(),
    {
        CalendarState { year: datetime.year, month: datetime.month, day: datetime.day }
    }

    /// The instant the picked day begins: midnight, UTC.
    pub fn to_utc_datetime(&self) -> (r: DateTime)
        requires
            self.valid(),
        ensures
            r.valid(),
            r.year == self.year && r.month == self.month && r.day == self.day,
            r.hour == 0 && r.minute == 0 && r.second == 0,
    {
        DateTime {
            year: self.year,
            month: self.month,
            day: self.day,
            hour: 0,
            minute: 0,
            second: 0,
        }
    }

    /// Moves the picker `days` days back.
    pub fn decrement(&mut self, days: i64)
        requires
            old(self).valid(),
            -(DAY_LIMIT as int) <= old(self).day_number() - days <= DAY_LIMIT as int,
        ensures
            final(self).valid(),
            final(self).day_number() == old(self).day_number() - days,
    {
        let d = civil_to_days(self.year, self.month, self.day);
        let target: i128 = d as i128 - days as i128;
        let (y, m, dd) = civil_from_days(target as i64);
        self.year = y;
        self.month = m;
        self.day = dd;
    }

    /// Moves the picker `days` days forward.
    pub fn increment(&mut self, days: i64)
        requires
            old(self).valid(),
            -(DAY_LIMIT as int) <= old(self).day_number() + days <= DAY_LIMIT as int,
        ensures
            final(self).valid(),
            final(self).day_number() == old(self).day_number() + days,
    {
        let d = civil_to_days(self.year, self.month, self.day);
        let target: i128 = d as i128 + days as i128;
        let (y, m, dd) = civil_from_days(target as i64);
        self.year = y;
        self.month = m;
        self.day = dd;
    }
}

/// Horizontal offset that centres a line of `text_width` cells inside an
/// area `area_width` wide that begins at `area_offset`.
pub fn centered_line_offset(text_width: u16, area_width: u16, area_offset: u16) -> (r: u16)
    requires
        area_width / 2 + area_offset <= u16::MAX,
    ensures
        r == if text_width / 2 <= area_width / 2 {
            area_width / 2 - text_width / 2 + area_offset
        } else {
            area_offset as int
        },
{
    let half_area = area_width / 2;
    let half_text = text_width / 2;
    if half_text <= half_area {
        half_area - half_text + area_offset
    } else {
        area_offset
    }
}

/// A day of the week, as the calendar lays its columns out.
#[derive(Clone, Copy, Debug, PartialEq, Eq, Structural)]
pub enum Weekday {
    Sun,
    Mon,
    Tue,
    Wed,
    Thu,
    Fri,
    Sat,
}

/// Column offset of a day cell: three cells per weekday column, one
/// extra cell of padding for single-digit days.
pub fn day_x_offset(day: u32, weekday: Weekday) -> (r: u16)
    ensures
        ({
            let col: u16 = match weekday {
                Weekday::Sun => 0,
                Weekday::Mon => 3,
                Weekday::Tue => 6,
                Weekday::Wed => 9,
                Weekday::Thu => 12,
                Weekday::Fri => 15,
                Weekday::Sat => 18,
            };
            r == if day < 10 {
                col + 1
            } else {
                col as int
            }
        }),
{
    let weekday_offset: u16 = match weekday {
        Weekday::Sun => 0,
        Weekday::Mon => 3,
        Weekday::Tue => 6,
        Weekday::Wed => 9,
        Weekday::Thu => 12,
        Weekday::Fri => 15,
        Weekday::Sat => 18,
    };
    if day < 10 {
        weekday_offset + 1
    } else {
        weekday_offset
    }
}

} // verus!
