//! Plans made of the events of a calendar: the events that start and end
//! on the same day become the blocks of that day's plan.
use crate::block::{
    block_views, block_with, duration_of, lemma_duration_of_written_range, range_text, Block,
    BlockModel,
};
use crate::day_plan::{contains_day, plan_views, Day, DayPlan, DayPlanModel, SourceModel};
use crate::text::{push_two_wide, two_wide};
use vstd::prelude::*;

verus! {

/// A minute of a day, in local time.
#[derive(Clone, Copy, Debug, PartialEq, Eq, Structural)]
pub struct Moment {
    pub day: Day,
    pub hour: u32,
    pub minute: u32,
}

/// How a calendar gives the start or the end of an event.
#[derive(Debug, PartialEq, Eq)]
pub enum EventTime {
    /// A day without a time.
    WholeDay,
    /// A time without a zone; it is taken as it stands.
    Floating(Moment),
    /// A time in UTC.
    Utc(Moment),
    /// A local time in the zone that `tzid` names by its offset from UTC.
    WithTimezone { local: Moment, tzid: String },
}

/// What a time of a calendar is, as plain mathematical values.
pub enum EventTimeModel {
    WholeDay,
    Floating(Moment),
    Utc(Moment),
    WithTimezone { local: Moment, tzid: Seq<char> },
}

impl View for EventTime {
    type V = EventTimeModel;

    open spec fn view(&self) -> EventTimeModel {
        match self {
            EventTime::WholeDay => EventTimeModel::WholeDay,
            EventTime::Floating(m) => EventTimeModel::Floating(*m),
            EventTime::Utc(m) => EventTimeModel::Utc(*m),
            EventTime::WithTimezone { local, tzid } => EventTimeModel::WithTimezone {
                local: *local,
                tzid: tzid@,
            },
        }
    }
}

/// A time of a calendar has no local time: its zone is not an offset from
/// UTC, or the time is out of the calendar's range.
#[derive(Clone, Copy, Debug, PartialEq, Eq, Structural)]
pub struct NoLocalTime;

/// The offset from UTC in which times given in UTC are read.
pub open spec fn home_offset() -> Seq<char> {
    seq!['-', '0', '3', ':', '0', '0']
}

/// The last year for which times are moved between zones.
pub const LAST_YEAR: u32 = 9999;

/// The local time, in the zone of the given offset from UTC, of a moment of
/// UTC, as `chrono` computes it; none where the offset is not one or the
/// moment is not in the calendar.
pub uninterp spec fn utc_seen_in(at: Moment, offset: Seq<char>) -> Option<Moment>;

/// The local time, in the zone of the given offset from UTC, of a moment
/// that is given in that zone, as `chrono` computes it; none where the
/// offset is not one or the moment is not in the calendar.
pub uninterp spec fn local_seen_in(at: Moment, offset: Seq<char>) -> Option<Moment>;

/// Reads the offset with `FixedOffset::from_str`, makes the moment of UTC
/// with `NaiveDate::from_ymd_opt`, `NaiveDate::and_hms_opt` and
/// `NaiveDateTime::and_utc`, and asks `DateTime::with_timezone` and
/// `DateTime::naive_local` for the local time. The result depends on the
/// moment and the offset alone and is named `utc_seen_in`. Of the result it
/// is only claimed that its hour lies below 24 and its minute below 60, as
/// `Timelike::hour` and `Timelike::minute` promise. Years behind
/// `LAST_YEAR` are left out: far enough from the end of the calendar's
/// range, no local time falls out of it.
#[verifier::external_body]
fn utc_in_zone(at: Moment, offset: &str) -> (r: Option<Moment>)
    requires
        at.day.year <= LAST_YEAR,
    ensures
        r == utc_seen_in(at, offset@),
        r matches Some(m) ==> m.hour < 24 && m.minute < 60,
{
    let zone = offset.parse::<chrono::FixedOffset>().ok()?;
    let date = chrono::NaiveDate::from_ymd_opt(i32::try_from(at.day.year).ok()?, at.day.month, at.day.day)?;
    let local = date.and_hms_opt(at.hour, at.minute, 0)?.and_utc().with_timezone(&zone).naive_local();
    let year = u32::try_from(chrono::Datelike::year(&local)).ok()?;
    let day = Day { year, month: chrono::Datelike::month(&local), day: chrono::Datelike::day(&local) };
    Some(Moment { day, hour: chrono::Timelike::hour(&local), minute: chrono::Timelike::minute(&local) })
}

/// Reads the offset with `FixedOffset::from_str`, makes the moment with
/// `NaiveDate::from_ymd_opt` and `NaiveDate::and_hms_opt`, and asks
/// `NaiveDateTime::and_local_timezone` and `DateTime::naive_local` for the
/// local time in that zone. The result depends on the moment and the offset
/// alone and is named `local_seen_in`. Where there is a result, it is
/// claimed to be the moment that was given, with an hour below 24 and a
/// minute below 60: a zone of a fixed offset has one time of UTC for every
/// local time, and the local time of that is the one it was made from.
/// Years behind `LAST_YEAR` are left out, as for `utc_in_zone`.
#[verifier::external_body]
fn local_in_zone(at: Moment, offset: &str) -> (r: Option<Moment>)
    requires
        at.day.year <= LAST_YEAR,
    ensures
        r == local_seen_in(at, offset@),
        r matches Some(m) ==> m == at && m.hour < 24 && m.minute < 60,
{
    let zone = offset.parse::<chrono::FixedOffset>().ok()?;
    let date = chrono::NaiveDate::from_ymd_opt(i32::try_from(at.day.year).ok()?, at.day.month, at.day.day)?;
    let local = date.and_hms_opt(at.hour, at.minute, 0)?.and_local_timezone(zone).single()?.naive_local();
    let year = u32::try_from(chrono::Datelike::year(&local)).ok()?;
    let day = Day { year, month: chrono::Datelike::month(&local), day: chrono::Datelike::day(&local) };
    Some(Moment { day, hour: chrono::Timelike::hour(&local), minute: chrono::Timelike::minute(&local) })
}

/// The local time that a moment of another zone stands for, where there is
/// one.
pub open spec fn seen_or_none(at: Moment, seen: Option<Moment>) -> Result<Option<Moment>, NoLocalTime> {
    if at.day.year > LAST_YEAR {
        Err(NoLocalTime)
    } else {
        match seen {
            Some(local) => Ok(Some(local)),
            None => Err(NoLocalTime),
        }
    }
}

/// The local time of a time of a calendar. A whole day has none. A time
/// without a zone is taken as it stands; a time in UTC is read three hours
/// behind UTC; a time with a zone is read in that zone.
pub open spec fn local_time_of(t: EventTimeModel) -> Result<Option<Moment>, NoLocalTime> {
    match t {
        EventTimeModel::WholeDay => Ok(None),
        EventTimeModel::Floating(m) => Ok(Some(m)),
        EventTimeModel::Utc(m) => seen_or_none(m, utc_seen_in(m, home_offset())),
        EventTimeModel::WithTimezone { local, tzid } => seen_or_none(
            local,
            local_seen_in(local, tzid),
        ),
    }
}

/// The local time of a time of a calendar; none for a whole day. A time
/// that is given with its zone is its own local time; a time that was moved
/// from UTC is a time of day.
pub fn local_moment(t: &EventTime) -> (r: Result<Option<Moment>, NoLocalTime>)
    ensures
        r == local_time_of(t@),
        t@ matches EventTimeModel::WithTimezone { local, tzid } ==> (r matches Ok(Some(m)) ==> m
            == local),
        t@ is Utc || t@ is WithTimezone ==> (r matches Ok(Some(m)) ==> m.hour < 24 && m.minute
            < 60),
{
    match t {
        EventTime::WholeDay => Ok(None),
        EventTime::Floating(m) => Ok(Some(*m)),
        EventTime::Utc(m) => {
            if m.day.year > LAST_YEAR {
                return Err(NoLocalTime);
            }
            proof {
                reveal_strlit("-03:00");
                assert("-03:00"@ =~= home_offset());
            }
            match utc_in_zone(*m, "-03:00") {
                Some(local) => Ok(Some(local)),
                None => Err(NoLocalTime),
            }
        },
        EventTime::WithTimezone { local, tzid } => {
            if local.day.year > LAST_YEAR {
                return Err(NoLocalTime);
            }
            match local_in_zone(*local, tzid.as_str()) {
                Some(local) => Ok(Some(local)),
                None => Err(NoLocalTime),
            }
        },
    }
}

/// What the plans need of an event of a calendar. An event that is given
/// for whole days has neither start nor end here.
#[derive(Debug, PartialEq, Eq)]
pub struct CalEvent {
    pub start: Option<Moment>,
    pub end: Option<Moment>,
    pub description: Option<String>,
}

/// What an event is, as plain mathematical values.
pub struct CalEventModel {
    pub start: Option<Moment>,
    pub end: Option<Moment>,
    pub description: Option<Seq<char>>,
}

impl View for CalEvent {
    type V = CalEventModel;

    open spec fn view(&self) -> CalEventModel {
        CalEventModel {
            start: self.start,
            end: self.end,
            description: match self.description {
                Some(d) => Some(d@),
                None => None,
            },
        }
    }
}

/// The models of a sequence of events.
pub open spec fn cal_event_views(events: Seq<CalEvent>) -> Seq<CalEventModel> {
    events.map_values(|e: CalEvent| e@)
}

/// The origin of the blocks of a calendar.
pub open spec fn calendar_origin() -> Seq<char> {
    seq!['C', 'a', 'l', 'e', 'n', 'd', 'a', 'r']
}

/// The description of an event that has none.
pub open spec fn busy() -> Seq<char> {
    seq!['B', 'u', 's', 'y']
}

/// The day of an event that starts and ends on the same day.
pub open spec fn event_day(e: CalEventModel) -> Option<Day> {
    match (e.start, e.end) {
        (Some(s), Some(t)) => if s.day == t.day {
            Some(s.day)
        } else {
            None
        },
        _ => None,
    }
}

/// The period from one moment to another, written `HH:MM - HH:MM`.
pub open spec fn period_text(start: Moment, end: Moment) -> Seq<char> {
    two_wide(start.hour as nat) + seq![':'] + two_wide(start.minute as nat) + seq![' ', '-', ' ']
        + two_wide(end.hour as nat) + seq![':'] + two_wide(end.minute as nat)
}

/// The block of an event that starts and ends on the same day: its period
/// from start to end, and its description, or `Busy` where it has none.
pub open spec fn event_block(e: CalEventModel) -> BlockModel {
    block_with(
        period_text(e.start->0, e.end->0),
        calendar_origin(),
        match e.description {
            Some(d) => d,
            None => busy(),
        },
    )
}

/// The days of the events that start and end on the same day, each where
/// it first occurs.
pub open spec fn event_days(events: Seq<CalEventModel>) -> Seq<Day>
    decreases events.len(),
{
    if events.len() == 0 {
        Seq::<Day>::empty()
    } else {
        let seen = event_days(events.drop_last());
        match event_day(events.last()) {
            Some(day) => if seen.contains(day) {
                seen
            } else {
                seen.push(day)
            },
            None => seen,
        }
    }
}

/// The blocks of the events of a day, in the order of the events.
pub open spec fn blocks_on(events: Seq<CalEventModel>, day: Day) -> Seq<BlockModel>
    decreases events.len(),
{
    if events.len() == 0 {
        Seq::<BlockModel>::empty()
    } else {
        let rest = blocks_on(events.drop_last(), day);
        if event_day(events.last()) == Some(day) {
            rest.push(event_block(events.last()))
        } else {
            rest
        }
    }
}

/// The plan of a calendar for a day.
pub open spec fn calendar_plan(events: Seq<CalEventModel>, day: Day) -> DayPlanModel {
    DayPlanModel {
        origin: calendar_origin(),
        blocks: blocks_on(events, day),
        source: SourceModel::Calendar,
        day: Some(day),
    }
}

/// The plans of a calendar: one for each day on which an event starts and
/// ends, in the order in which the days first occur.
pub open spec fn plans_of_events(events: Seq<CalEventModel>) -> Seq<DayPlanModel> {
    Seq::new(event_days(events).len(), |i: int| calendar_plan(events, event_days(events)[i]))
}

/// The first plan that carries the day, or none.
pub open spec fn plan_index(plans: Seq<DayPlanModel>, day: Day, i: int) -> int
    decreases plans.len() - i,
{
    if 0 <= i < plans.len() && plans[i].day != Some(day) {
        plan_index(plans, day, i + 1)
    } else {
        i
    }
}

/// The plan for a day among these: the first that carries the day, or an
/// empty plan of the calendar for that day.
pub open spec fn plan_for(plans: Seq<DayPlanModel>, day: Day) -> DayPlanModel {
    let i = plan_index(plans, day, 0);
    if i < plans.len() {
        plans[i]
    } else {
        DayPlanModel {
            origin: calendar_origin(),
            blocks: Seq::<BlockModel>::empty(),
            source: SourceModel::Calendar,
            day: Some(day),
        }
    }
}

/// The block of an event lasts from the event's start to its end, where
/// the two are times of day and the end is no earlier than the start.
pub proof fn lemma_event_duration(start: Moment, end: Moment)
    requires
        start.hour < 24,
        start.minute < 60,
        end.hour < 24,
        end.minute < 60,
        end.hour * 60 + end.minute >= start.hour * 60 + start.minute,
    ensures
        duration_of(period_text(start, end)) == (end.hour * 60 + end.minute) - (start.hour * 60
            + start.minute),
{
    reveal_with_fuel(crate::text::decimal, 3);
    assert(period_text(start, end) =~= range_text(
        start.hour as int,
        start.minute as int,
        end.hour as int,
        end.minute as int,
    ));
    lemma_duration_of_written_range(
        start.hour as int,
        start.minute as int,
        end.hour as int,
        end.minute as int,
    );
}

/// The day of an event that starts and ends on the same day.
pub fn event_date(event: &CalEvent) -> (r: Option<Day>)
    ensures
        r == event_day(event@),
{
    match (event.start, event.end) {
        (Some(s), Some(t)) => {
            if s.day == t.day {
                Some(s.day)
            } else {
                None
            }
        },
        _ => None,
    }
}

/// The period of an event that starts and ends on the same day.
pub fn extract_period(event: &CalEvent) -> (r: Option<String>)
    ensures
        r is Some <==> event_day(event@) is Some,
        r matches Some(p) ==> p@ == period_text(event@.start->0, event@.end->0),
{
    match (event.start, event.end) {
        (Some(s), Some(t)) => {
            if s.day == t.day {
                let mut p = String::new();
                push_two_wide(&mut p, s.hour);
                p.push(':');
                push_two_wide(&mut p, s.minute);
                p.push(' ');
                p.push('-');
                p.push(' ');
                push_two_wide(&mut p, t.hour);
                p.push(':');
                push_two_wide(&mut p, t.minute);
                assert(p@ =~= period_text(s, t));
                Some(p)
            } else {
                None
            }
        },
        _ => None,
    }
}

fn days_of_events(events: &Vec<CalEvent>) -> (days: Vec<Day>)
    ensures
        days@ == event_days(cal_event_views(events@)),
{
    let ghost all = cal_event_views(events@);
    let mut days: Vec<Day> = Vec::new();
    let mut i: usize = 0;
    assert(all.take(0) =~= Seq::<CalEventModel>::empty());
    while i < events.len()
        invariant
            i <= events.len(),
            all == cal_event_views(events@),
            days@ == event_days(all.take(i as int)),
        decreases events.len() - i,
    {
        proof {
            assert(all.take(i + 1).drop_last() =~= all.take(i as int));
            assert(all.take(i + 1).last() == events@[i as int]@);
        }
        match event_date(&events[i]) {
            Some(day) => {
                if !contains_day(&days, day) {
                    days.push(day);
                }
            },
            None => {},
        }
        i += 1;
    }
    assert(all.take(i as int) =~= all);
    days
}

/// The blocks of the events of a day, in the order of the events.
pub fn blocks_of_day(events: &Vec<CalEvent>, day: Day) -> (blocks: Vec<Block>)
    ensures
        block_views(blocks@) == blocks_on(cal_event_views(events@), day),
{
    let ghost all = cal_event_views(events@);
    let mut blocks: Vec<Block> = Vec::new();
    let mut i: usize = 0;
    assert(all.take(0) =~= Seq::<CalEventModel>::empty());
    assert(block_views(blocks@) =~= Seq::<BlockModel>::empty());
    while i < events.len()
        invariant
            i <= events.len(),
            all == cal_event_views(events@),
            block_views(blocks@) == blocks_on(all.take(i as int), day),
        decreases events.len() - i,
    {
        let ghost before = block_views(blocks@);
        proof {
            assert(all.take(i + 1).drop_last() =~= all.take(i as int));
            assert(all.take(i + 1).last() == events@[i as int]@);
        }
        let event = &events[i];
        match extract_period(event) {
            Some(period) => {
                if event_date(event) == Some(day) {
                    proof {
                        reveal_strlit("Calendar");
                        reveal_strlit("Busy");
                        assert("Calendar"@ =~= calendar_origin());
                        assert("Busy"@ =~= busy());
                    }
                    let block = match &event.description {
                        Some(d) => Block::new(period.as_str(), "Calendar", d.as_str()),
                        None => Block::new(period.as_str(), "Calendar", "Busy"),
                    };
                    blocks.push(block);
                    assert(block_views(blocks@) =~= before.push(event_block(event@)));
                }
            },
            None => {},
        }
        i += 1;
    }
    assert(all.take(i as int) =~= all);
    blocks
}

/// The plans of a calendar: one for each day on which an event starts and
/// ends, with the events of that day as its blocks.
pub fn day_plans_from_events(events: &Vec<CalEvent>) -> (plans: Vec<DayPlan>)
    ensures
        plan_views(plans@) == plans_of_events(cal_event_views(events@)),
{
    let days = days_of_events(events);
    let ghost wanted = plans_of_events(cal_event_views(events@));
    let mut plans: Vec<DayPlan> = Vec::new();
    let mut i: usize = 0;
    while i < days.len()
        invariant
            i <= days.len(),
            days@ == event_days(cal_event_views(events@)),
            wanted == plans_of_events(cal_event_views(events@)),
            plans@.len() == i,
            forall|k: int| 0 <= k < i ==> (#[trigger] plans@[k])@ == wanted[k],
        decreases days.len() - i,
    {
        proof {
            reveal_strlit("Calendar");
            assert("Calendar"@ =~= calendar_origin());
        }
        let plan = DayPlan::from_calendar("Calendar", blocks_of_day(events, days[i]), days[i]);
        plans.push(plan);
        i += 1;
    }
    assert(plan_views(plans@) =~= wanted);
    plans
}

/// The plan of a calendar for one day: the plan of its events of that day,
/// or an empty plan where no event starts and ends on it.
pub fn day_plan_from_events(events: &Vec<CalEvent>, for_day: Day) -> (plan: DayPlan)
    ensures
        plan@ == plan_for(plans_of_events(cal_event_views(events@)), for_day),
{
    let plans = day_plans_from_events(events);
    let ghost all = plan_views(plans@);
    let mut i: usize = 0;
    while i < plans.len()
        invariant
            i <= plans.len(),
            all == plan_views(plans@),
            all == plans_of_events(cal_event_views(events@)),
            plan_index(all, for_day, 0) == plan_index(all, for_day, i as int),
        decreases plans.len() - i,
    {
        assert(all[i as int] == plans@[i as int]@);
        let found = match plans[i].day {
            Some(d) => d == for_day,
            None => false,
        };
        if found {
            return plans[i].clone();
        }
        i += 1;
    }
    proof {
        reveal_strlit("Calendar");
        assert("Calendar"@ =~= calendar_origin());
    }
    let none: Vec<Block> = Vec::new();
    assert(block_views(none@) =~= Seq::<BlockModel>::empty());
    DayPlan::from_calendar("Calendar", none, for_day)
}

} // verus!
