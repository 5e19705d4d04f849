use blockary::block::Block;
use blockary::cal_day_plan::{
    day_plan_from_events, day_plans_from_events, event_date, extract_period, local_moment,
    CalEvent, EventTime, Moment, NoLocalTime,
};
use blockary::day_plan::{Day, Source};

fn at(day: u32, hour: u32, minute: u32) -> Option<Moment> {
    Some(Moment { day: Day { year: 2026, month: 1, day }, hour, minute })
}

fn event(start: Option<Moment>, end: Option<Moment>, description: Option<&str>) -> CalEvent {
    CalEvent { start, end, description: description.map(|d| d.to_string()) }
}

#[test]
fn period_of_an_event_of_one_day() {
    let e = event(at(16, 9, 0), at(16, 13, 5), None);
    assert_eq!(event_date(&e), Some(Day { year: 2026, month: 1, day: 16 }));
    assert_eq!(extract_period(&e), Some("09:00 - 13:05".to_string()));
    let over_night = event(at(16, 23, 0), at(17, 1, 0), None);
    assert_eq!(event_date(&over_night), None);
    assert_eq!(extract_period(&over_night), None);
    assert_eq!(extract_period(&event(at(16, 9, 0), None, None)), None);
    assert_eq!(extract_period(&event(None, at(16, 9, 0), None)), None);
    assert_eq!(extract_period(&event(at(1, 0, 0), at(1, 123, 4567), None)), Some("00:00 - 123:4567".to_string()));
}

#[test]
fn events_become_the_plans_of_their_days() {
    let events = vec![
        event(at(17, 10, 0), at(17, 10, 45), Some("Standup @work")),
        event(at(16, 9, 0), at(16, 13, 0), None),
        event(at(16, 23, 0), at(17, 1, 0), Some("over night")),
        event(None, None, Some("whole day")),
        event(at(17, 8, 0), at(17, 9, 0), None),
    ];
    let plans = day_plans_from_events(&events);
    assert_eq!(plans.len(), 2);
    assert_eq!(plans[0].origin, "Calendar");
    assert_eq!(plans[0].day, Some(Day { year: 2026, month: 1, day: 17 }));
    assert_eq!(plans[0].source, Source::Calendar);
    assert_eq!(
        plans[0].blocks,
        vec![
            Block::new("10:00 - 10:45", "Calendar", "Standup @work"),
            Block::new("08:00 - 09:00", "Calendar", "Busy"),
        ]
    );
    assert_eq!(plans[0].blocks[0].duration, 45);
    assert_eq!(plans[1].day, Some(Day { year: 2026, month: 1, day: 16 }));
    assert_eq!(plans[1].blocks, vec![Block::new("09:00 - 13:00", "Calendar", "Busy")]);
    assert_eq!(plans[1].blocks[0].duration, 240);

    let found = day_plan_from_events(&events, Day { year: 2026, month: 1, day: 16 });
    assert_eq!(found.blocks, vec![Block::new("09:00 - 13:00", "Calendar", "Busy")]);
    let empty = day_plan_from_events(&events, Day { year: 2026, month: 1, day: 18 });
    assert_eq!(empty.origin, "Calendar");
    assert_eq!(empty.day, Some(Day { year: 2026, month: 1, day: 18 }));
    assert!(empty.blocks.is_empty());
    assert!(day_plans_from_events(&Vec::new()).is_empty());
}

#[test]
fn times_of_a_calendar_are_read_as_local_time() {
    let noon = Moment { day: Day { year: 2026, month: 1, day: 16 }, hour: 12, minute: 30 };
    assert_eq!(local_moment(&EventTime::WholeDay), Ok(None));
    assert_eq!(local_moment(&EventTime::Floating(noon)), Ok(Some(noon)));
    assert_eq!(
        local_moment(&EventTime::Utc(noon)),
        Ok(Some(Moment { day: noon.day, hour: 9, minute: 30 }))
    );
    let early = Moment { day: Day { year: 2026, month: 1, day: 1 }, hour: 1, minute: 5 };
    assert_eq!(
        local_moment(&EventTime::Utc(early)),
        Ok(Some(Moment { day: Day { year: 2025, month: 12, day: 31 }, hour: 22, minute: 5 }))
    );
    let zoned = |tzid: &str| EventTime::WithTimezone { local: noon, tzid: tzid.to_string() };
    assert_eq!(local_moment(&zoned("+02:00")), Ok(Some(noon)));
    assert_eq!(local_moment(&zoned("-0930")), Ok(Some(noon)));
    assert_eq!(local_moment(&zoned("Europe/Berlin")), Err(NoLocalTime));
    assert_eq!(local_moment(&zoned("")), Err(NoLocalTime));
    let no_day = Moment { day: Day { year: 2026, month: 2, day: 30 }, hour: 12, minute: 0 };
    assert_eq!(local_moment(&EventTime::Utc(no_day)), Err(NoLocalTime));
    assert_eq!(local_moment(&EventTime::Floating(no_day)), Ok(Some(no_day)));
    let far = Moment { day: Day { year: 10000, month: 1, day: 1 }, hour: 0, minute: 0 };
    assert_eq!(local_moment(&EventTime::Utc(far)), Err(NoLocalTime));
    assert_eq!(
        local_moment(&EventTime::WithTimezone { local: far, tzid: "+01:00".to_string() }),
        Err(NoLocalTime)
    );
    let last = Moment { day: Day { year: 9999, month: 12, day: 31 }, hour: 23, minute: 59 };
    assert_eq!(
        local_moment(&EventTime::Utc(last)),
        Ok(Some(Moment { day: last.day, hour: 20, minute: 59 }))
    );
}
