use blockary::block::Block;
use blockary::day_plan::{Day, DayPlan};
use blockary::sync::{
    count_shared, count_shared_notes, count_skipped, day_plans_by_note_id, group_by_day,
    is_note_file, synchronize, synchronize_group,
};

fn block(period: &str, origin: &str, desc: &str) -> Block {
    Block::new(period, origin, desc)
}

fn descriptions(plan: &DayPlan) -> Vec<String> {
    plan.blocks.iter().map(|b| format!("{}|{}|{}", b.period, b.origin, b.desc)).collect()
}

fn two_origins() -> Vec<DayPlan> {
    vec![
        DayPlan::new(
            "Work",
            vec![
                block("14:00 - 15:00", "Work", "Review"),
                block("09:00 - 10:00", "Personal", "stale copy"),
                block("08:00 - 09:00", "Work", "Mail"),
            ],
            "/work/2025-11-12.md",
            "/work",
        ),
        DayPlan::new(
            "Personal",
            vec![
                block("12:00 - 12:30", "Personal", "Lunch"),
                block("", "Personal", "Call mum"),
                block("08:00 - 09:00", "Work", "old Mail"),
            ],
            "/home/2025/2025-11-12.md",
            "/home",
        ),
    ]
}

#[test]
fn both_plans_get_the_blocks_that_the_two_origins_own() {
    let groups = synchronize(&two_origins());
    assert_eq!(groups.len(), 1);
    assert_eq!(groups[0].day, Day { year: 2025, month: 11, day: 12 });
    assert_eq!(groups[0].plans.len(), 2);
    let merged = vec![
        "|Personal|Call mum",
        "08:00 - 09:00|Work|Mail",
        "12:00 - 12:30|Personal|Lunch",
        "14:00 - 15:00|Work|Review",
    ];
    assert_eq!(descriptions(&groups[0].plans[0]), merged);
    assert_eq!(descriptions(&groups[0].plans[1]), merged);
    assert_eq!(groups[0].plans[0].origin, "Work");
    assert_eq!(groups[0].plans[1].origin, "Personal");
    assert_eq!(groups[0].plans[1].try_note_id(), Some("2025/2025-11-12.md".to_string()));
}

#[test]
fn synchronizing_again_gives_the_same_plans() {
    let once = synchronize_group(&two_origins());
    let twice = synchronize_group(&once);
    assert_eq!(twice.len(), 2);
    for i in 0..2 {
        assert_eq!(twice[i].blocks, once[i].blocks);
        assert_eq!(twice[i].origin, once[i].origin);
    }
}

#[test]
fn a_single_plan_keeps_its_own_blocks() {
    let plan = DayPlan::new(
        "Work",
        vec![block("08:00", "Work", "a"), block("09:00", "Home", "b")],
        "/w/2025-01-02.md",
        "/w",
    );
    let groups = synchronize(&vec![plan]);
    assert_eq!(groups.len(), 1);
    assert_eq!(descriptions(&groups[0].plans[0]), vec!["08:00|Work|a"]);
}

#[test]
fn plans_are_grouped_by_day_in_order_of_first_appearance() {
    let plans = vec![
        DayPlan::new("Work", Vec::new(), "/w/2025-01-02.md", "/w"),
        DayPlan::new("Work", Vec::new(), "/w/readme.md", "/w"),
        DayPlan::new("Work", Vec::new(), "/w/2025-01-01.md", "/w"),
        DayPlan::new("Home", Vec::new(), "/h/2025-01-02.md", "/h"),
        DayPlan::from_calendar("Calendar", vec![block("10:00 - 11:00", "Calendar", "Busy")], Day { year: 2025, month: 1, day: 1 }),
        DayPlan::new("Home", Vec::new(), "/h/2025-01-03.md", "/h"),
    ];
    assert_eq!(count_skipped(&plans), 1);
    let groups = group_by_day(&plans);
    let days: Vec<u32> = groups.iter().map(|g| g.day.day).collect();
    assert_eq!(days, vec![2, 1, 3]);
    let origins: Vec<Vec<String>> =
        groups.iter().map(|g| g.plans.iter().map(|p| p.origin.clone()).collect()).collect();
    assert_eq!(origins, vec![vec!["Work", "Home"], vec!["Work", "Calendar"], vec!["Home"]]);
    assert_eq!(count_shared(&groups), 2);
    let synced = synchronize(&plans);
    assert_eq!(descriptions(&synced[1].plans[0]), vec!["10:00 - 11:00|Calendar|Busy"]);
    assert_eq!(descriptions(&synced[1].plans[1]), vec!["10:00 - 11:00|Calendar|Busy"]);
    assert!(synced[0].plans[0].blocks.is_empty());
    assert!(synchronize(&Vec::new()).is_empty());
}

#[test]
fn notes_are_the_files_that_end_with_md() {
    assert!(is_note_file("2025-11-12.md"));
    assert!(is_note_file(".md"));
    assert!(!is_note_file("md"));
    assert!(!is_note_file(""));
    assert!(!is_note_file("note.MD"));
    assert!(!is_note_file("note.md "));
    assert!(!is_note_file("note.mdx"));
    assert!(is_note_file("caf\u{e9}.md"));
}

#[test]
fn plans_are_grouped_by_the_place_of_their_note() {
    let plans = vec![
        DayPlan::new("Work", Vec::new(), "/w/2025/2025-01-02.md", "/w"),
        DayPlan::new("Lost", Vec::new(), "/elsewhere/2025/2025-01-02.md", "/l"),
        DayPlan::new("Home", Vec::new(), "/h/2025/2025-01-03.md", "/h"),
        DayPlan::new("Home", Vec::new(), "/h/2025/2025-01-02.md", "/h/"),
        DayPlan::from_calendar("Calendar", Vec::new(), Day { year: 2025, month: 1, day: 2 }),
        DayPlan::new("Hobby", Vec::new(), "/x/y/2025/2025-01-02.md", "/x/y"),
    ];
    let groups = day_plans_by_note_id(&plans);
    let ids: Vec<String> = groups.iter().map(|g| g.note_id.clone()).collect();
    assert_eq!(ids, vec!["2025/2025-01-02.md", "2025/2025-01-03.md"]);
    let origins: Vec<Vec<String>> =
        groups.iter().map(|g| g.plans.iter().map(|p| p.origin.clone()).collect()).collect();
    assert_eq!(origins, vec![vec!["Work", "Home", "Hobby"], vec!["Home"]]);
    assert_eq!(count_shared_notes(&groups), 1);
    assert!(day_plans_by_note_id(&Vec::new()).is_empty());
}
