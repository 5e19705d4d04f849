use blockary::block::Block;
use blockary::cmd_spent::{is_reportable, level_minutes, percentage, plans_in_range, report_rows};
use blockary::day_plan::{Day, DayPlan};
use blockary::time_summary::{time_per_tag, TagTime};

fn node(tag: &str, minutes: u16, sub_tags: Vec<TagTime>) -> TagTime {
    TagTime { tag: tag.to_string(), minutes, sub_tags }
}

#[test]
fn rows_follow_the_tree() {
    let nodes = vec![
        node("work", 90, vec![node("mail", 30, vec![node("inbox", 30, vec![node("zero", 30, vec![])])]), node("code", 60, vec![])]),
        node("home", 7, vec![]),
    ];
    assert!(is_reportable(&nodes));
    assert_eq!(level_minutes(&nodes), 97);
    let rows = report_rows(&nodes, 0);
    let expected: Vec<Vec<&str>> = vec![
        vec!["work", "", "", "01:30", " 93%"],
        vec!["", "mail", "", "00:30", " 33%"],
        vec!["", "", "inbox", "00:30", "100%"],
        vec!["", "", "", "zero", "00:30", "100%"],
        vec!["", "code", "", "01:00", " 67%"],
        vec![""],
        vec!["home", "", "", "00:07", "  7%"],
        vec![""],
    ];
    assert_eq!(rows, expected);
    assert!(report_rows(&Vec::new(), 0).is_empty());
    assert_eq!(report_rows(&vec![node("a", 65535, vec![])], 1), vec![vec!["", "a", "", "1092:15", "100%"]]);
}

#[test]
fn level_without_minutes_cannot_be_reported() {
    assert!(is_reportable(&Vec::new()));
    assert!(!is_reportable(&vec![node("a", 0, vec![])]));
    assert!(!is_reportable(&vec![node("a", 5, vec![node("b", 0, vec![])])]));
    assert!(is_reportable(&vec![node("a", 0, vec![]), node("b", 1, vec![])]));
}

#[test]
fn percentage_is_rounded_to_the_nearest() {
    assert_eq!(percentage(1, 3), 33);
    assert_eq!(percentage(2, 3), 67);
    assert_eq!(percentage(1, 8), 13);
    assert_eq!(percentage(1, 200), 1);
    assert_eq!(percentage(1, 201), 0);
    assert_eq!(percentage(0, 5), 0);
    assert_eq!(percentage(5, 5), 100);
    assert_eq!(percentage(65535, 65535), 100);
}

#[test]
fn report_of_parsed_blocks() {
    let a = Block::new("08:00 - 09:00", "Work", "Dishes @chores");
    let b = Block::new("09:00 - 09:30", "Work", "Taxes @personal/tasks");
    let rows = report_rows(&time_per_tag(&vec![&a, &b], 0), 0);
    let expected: Vec<Vec<&str>> = vec![
        vec!["chores", "", "", "01:00", " 67%"],
        vec![""],
        vec!["personal", "", "", "00:30", " 33%"],
        vec!["", "tasks", "", "00:30", "100%"],
        vec![""],
    ];
    assert_eq!(rows, expected);
}

#[test]
fn plans_of_the_range_are_kept_in_their_order() {
    let plan = |path: &str| DayPlan::new("Work", Vec::new(), path, "/w");
    let plans = vec![
        plan("/w/2025-11-16.md"),
        plan("/w/2025-11-09.md"),
        plan("/w/notes.md"),
        plan("/w/2025-11-10.md"),
        plan("/w/2025-11-17.md"),
        plan("/w/2025-11-12.md"),
    ];
    let from = Day { year: 2025, month: 11, day: 10 };
    let to = Day { year: 2025, month: 11, day: 16 };
    let days: Vec<u32> = plans_in_range(&plans, from, to).iter().map(|p| p.day().unwrap().day).collect();
    assert_eq!(days, vec![16, 10, 12]);
    assert!(plans_in_range(&plans, to, from).is_empty());
}
