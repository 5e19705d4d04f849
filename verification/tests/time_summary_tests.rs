use blockary::block::Block;
use blockary::day_plan::DayPlan;
use blockary::tag::Tag;
use blockary::time_summary::{
    is_break, minutes_to_hours_minutes, time_per_tag, total_minutes, total_time_spent,
    try_time_per_tag, try_total_minutes, try_total_time_spent, TagTime,
};

fn tagged(duration: u16, tags: Vec<Vec<&str>>) -> Block {
    Block {
        period: String::new(),
        origin: "Work".to_string(),
        desc: String::new(),
        duration,
        tags: tags
            .into_iter()
            .map(|t| Tag { tagls: t.into_iter().map(|s| s.to_string()).collect() })
            .collect(),
    }
}

fn shape(nodes: &Vec<TagTime>) -> String {
    let mut out = String::new();
    for n in nodes {
        out.push_str(&format!("{}={}[{}]", n.tag, n.minutes, shape(&n.sub_tags)));
    }
    out
}

#[test]
fn time_per_tag_follows_the_hierarchy() {
    let a = tagged(60, vec![vec!["chores"]]);
    let b = tagged(30, vec![vec!["personal", "tasks"]]);
    let nodes = time_per_tag(&vec![&a, &b], 0);
    assert_eq!(nodes.len(), 2);
    assert_eq!(nodes[0].tag, "chores");
    assert_eq!(nodes[0].minutes, 60);
    assert!(nodes[0].sub_tags.is_empty());
    assert_eq!(nodes[1].tag, "personal");
    assert_eq!(nodes[1].minutes, 30);
    assert_eq!(nodes[1].sub_tags.len(), 1);
    assert_eq!(nodes[1].sub_tags[0].tag, "tasks");
    assert_eq!(nodes[1].sub_tags[0].minutes, 30);
    assert!(nodes[1].sub_tags[0].sub_tags.is_empty());
}

#[test]
fn groups_add_up_and_come_in_order_of_first_appearance() {
    let a = tagged(10, vec![vec!["w", "x"]]);
    let b = tagged(20, vec![vec!["h"]]);
    let c = tagged(40, vec![vec!["w", "y"]]);
    let d = tagged(80, vec![vec!["w", "x", "deep"]]);
    let e = tagged(5, vec![]);
    let nodes = time_per_tag(&vec![&a, &b, &c, &d, &e], 0);
    assert_eq!(shape(&nodes), "w=130[x=90[deep=80[]]y=40[]]h=20[]");
    assert_eq!(shape(&time_per_tag(&vec![&a, &b, &c, &d, &e], 1)), "x=90[deep=80[]]y=40[]");
    assert_eq!(shape(&time_per_tag(&vec![&a, &b, &c, &d, &e], 3)), "");
    assert_eq!(shape(&time_per_tag(&vec![&a], usize::MAX)), "");
    assert_eq!(shape(&time_per_tag(&Vec::new(), 0)), "");
}

#[test]
fn block_counts_once_for_each_tag_that_leads_to_a_group() {
    let a = tagged(10, vec![vec!["w", "x"], vec!["w", "y"], vec!["h"]]);
    let nodes = time_per_tag(&vec![&a], 0);
    assert_eq!(shape(&nodes), "w=20[x=20[]y=20[]]h=10[x=10[]y=10[]]");
}

#[test]
fn time_per_tag_of_parsed_blocks() {
    let a = Block::new("08:00 - 09:00", "Work", "Dishes @chores");
    let b = Block::new("09:00 - 09:30", "Work", "Taxes @personal/tasks");
    assert_eq!(shape(&time_per_tag(&vec![&a, &b], 0)), "chores=60[]personal=30[tasks=30[]]");
}

#[test]
fn total_minutes_adds_the_durations() {
    let a = tagged(60, vec![]);
    let b = tagged(30, vec![vec!["break"]]);
    assert_eq!(total_minutes(&vec![&a, &b, &a]), 150);
    assert_eq!(total_minutes(&Vec::new()), 0);
}

#[test]
fn total_time_spent_leaves_out_breaks() {
    let plan = DayPlan::new(
        "Work",
        vec![tagged(60, vec![vec!["break"]]), tagged(30, vec![])],
        "/w/2025-01-01.md",
        "/w",
    );
    assert_eq!(total_time_spent(&vec![plan]), 30);
}

#[test]
fn total_time_spent_counts_own_blocks_only() {
    let mut foreign = tagged(45, vec![]);
    foreign.origin = "Home".to_string();
    let work = DayPlan::new(
        "Work",
        vec![
            tagged(60, vec![vec!["breakfast"]]),
            tagged(15, vec![vec!["work", "break"]]),
            tagged(7, vec![vec!["x"], vec!["break", "coffee"]]),
            tagged(9, vec![vec!["Break"]]),
            foreign,
        ],
        "/w/2025-01-01.md",
        "/w",
    );
    let home = DayPlan::new("Home", vec![Block::new("10:00 - 10:20", "Home", "Tea")], "/h/2025-01-01.md", "/h");
    assert_eq!(total_time_spent(&vec![work, home]), 60 + 15 + 9 + 20);
    assert_eq!(total_time_spent(&Vec::new()), 0);
}

#[test]
fn break_is_read_from_the_first_segment() {
    assert!(is_break(&Block::new("", "o", "pause @break")));
    assert!(is_break(&Block::new("", "o", "@x and @break/long")));
    assert!(!is_break(&Block::new("", "o", "@breakfast")));
    assert!(!is_break(&Block::new("", "o", "@work/break")));
    assert!(!is_break(&Block::new("", "o", "break")));
}

#[test]
fn minutes_split_into_hours_and_minutes() {
    assert_eq!(minutes_to_hours_minutes(0), (0, 0));
    assert_eq!(minutes_to_hours_minutes(59), (0, 59));
    assert_eq!(minutes_to_hours_minutes(60), (1, 0));
    assert_eq!(minutes_to_hours_minutes(1439), (23, 59));
    assert_eq!(minutes_to_hours_minutes(65535), (1092, 15));
}

#[test]
fn sums_that_do_not_fit_are_refused() {
    let big = tagged(40000, vec![vec!["w"]]);
    let small = tagged(25535, vec![vec!["w", "x"]]);
    assert_eq!(try_total_minutes(&vec![&big, &small]), Some(65535));
    assert_eq!(try_total_minutes(&vec![&big, &small, &tagged(1, vec![])]), None);
    assert_eq!(shape(&try_time_per_tag(&vec![&big, &small], 0).unwrap()), "w=65535[x=25535[]]");
    assert!(try_time_per_tag(&vec![&big, &big], 0).is_none());
    assert!(try_time_per_tag(&vec![&big, &big], 1).is_some());
    let twice = tagged(30000, vec![vec!["a", "x"], vec!["b", "x"]]);
    assert_eq!(shape(&try_time_per_tag(&vec![&twice], 0).unwrap()), "a=30000[x=60000[]]b=30000[x=60000[]]");
    let twice = tagged(40000, vec![vec!["a", "x"], vec!["b", "x"]]);
    assert!(try_time_per_tag(&vec![&twice], 0).is_none());
    assert!(try_time_per_tag(&vec![&twice], 1).is_none());
    assert!(try_time_per_tag(&vec![&twice], 2).is_some());
    let plan = |blocks: Vec<Block>| DayPlan::new("Work", blocks, "/w/2025-01-01.md", "/w");
    assert_eq!(
        try_total_time_spent(&vec![plan(vec![tagged(40000, vec![])]), plan(vec![tagged(25535, vec![])])]),
        Some(65535)
    );
    assert_eq!(
        try_total_time_spent(&vec![plan(vec![tagged(40000, vec![]), tagged(25536, vec![])])]),
        None
    );
    assert_eq!(
        try_total_time_spent(&vec![plan(vec![tagged(40000, vec![]), tagged(40000, vec![vec!["break"]])])]),
        Some(40000)
    );
}
