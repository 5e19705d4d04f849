use blockary::block::Block;
use blockary::text::is_space_char;
use regex::Regex;

#[test]
fn test_parse_good_string_with_origin_tag() {
    let b = Block::parse(
        "Personal",
        "08:00 - 09:00 (Personal) Morning Correspondence",
    )
    .expect("");

    assert_eq!(
        b,
        Block::new("08:00 - 09:00", "Personal", "Morning Correspondence")
    );
    assert_eq!(b.period, "08:00 - 09:00");
    assert_eq!(b.origin, "Personal");
    assert_eq!(b.desc, "Morning Correspondence");
}

#[test]
fn test_parse_good_string_without_origin_tag() {
    let b = Block::parse("Personal", "07:30 - 08:00 Morning Correspondence").expect("");

    assert_eq!(
        b,
        Block::new("07:30 - 08:00", "Personal", "Morning Correspondence")
    );
    assert_eq!(b.period, "07:30 - 08:00");
    assert_eq!(b.origin, "Personal");
    assert_eq!(b.desc, "Morning Correspondence");
}

#[test]
fn test_parse_good_string_without_origin_tag_but_brackets() {
    let b = Block::parse(
        "Personal",
        "07:30 - 08:00 Morning Correspondence: talk to [[Lars]] later",
    )
    .expect("");

    assert_eq!(
        b,
        Block::new(
            "07:30 - 08:00",
            "Personal",
            "Morning Correspondence: talk to [[Lars]] later"
        )
    );
    assert_eq!(b.desc, "Morning Correspondence: talk to [[Lars]] later");
}

#[test]
fn test_parse_good_string_that_starts_with_digit() {
    let b = Block::parse("Personal", "07:30 - 08:00 1on1 with Hans").expect("");

    assert_eq!(b, Block::new("07:30 - 08:00", "Personal", "1on1 with Hans"));
    assert_eq!(b.period, "07:30 - 08:00");
    assert_eq!(b.desc, "1on1 with Hans");
}

#[test]
fn test_block_without_period_or_origin() {
    let b = Block::parse("Personal", "Just some text").expect("");

    assert_eq!(b, Block::new("", "Personal", "Just some text"));
    assert_eq!(b.period, "");
    assert_eq!(b.origin, "Personal");
    assert_eq!(b.desc, "Just some text");
}

#[test]
fn test_block_with_empty_description() {
    let b = Block::parse("Personal", "10:00 - 11:00").expect("");

    assert_eq!(b, Block::new("10:00 - 11:00", "Personal", ""));
    assert_eq!(b.period, "10:00 - 11:00");
    assert_eq!(b.desc, "");
}

#[test]
fn test_period_has_only_start_time() {
    let b = Block::parse("Personal", "10:00 Do something").expect("");

    assert_eq!(b, Block::new("10:00", "Personal", "Do something"));
    assert_eq!(b.period, "10:00");
    assert_eq!(b.desc, "Do something");
}

#[test]
fn test_write_block_string() {
    let b = Block::new("10:00 - 11:00", "Personal", "Buy Coffee");

    assert_eq!(
        b.to_block_string(true),
        "10:00 - 11:00 (Personal) Buy Coffee"
    );
    assert_eq!(b.to_block_string(false), "10:00 - 11:00 Buy Coffee");
}

#[test]
fn block_without_fields_is_rendered_with_its_separators() {
    let b = Block::new("", "", "");
    assert_eq!(b.to_block_string(true), " () ");
    assert_eq!(b.to_block_string(false), " ");
    let b = Block::new("10:00", "Work", "");
    assert_eq!(b.to_block_string(true), "10:00 (Work) ");
    assert_eq!(b.to_block_string(false), "10:00 ");
}

#[test]
fn rendered_block_with_its_origin_parses_to_its_fields() {
    let b = Block::new("08:00 - 09:00", "Work", "Standup");
    let again = Block::parse("Personal", &b.to_block_string(true)).expect("");
    assert_eq!(again.period, "08:00 - 09:00");
    assert_eq!(again.origin, "Work");
    assert_eq!(again.desc, "Standup");
    assert_eq!(again, b);
}

#[test]
fn duration_is_the_length_of_the_range() {
    assert_eq!(Block::new("08:00 - 09:00", "o", "").duration, 60);
    assert_eq!(Block::new("00:00 - 23:59", "o", "").duration, 1439);
    assert_eq!(Block::new("07:30 - 08:00", "o", "").duration, 30);
    assert_eq!(Block::new("09:15-17:45", "o", "").duration, 510);
    assert_eq!(Block::new("10:00 - 10:00", "o", "").duration, 0);
    assert_eq!(Block::new(" 10:00  -  12:00 ", "o", "").duration, 120);
}

#[test]
fn duration_defaults_to_thirty_minutes() {
    assert_eq!(Block::new("", "o", "").duration, 30);
    assert_eq!(Block::new("10:00", "o", "").duration, 30);
    assert_eq!(Block::new("11:00 - 10:00", "o", "").duration, 30);
    assert_eq!(Block::new("24:00 - 25:00", "o", "").duration, 30);
    assert_eq!(Block::new("10:60 - 11:00", "o", "").duration, 30);
    assert_eq!(Block::new("10:00 - 23:60", "o", "").duration, 30);
    assert_eq!(Block::new("10:00 - 11:00 - 12:00", "o", "").duration, 30);
    assert_eq!(Block::new("1:00 - 2:00", "o", "").duration, 30);
    assert_eq!(Block::new("10:00 - ", "o", "").duration, 30);
    assert_eq!(Block::new("ab:cd - ef:gh", "o", "").duration, 30);
}

#[test]
fn text_without_leading_time_has_no_period() {
    for text in ["Just some text", "  (Work) later 10:00 - 11:00", "x 10:00", "", "1:00 a", "25:00 b"] {
        let b = Block::parse_block_string("Personal", text);
        assert_eq!(b.period, "", "{:?}", text);
        assert_eq!(b.duration, 30, "{:?}", text);
    }
}

#[test]
fn parsed_block_has_duration_and_tags() {
    let b = Block::parse_block_string("Work", "09:00 - 10:30 (Home) Tidy @chores/kitchen and @break");
    assert_eq!(b.period, "09:00 - 10:30");
    assert_eq!(b.origin, "Home");
    assert_eq!(b.desc, "Tidy @chores/kitchen and @break");
    assert_eq!(b.duration, 90);
    assert_eq!(b.tags.len(), 2);
    assert_eq!(b.tags[0].tagls, vec!["chores", "kitchen"]);
    assert_eq!(b.tags[1].tagls, vec!["break"]);
}

#[test]
fn only_the_first_period_is_the_period() {
    let b = Block::parse_block_string("P", "10:00 - 11:00 10:00 - 11:00");
    assert_eq!(b.period, "10:00 - 11:00");
    assert_eq!(b.desc, "10:00 - 11:00");
    let b = Block::parse_block_string("P", "Call at 10:00 - 11:00");
    assert_eq!(b.period, "");
    assert_eq!(b.desc, "Call at 10:00 - 11:00");
}

#[test]
fn origin_in_parentheses_is_trimmed() {
    let b = Block::parse_block_string("P", "  10:00   (  Work ) \t Standup ");
    assert_eq!(b.period, "10:00");
    assert_eq!(b.origin, "Work");
    assert_eq!(b.desc, "Standup ");
    let b = Block::parse_block_string("P", "(Work)x");
    assert_eq!((b.period.as_str(), b.origin.as_str(), b.desc.as_str()), ("", "Work", "x"));
    let b = Block::parse_block_string("P", "10:00 (never closed");
    assert_eq!((b.period.as_str(), b.origin.as_str(), b.desc.as_str()), ("10:00", "P", "(never closed"));
    let b = Block::parse_block_string("P", "10:00 later (Work) x");
    assert_eq!((b.origin.as_str(), b.desc.as_str()), ("P", "later (Work) x"));
}

#[test]
fn rendered_block_parses_to_the_same_fields() {
    for text in [
        "08:00 - 09:00 (Personal) Morning Correspondence",
        "10:00 (Work) Standup @work/daily",
        "(Hobby) no period here",
        "  09:00-09:30   ( Work )   spaced   out",
        "09:00 - 10:00 () empty origin",
        "12:00 (Work)",
    ] {
        let first = Block::parse_block_string("Default", text);
        let rendered = first.to_block_string(true);
        let second = Block::parse_block_string("Other", &rendered);
        assert_eq!(second.period, first.period, "{:?}", text);
        assert_eq!(second.origin, first.origin, "{:?}", text);
        assert_eq!(second.desc, first.desc, "{:?}", text);
        assert_eq!(second, first, "{:?}", text);
    }
}

#[test]
fn parser_agrees_with_the_pattern() {
    let pattern =
        Regex::new(r"^\s*(\d{2}:\d{2}\s*-\s*\d{2}:\d{2}|\d{2}:\d{2})?\s*(\(([^\)]*)\))?\s*(.*)")
            .unwrap();
    for text in [
        "08:00 - 09:00 (Personal) Morning Correspondence",
        "07:30 - 08:00 Morning Correspondence",
        "07:30 - 08:00 1on1 with Hans",
        "Just some text",
        "10:00 - 11:00",
        "10:00 Do something",
        "10:00-11:00(Work)x",
        "  10:00\t-\t11:00   rest  ",
        "10:00 - 11:00 10:00 - 11:00",
        "10:005 odd",
        "10:00 - 11:0 short",
        "10:00 - (Work) dash",
        "(a(b) c",
        "() x",
        "",
        "   ",
        "(open",
        "\u{a0}10:00\u{2003}(Work)\u{3000}wide spaces",
    ] {
        let found = pattern.captures(text).unwrap();
        let period = found.get(1).map(|m| m.as_str()).unwrap_or("");
        let origin = found.get(3).map(|m| m.as_str()).unwrap_or("Default");
        let desc = found.get(4).map(|m| m.as_str()).unwrap_or("");
        let b = Block::parse_block_string("Default", text);
        assert_eq!(b.period, period, "{:?}", text);
        assert_eq!(b.origin, origin, "{:?}", text);
        assert_eq!(b.desc, desc, "{:?}", text);
    }
}

#[test]
fn whitespace_is_what_the_standard_library_calls_whitespace() {
    for code in 0..=0x10FFFFu32 {
        if let Some(c) = char::from_u32(code) {
            assert_eq!(is_space_char(c), c.is_whitespace(), "U+{:04X}", code);
        }
    }
}
