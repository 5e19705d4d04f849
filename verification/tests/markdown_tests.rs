use blockary::markdown_access::{
    block_strings_from_events, line_is_any_heading, line_is_heading, read_block_strings,
    update_section_lines, MdEvent,
};

#[test]
fn test_markdown_with_faulty_elements() {
    let markdown = "
# Some Title
## Some other section
```clojure
(+ 1 2)
```

```tasks
some other suprising content %#$@
like $(exit 0)
```
bla foo
   ### Some wrong indent
## Time Blocks
- 08:00 - 11:00 This
- 11:00 - 11:30 should
- 14:00 - 15:00 appear
- So should this
# Notes
- 10:00 - 11:00 This should not appear in the result
";
    let block_strings = read_block_strings(markdown);

    assert_eq!(
        block_strings,
        vec![
            "08:00 - 11:00 This".to_string(),
            "11:00 - 11:30 should".to_string(),
            "14:00 - 15:00 appear".to_string(),
            "So should this".to_string(),
        ],
    );
}

#[test]
fn test_update_blockstrings_in_markdown_with_faulty_elements() {
    let markdown = "
# Some Title
## Some other section
```clojure
(+ 1 2)
```

```tasks
some other suprising content %#$@
like $(exit 0)
```
bla foo
   ### Some wrong indent
## Time Blocks
- 08:00 - 11:00 This
- 11:00 - 11:30 should
- 14:00 - 15:00 appear
- So should this
# Notes
- 10:00 - 11:00 What is this?
";
    let block_strings = vec![
        "- 10:00 - 11:00 (Personal) -hidden-".to_string(),
        "- 11:00 - 12:00 Meeting".to_string(),
    ];

    let updated_markdown = update_section_lines(&block_strings, "Time Blocks", markdown);

    assert_eq!(
        updated_markdown,
        "
# Some Title
## Some other section
```clojure
(+ 1 2)
```

```tasks
some other suprising content %#$@
like $(exit 0)
```
bla foo
   ### Some wrong indent
## Time Blocks
- 10:00 - 11:00 (Personal) -hidden-
- 11:00 - 12:00 Meeting
# Notes
- 10:00 - 11:00 What is this?
"
    );
}

#[test]
fn test_check_for_heading() {
    assert_eq!(true, line_is_heading("### Foo Bar", "Foo Bar"));
    assert_eq!(true, line_is_heading(" # Foo Bar", "Foo Bar"));
}

#[test]
fn test_line_is_not_heading() {
    assert_eq!(false, line_is_heading("Foo Bar", "Foo Bar"));
}

#[test]
fn heading_title_must_match_to_the_end_of_the_line() {
    assert!(!line_is_heading("## Foo Bar ", "Foo Bar"));
    assert!(!line_is_heading("## Foo", "Foo Bar"));
    assert!(!line_is_heading("\t# Foo Bar", "Foo Bar"));
    assert!(line_is_heading("#Foo Bar", "Foo Bar"));
    assert!(line_is_heading("#", ""));
    assert!(!line_is_heading("", ""));
}

#[test]
fn any_heading_starts_with_a_hash_after_whitespace() {
    assert!(line_is_any_heading("# a"));
    assert!(line_is_any_heading("  \t### a"));
    assert!(!line_is_any_heading("a # b"));
    assert!(!line_is_any_heading(""));
    assert!(!line_is_any_heading("   "));
}

#[test]
fn text_without_the_section_keeps_its_lines() {
    let lines = vec!["- x".to_string()];
    assert_eq!(update_section_lines(&lines, "Time Blocks", "a\nb"), "a\nb\n");
    assert_eq!(update_section_lines(&lines, "Time Blocks", "a\r\nb\r\n"), "a\nb\n");
    assert_eq!(update_section_lines(&lines, "Time Blocks", ""), "");
    assert_eq!(update_section_lines(&lines, "Time Blocks", "\n\n"), "\n\n");
    assert_eq!(update_section_lines(&lines, "Time Blocks", "a\rb\r"), "a\rb\r\n");
}

#[test]
fn every_section_of_the_title_is_replaced() {
    let lines = vec!["- x".to_string(), "- y".to_string()];
    let text = "# Time Blocks\nold\n# Other\nkeep\n## Time Blocks\nold too";
    assert_eq!(
        update_section_lines(&lines, "Time Blocks", text),
        "# Time Blocks\n- x\n- y\n# Other\nkeep\n## Time Blocks\n- x\n- y\n"
    );
    let none: Vec<String> = Vec::new();
    assert_eq!(
        update_section_lines(&none, "Time Blocks", "# Time Blocks\nold\n# Other"),
        "# Time Blocks\n# Other\n"
    );
}

#[test]
fn items_are_collected_only_below_the_section_heading() {
    let events = vec![
        MdEvent::ItemStart,
        MdEvent::Text("before".to_string()),
        MdEvent::ItemEnd,
        MdEvent::HeadingStart,
        MdEvent::Text("  TIME Blocks ".to_string()),
        MdEvent::SectionHeadingEnd,
        MdEvent::ItemStart,
        MdEvent::Text("10:00 ".to_string()),
        MdEvent::Other,
        MdEvent::Text("one".to_string()),
        MdEvent::ItemEnd,
        MdEvent::ItemEnd,
        MdEvent::ItemStart,
        MdEvent::ItemEnd,
        MdEvent::HeadingStart,
        MdEvent::Text("Notes".to_string()),
        MdEvent::ItemStart,
        MdEvent::Text("after".to_string()),
        MdEvent::ItemEnd,
    ];
    assert_eq!(block_strings_from_events(&events), vec!["10:00 one", ""]);
    assert!(block_strings_from_events(&Vec::new()).is_empty());
}

#[test]
fn section_title_is_read_in_any_case() {
    let found = read_block_strings("## time BLOCKS\n- 10:00 a\n- b\n\n## Next\n- c\n");
    assert_eq!(found, vec!["10:00 a", "b"]);
    assert!(read_block_strings("## Time Blocks today\n- a\n").is_empty());
}

#[test]
fn writing_the_same_lines_again_changes_nothing() {
    let lines = vec!["- 10:00 - 11:00 (Work) Review".to_string(), "-  Lunch".to_string()];
    let text = "# Day\n## Time Blocks\n- old\n\n## Notes\nkeep\n## Time Blocks";
    let once = update_section_lines(&lines, "Time Blocks", text);
    assert_eq!(
        once,
        "# Day\n## Time Blocks\n- 10:00 - 11:00 (Work) Review\n-  Lunch\n## Notes\nkeep\n## Time Blocks\n- 10:00 - 11:00 (Work) Review\n-  Lunch\n"
    );
    assert_eq!(update_section_lines(&lines, "Time Blocks", &once), once);
}
