//! The daily note as markdown: finding the items of the section that holds
//! the time blocks, and writing new lines into that section.
use crate::text::{
    chars_of, find_char, index_of, lemma_index_of, skip_spaces, skip_spaces_back, slice_of,
    spaces_end, texts, trim,
};
use vstd::prelude::*;

verus! {

/// What the reader of a note needs of an event of the markdown parser.
#[derive(Debug, PartialEq, Eq)]
pub enum MdEvent {
    /// An item of a list starts.
    ItemStart,
    /// An item of a list ends.
    ItemEnd,
    /// A heading of any level starts.
    HeadingStart,
    /// A heading of the second level ends.
    SectionHeadingEnd,
    /// A run of text.
    Text(String),
    /// Any other event.
    Other,
}

/// What an event is, as plain mathematical values.
pub enum MdEventModel {
    ItemStart,
    ItemEnd,
    HeadingStart,
    SectionHeadingEnd,
    Text(Seq<char>),
    Other,
}

impl View for MdEvent {
    type V = MdEventModel;

    open spec fn view(&self) -> MdEventModel {
        match self {
            MdEvent::ItemStart => MdEventModel::ItemStart,
            MdEvent::ItemEnd => MdEventModel::ItemEnd,
            MdEvent::HeadingStart => MdEventModel::HeadingStart,
            MdEvent::SectionHeadingEnd => MdEventModel::SectionHeadingEnd,
            MdEvent::Text(t) => MdEventModel::Text(t@),
            MdEvent::Other => MdEventModel::Other,
        }
    }
}

/// The models of a sequence of events.
pub open spec fn event_views(events: Seq<MdEvent>) -> Seq<MdEventModel> {
    events.map_values(|e: MdEvent| e@)
}

/// The events that the markdown parser gives for a text, each reduced to
/// what `MdEvent` keeps of it.
pub uninterp spec fn markdown_events(content: Seq<char>) -> Seq<MdEventModel>;

/// The lower-case form of a text, as the standard library computes it.
pub uninterp spec fn lowercase(s: Seq<char>) -> Seq<char>;

/// `str::to_lowercase` depends on its argument alone; its result is named
/// `lowercase`. Nothing more is claimed of it.
pub assume_specification[ str::to_lowercase ](s: &str) -> (r: String)
    ensures
        r@ == lowercase(s@),
;

/// Runs `pulldown_cmark::Parser::new` over the text, with no options, and
/// keeps of each event its kind and, for text, the text. The events depend
/// on the text alone; they are named `markdown_events`, and nothing more is
/// claimed of them.
#[verifier::external_body]
fn parse_markdown(content: &str) -> (events: Vec<MdEvent>)
    ensures
        event_views(events@) == markdown_events(content@),
{
    let mut events: Vec<MdEvent> = Vec::new();
    for event in pulldown_cmark::Parser::new(content) {
        events.push(match event {
            pulldown_cmark::Event::Start(pulldown_cmark::Tag::Item) => MdEvent::ItemStart,
            pulldown_cmark::Event::End(pulldown_cmark::TagEnd::Item) => MdEvent::ItemEnd,
            pulldown_cmark::Event::Start(pulldown_cmark::Tag::Heading { .. }) => MdEvent::HeadingStart,
            pulldown_cmark::Event::End(pulldown_cmark::TagEnd::Heading(pulldown_cmark::HeadingLevel::H2)) => MdEvent::SectionHeadingEnd,
            pulldown_cmark::Event::Text(text) => MdEvent::Text(text.to_string()),
            _ => MdEvent::Other,
        });
    }
    events
}

/// The title of the section that holds the time blocks, in lower case.
pub open spec fn section_name() -> Seq<char> {
    seq!['t', 'i', 'm', 'e', ' ', 'b', 'l', 'o', 'c', 'k', 's']
}

/// The title of the section that holds the time blocks.
pub open spec fn section_title() -> Seq<char> {
    seq!['T', 'i', 'm', 'e', ' ', 'B', 'l', 'o', 'c', 'k', 's']
}

/// What the reader knows while it walks over the events.
pub struct ReaderState {
    /// A heading has started and its text is still to come.
    pub at_title: bool,
    /// The last heading was the one of the time blocks.
    pub in_section: bool,
    /// A list item of that section is open.
    pub in_item: bool,
    /// The text of the open item so far.
    pub item: Seq<char>,
    /// The items that are complete.
    pub found: Seq<Seq<char>>,
}

/// The reader before the first event.
pub open spec fn reader_start() -> ReaderState {
    ReaderState {
        at_title: false,
        in_section: false,
        in_item: false,
        item: Seq::<char>::empty(),
        found: Seq::<Seq<char>>::empty(),
    }
}

/// Whether a heading text names the section of the time blocks: in any
/// case of letters, whitespace around it aside.
pub open spec fn names_section(text: Seq<char>) -> bool {
    trim(lowercase(text)) == section_name()
}

/// One step of the reader. A heading closes the section until its text
/// says otherwise; an item that starts within the section is collected, its
/// text pieces joined, and kept when it ends.
pub open spec fn reader_step(s: ReaderState, e: MdEventModel) -> ReaderState {
    match e {
        MdEventModel::ItemStart => if s.in_section {
            ReaderState { item: Seq::<char>::empty(), in_item: true, ..s }
        } else {
            s
        },
        MdEventModel::ItemEnd => if s.in_item {
            ReaderState { found: s.found.push(s.item), in_item: false, ..s }
        } else {
            s
        },
        MdEventModel::HeadingStart => ReaderState { at_title: true, in_section: false, ..s },
        MdEventModel::SectionHeadingEnd => ReaderState { at_title: false, ..s },
        MdEventModel::Text(t) => ReaderState {
            at_title: false,
            in_section: if s.at_title {
                names_section(t)
            } else {
                s.in_section
            },
            item: if s.in_item {
                s.item + t
            } else {
                s.item
            },
            ..s
        },
        MdEventModel::Other => s,
    }
}

/// The reader after the first `n` events.
pub open spec fn reader_after(events: Seq<MdEventModel>, n: nat) -> ReaderState
    decreases n,
{
    if n == 0 || n > events.len() {
        reader_start()
    } else {
        reader_step(reader_after(events, (n - 1) as nat), events[n - 1])
    }
}

/// The list items of the section of the time blocks, in their order.
pub open spec fn block_strings_of(events: Seq<MdEventModel>) -> Seq<Seq<char>> {
    reader_after(events, events.len()).found
}

/// Whether a line is a heading: its first character that is no whitespace
/// is `#`.
pub open spec fn is_any_heading(line: Seq<char>) -> bool {
    spaces_end(line, 0) < line.len() && line[spaces_end(line, 0)] == '#'
}

/// The first index at or after `i` that holds neither `#` nor a space.
pub open spec fn title_start(line: Seq<char>, i: int) -> int
    decreases line.len() - i,
{
    if 0 <= i < line.len() && (line[i] == '#' || line[i] == ' ') {
        title_start(line, i + 1)
    } else {
        i
    }
}

/// Whether a line is the heading with this title: a heading whose text
/// behind the leading `#` and spaces is the title, to the end of the line.
pub open spec fn is_heading(line: Seq<char>, heading: Seq<char>) -> bool {
    is_any_heading(line) && line.subrange(title_start(line, 0), line.len() as int) == heading
}

/// A line without the carriage return at its end, if it has one.
pub open spec fn without_cr(line: Seq<char>) -> Seq<char> {
    if line.len() > 0 && line.last() == '\r' {
        line.drop_last()
    } else {
        line
    }
}

/// The lines of a text from index `i` on. A line ends at a line feed; the
/// line feed, and a carriage return before it, are no part of the line. A
/// text that ends with a line feed has no empty line behind it.
pub open spec fn lines_from(s: Seq<char>, i: int) -> Seq<Seq<char>>
    decreases s.len() - i,
{
    if 0 <= i < s.len() {
        let e = index_of(s, '\n', i);
        if e < s.len() {
            proof {
                lemma_index_of(s, '\n', i);
            }
            seq![without_cr(s.subrange(i, e))] + lines_from(s, e + 1)
        } else {
            seq![s.subrange(i, s.len() as int)]
        }
    } else {
        Seq::<Seq<char>>::empty()
    }
}

/// The lines from index `i` on with the section replaced. The heading
/// with the title stays and the new lines follow it; the lines that stood
/// below it, up to the next heading, are dropped. `under` says whether line
/// `i` stands below such a heading.
pub open spec fn replaced_from(
    lines: Seq<Seq<char>>,
    title: Seq<char>,
    new_lines: Seq<Seq<char>>,
    i: int,
    under: bool,
) -> Seq<Seq<char>>
    decreases lines.len() - i,
{
    if 0 <= i < lines.len() {
        if is_heading(lines[i], title) {
            seq![lines[i]] + new_lines + replaced_from(lines, title, new_lines, i + 1, true)
        } else {
            let still = under && !is_any_heading(lines[i]);
            let kept = if still {
                Seq::<Seq<char>>::empty()
            } else {
                seq![lines[i]]
            };
            kept + replaced_from(lines, title, new_lines, i + 1, still)
        }
    } else {
        Seq::<Seq<char>>::empty()
    }
}

/// The text made of the lines, each followed by a line feed.
pub open spec fn with_newlines(lines: Seq<Seq<char>>) -> Seq<char>
    decreases lines.len(),
{
    if lines.len() == 0 {
        Seq::<char>::empty()
    } else {
        with_newlines(lines.drop_last()) + lines.last() + seq!['\n']
    }
}

/// The text with the lines of every section of this title replaced.
pub open spec fn updated_section(
    new_lines: Seq<Seq<char>>,
    title: Seq<char>,
    content: Seq<char>,
) -> Seq<char> {
    with_newlines(replaced_from(lines_from(content, 0), title, new_lines, 0, false))
}

/// The character sequences of a list of lines.
pub open spec fn line_views(lines: Seq<Vec<char>>) -> Seq<Seq<char>> {
    lines.map_values(|l: Vec<char>| l@)
}

/// A text without a heading of the title keeps all its lines.
pub proof fn lemma_nothing_to_replace(
    lines: Seq<Seq<char>>,
    title: Seq<char>,
    new_lines: Seq<Seq<char>>,
    i: int,
)
    requires
        0 <= i <= lines.len(),
        forall|k: int| i <= k < lines.len() ==> !is_heading(#[trigger] lines[k], title),
    ensures
        replaced_from(lines, title, new_lines, i, false) == lines.subrange(i, lines.len() as int),
    decreases lines.len() - i,
{
    if i < lines.len() {
        lemma_nothing_to_replace(lines, title, new_lines, i + 1);
        assert(seq![lines[i]] + lines.subrange(i + 1, lines.len() as int) =~= lines.subrange(
            i,
            lines.len() as int,
        ));
    } else {
        assert(lines.subrange(i, lines.len() as int) =~= Seq::<Seq<char>>::empty());
    }
}

/// A text that ends with the section has, behind the heading, the new
/// lines and nothing else.
pub proof fn lemma_last_section_replaced(
    lines: Seq<Seq<char>>,
    title: Seq<char>,
    new_lines: Seq<Seq<char>>,
    i: int,
)
    requires
        0 <= i < lines.len(),
        is_heading(lines[i], title),
        forall|k: int| i < k < lines.len() ==> !is_any_heading(#[trigger] lines[k]),
    ensures
        replaced_from(lines, title, new_lines, i, false) == seq![lines[i]] + new_lines,
{
    lemma_section_dropped(lines, title, new_lines, i + 1);
    assert(seq![lines[i]] + new_lines + Seq::<Seq<char>>::empty() =~= seq![lines[i]] + new_lines);
}

/// The lines below the heading of the section are dropped as long as no
/// heading follows.
pub proof fn lemma_section_dropped(
    lines: Seq<Seq<char>>,
    title: Seq<char>,
    new_lines: Seq<Seq<char>>,
    i: int,
)
    requires
        0 <= i <= lines.len(),
        forall|k: int| i <= k < lines.len() ==> !is_any_heading(#[trigger] lines[k]),
    ensures
        replaced_from(lines, title, new_lines, i, true) == Seq::<Seq<char>>::empty(),
    decreases lines.len() - i,
{
    if i < lines.len() {
        lemma_section_dropped(lines, title, new_lines, i + 1);
    }
}

fn any_heading(line: &Vec<char>) -> (r: bool)
    ensures
        r == is_any_heading(line@),
{
    let a = skip_spaces(line, 0);
    a < line.len() && line[a] == '#'
}

fn heading_with(line: &Vec<char>, heading: &Vec<char>) -> (r: bool)
    ensures
        r == is_heading(line@, heading@),
{
    if !any_heading(line) {
        return false;
    }
    let n = line.len();
    let mut t: usize = 0;
    while t < n && (line[t] == '#' || line[t] == ' ')
        invariant
            t <= n,
            n == line.len(),
            title_start(line@, 0) == title_start(line@, t as int),
        decreases n - t,
    {
        t += 1;
    }
    let ghost rest = line@.subrange(t as int, n as int);
    if n - t != heading.len() {
        return false;
    }
    let mut k: usize = 0;
    while k < heading.len()
        invariant
            k <= heading.len(),
            t <= n,
            n == line.len(),
            n - t == heading.len(),
            is_any_heading(line@),
            t == title_start(line@, 0),
            rest == line@.subrange(t as int, n as int),
            forall|j: int| 0 <= j < k ==> rest[j] == heading@[j],
        decreases heading.len() - k,
    {
        if line[t + k] != heading[k] {
            assert(rest[k as int] != heading@[k as int]);
            return false;
        }
        k += 1;
    }
    assert(rest =~= heading@);
    true
}

/// Whether the line is the heading with this title.
pub fn line_is_heading(line: &str, heading: &str) -> (r: bool)
    ensures
        r == is_heading(line@, heading@),
{
    heading_with(&chars_of(line), &chars_of(heading))
}

/// Whether the line is a heading.
pub fn line_is_any_heading(line: &str) -> (r: bool)
    ensures
        r == is_any_heading(line@),
{
    any_heading(&chars_of(line))
}

fn split_lines(chars: &Vec<char>) -> (lines: Vec<Vec<char>>)
    ensures
        line_views(lines@) == lines_from(chars@, 0),
{
    let n = chars.len();
    let mut lines: Vec<Vec<char>> = Vec::new();
    let mut i: usize = 0;
    assert(line_views(lines@) =~= Seq::<Seq<char>>::empty());
    while i < n
        invariant
            i <= n,
            n == chars.len(),
            lines_from(chars@, 0) == line_views(lines@) + lines_from(chars@, i as int),
        decreases n - i,
    {
        let ghost before = line_views(lines@);
        let e = find_char(chars, '\n', i);
        if e < n {
            let line = if e > i && chars[e - 1] == '\r' {
                slice_of(chars, i, e - 1)
            } else {
                slice_of(chars, i, e)
            };
            proof {
                let whole = chars@.subrange(i as int, e as int);
                if e > i && chars@[e - 1] == '\r' {
                    assert(whole.last() == '\r');
                    assert(whole.drop_last() =~= chars@.subrange(i as int, e - 1));
                }
                assert(line@ == without_cr(whole));
            }
            lines.push(line);
            assert(line_views(lines@) =~= before.push(line@));
            assert(lines_from(chars@, 0) =~= line_views(lines@) + lines_from(chars@, e + 1));
            i = e + 1;
        } else {
            let line = slice_of(chars, i, n);
            lines.push(line);
            assert(line_views(lines@) =~= before.push(line@));
            assert(lines_from(chars@, 0) =~= line_views(lines@) + lines_from(chars@, n as int));
            i = n;
        }
    }
    assert(lines_from(chars@, 0) =~= line_views(lines@));
    lines
}

fn lines_of_strings(strings: &Vec<String>) -> (lines: Vec<Vec<char>>)
    ensures
        line_views(lines@) == texts(strings@),
{
    let mut lines: Vec<Vec<char>> = Vec::new();
    let mut i: usize = 0;
    while i < strings.len()
        invariant
            i <= strings.len(),
            lines@.len() == i,
            forall|k: int| 0 <= k < i ==> (#[trigger] lines@[k])@ == strings@[k]@,
        decreases strings.len() - i,
    {
        lines.push(chars_of(strings[i].as_str()));
        i += 1;
    }
    assert(line_views(lines@) =~= texts(strings@));
    lines
}

fn push_copies(out: &mut Vec<Vec<char>>, lines: &Vec<Vec<char>>)
    ensures
        line_views(final(out)@) == line_views(old(out)@) + line_views(lines@),
{
    let ghost start = line_views(out@);
    let mut i: usize = 0;
    assert(line_views(lines@).take(0) =~= Seq::<Seq<char>>::empty());
    assert(start + Seq::<Seq<char>>::empty() =~= start);
    while i < lines.len()
        invariant
            i <= lines.len(),
            line_views(out@) == start + line_views(lines@).take(i as int),
        decreases lines.len() - i,
    {
        let ghost before = line_views(out@);
        let copy = slice_of(&lines[i], 0, lines[i].len());
        assert(copy@ =~= lines@[i as int]@);
        out.push(copy);
        assert(line_views(out@) =~= before.push(copy@));
        assert(line_views(lines@).take(i + 1) =~= line_views(lines@).take(i as int).push(copy@));
        i += 1;
    }
    assert(line_views(lines@).take(i as int) =~= line_views(lines@));
}

fn replace_section(lines: &Vec<Vec<char>>, title: &Vec<char>, new_lines: &Vec<Vec<char>>) -> (out:
    Vec<Vec<char>>)
    ensures
        line_views(out@) == replaced_from(
            line_views(lines@),
            title@,
            line_views(new_lines@),
            0,
            false,
        ),
{
    let ghost all = line_views(lines@);
    let ghost fresh = line_views(new_lines@);
    let mut out: Vec<Vec<char>> = Vec::new();
    let mut under = false;
    let mut i: usize = 0;
    assert(line_views(out@) =~= Seq::<Seq<char>>::empty());
    while i < lines.len()
        invariant
            i <= lines.len(),
            all == line_views(lines@),
            fresh == line_views(new_lines@),
            replaced_from(all, title@, fresh, 0, false) == line_views(out@) + replaced_from(
                all,
                title@,
                fresh,
                i as int,
                under,
            ),
        decreases lines.len() - i,
    {
        let ghost before = line_views(out@);
        let line = &lines[i];
        assert(all[i as int] == line@);
        if heading_with(line, title) {
            under = true;
            let copy = slice_of(line, 0, line.len());
            assert(copy@ =~= line@);
            out.push(copy);
            assert(line_views(out@) =~= before.push(line@));
            push_copies(&mut out, new_lines);
            assert(line_views(out@) =~= before + (seq![line@] + fresh));
        } else {
            if any_heading(line) {
                under = false;
            }
            if !under {
                let copy = slice_of(line, 0, line.len());
                assert(copy@ =~= line@);
                out.push(copy);
                assert(line_views(out@) =~= before + seq![line@]);
            } else {
                assert(line_views(out@) =~= before + Seq::<Seq<char>>::empty());
            }
        }
        assert(replaced_from(all, title@, fresh, 0, false) =~= line_views(out@) + replaced_from(
            all,
            title@,
            fresh,
            i + 1,
            under,
        ));
        i += 1;
    }
    assert(replaced_from(all, title@, fresh, 0, false) =~= line_views(out@));
    out
}

fn join_lines(lines: &Vec<Vec<char>>) -> (text: String)
    ensures
        text@ == with_newlines(line_views(lines@)),
{
    let ghost all = line_views(lines@);
    let mut text = String::new();
    let mut i: usize = 0;
    assert(all.take(0) =~= Seq::<Seq<char>>::empty());
    while i < lines.len()
        invariant
            i <= lines.len(),
            all == line_views(lines@),
            text@ == with_newlines(all.take(i as int)),
        decreases lines.len() - i,
    {
        let line = &lines[i];
        let ghost start = text@;
        let mut k: usize = 0;
        assert(line@.take(0) =~= Seq::<char>::empty());
        assert(start + Seq::<char>::empty() =~= start);
        while k < line.len()
            invariant
                k <= line.len(),
                text@ == start + line@.take(k as int),
            decreases line.len() - k,
        {
            text.push(line[k]);
            assert(line@.take(k + 1) =~= line@.take(k as int).push(line@[k as int]));
            assert(text@ =~= start + line@.take(k + 1));
            k += 1;
        }
        text.push('\n');
        proof {
            assert(line@.take(k as int) =~= line@);
            assert(all.take(i + 1).drop_last() =~= all.take(i as int));
            assert(all.take(i + 1).last() == line@);
            assert(text@ =~= start + line@ + seq!['\n']);
        }
        i += 1;
    }
    assert(all.take(i as int) =~= all);
    text
}

/// Writes new lines into every section with this title: the heading
/// stays, the new lines follow it, and what stood below it, up to the next
/// heading, is dropped. A text without such a section keeps its lines.
/// Every line of the result ends with a line feed.
pub fn update_section_lines(
    section_lines: &Vec<String>,
    section_title: &str,
    markdown_content: &str,
) -> (text: String)
    ensures
        text@ == updated_section(texts(section_lines@), section_title@, markdown_content@),
{
    let lines = split_lines(&chars_of(markdown_content));
    let new_lines = lines_of_strings(section_lines);
    let out = replace_section(&lines, &chars_of(section_title), &new_lines);
    join_lines(&out)
}

fn is_section_name(text: &str) -> (r: bool)
    ensures
        r == names_section(text@),
{
    let lower = text.to_lowercase();
    let c = chars_of(lower.as_str());
    let a = skip_spaces(&c, 0);
    let b = skip_spaces_back(&c, a, c.len());
    let ghost t = trim(c@);
    if b - a == 11 && c[a] == 't' && c[a + 1] == 'i' && c[a + 2] == 'm' && c[a + 3] == 'e' && c[a
        + 4] == ' ' && c[a + 5] == 'b' && c[a + 6] == 'l' && c[a + 7] == 'o' && c[a + 8] == 'c'
        && c[a + 9] == 'k' && c[a + 10] == 's' {
        assert(t =~= section_name());
        true
    } else {
        assert(t != section_name()) by {
            if t == section_name() {
                assert(t.len() == 11);
                assert(t[0] == 't' && t[1] == 'i' && t[2] == 'm' && t[3] == 'e' && t[4] == ' '
                    && t[5] == 'b' && t[6] == 'l' && t[7] == 'o' && t[8] == 'c' && t[9] == 'k'
                    && t[10] == 's');
            }
        }
        false
    }
}

/// Collects from the events of a note the list items of the section of
/// the time blocks.
pub fn block_strings_from_events(events: &Vec<MdEvent>) -> (found: Vec<String>)
    ensures
        texts(found@) == block_strings_of(event_views(events@)),
{
    let ghost all = event_views(events@);
    let mut found: Vec<String> = Vec::new();
    let mut at_title = false;
    let mut in_section = false;
    let mut in_item = false;
    let mut item = String::new();
    let mut i: usize = 0;
    assert(texts(found@) =~= Seq::<Seq<char>>::empty());
    while i < events.len()
        invariant
            i <= events.len(),
            all == event_views(events@),
            reader_after(all, i as nat) == (ReaderState {
                at_title,
                in_section,
                in_item,
                item: item@,
                found: texts(found@),
            }),
        decreases events.len() - i,
    {
        let ghost before = texts(found@);
        assert(all[i as int] == events@[i as int]@);
        match &events[i] {
            MdEvent::ItemStart => {
                if in_section {
                    item = String::new();
                    in_item = true;
                }
            },
            MdEvent::ItemEnd => {
                if in_item {
                    found.push(item.clone());
                    assert(texts(found@) =~= before.push(item@));
                    in_item = false;
                }
            },
            MdEvent::HeadingStart => {
                at_title = true;
                in_section = false;
            },
            MdEvent::SectionHeadingEnd => {
                at_title = false;
            },
            MdEvent::Text(t) => {
                if at_title {
                    at_title = false;
                    in_section = is_section_name(t.as_str());
                }
                if in_item {
                    item.append(t.as_str());
                }
            },
            MdEvent::Other => {},
        }
        i += 1;
    }
    found
}

/// Reads from a note the list items of the section of the time blocks:
/// what `block_strings_from_events` finds in the events that the markdown
/// parser gives for the note.
pub fn read_block_strings(markdown_content: &str) -> (found: Vec<String>)
    ensures
        texts(found@) == block_strings_of(markdown_events(markdown_content@)),
{
    let events = parse_markdown(markdown_content);
    block_strings_from_events(&events)
}

} // verus!
