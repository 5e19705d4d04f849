//! One origin's plan for one calendar day: an ordered list of blocks, some
//! of them the origin's own, the others brought in from elsewhere.
use crate::block::{block_of, block_views, rendered, two_digits, Block, BlockModel};
use crate::markdown_access::{
    block_strings_of, markdown_events, read_block_strings, section_title, update_section_lines,
    updated_section,
};
use crate::text::{
    chars_of, is_digit, is_digit_char, lemma_lex_total, lemma_lex_transitive, lex_le, same_text,
    text_le, texts,
};
use vstd::prelude::*;

verus! {

/// A calendar date.
#[derive(Clone, Copy, Debug, PartialEq, Eq, Structural)]
pub struct Day {
    pub year: u32,
    pub month: u32,
    pub day: u32,
}

/// Where the blocks of a plan come from, and where they are kept.
#[derive(Debug, PartialEq, Eq)]
pub enum Source {
    /// A daily note, a markdown file below the base directory of its
    /// collection.
    Markdown { abs_path: String, base_dir: String },
    /// A calendar feed.
    Calendar,
}

/// What a source is, as plain mathematical values.
pub enum SourceModel {
    Markdown { abs_path: Seq<char>, base_dir: Seq<char> },
    Calendar,
}

impl View for Source {
    type V = SourceModel;

    open spec fn view(&self) -> SourceModel {
        match self {
            Source::Markdown { abs_path, base_dir } => SourceModel::Markdown {
                abs_path: abs_path@,
                base_dir: base_dir@,
            },
            Source::Calendar => SourceModel::Calendar,
        }
    }
}

impl Clone for Source {
    fn clone(&self) -> (r: Source)
        ensures
            r@ == self@,
    {
        match self {
            Source::Markdown { abs_path, base_dir } => Source::Markdown {
                abs_path: abs_path.clone(),
                base_dir: base_dir.clone(),
            },
            Source::Calendar => Source::Calendar,
        }
    }
}

/// One origin's view of one calendar day.
#[derive(Debug)]
pub struct DayPlan {
    pub origin: String,
    pub blocks: Vec<Block>,
    pub source: Source,
    /// The date, where it is known without looking at the source.
    pub day: Option<Day>,
}

/// What a plan is, as plain mathematical values.
pub struct DayPlanModel {
    pub origin: Seq<char>,
    pub blocks: Seq<BlockModel>,
    pub source: SourceModel,
    pub day: Option<Day>,
}

impl View for DayPlan {
    type V = DayPlanModel;

    open spec fn view(&self) -> DayPlanModel {
        DayPlanModel {
            origin: self.origin@,
            blocks: block_views(self.blocks@),
            source: self.source@,
            day: self.day,
        }
    }
}

/// The models of a sequence of plans.
pub open spec fn plan_views(plans: Seq<DayPlan>) -> Seq<DayPlanModel> {
    plans.map_values(|p: DayPlan| p@)
}

/// The test for a block that belongs to `origin` itself.
pub open spec fn owned_by(origin: Seq<char>) -> spec_fn(BlockModel) -> bool {
    |b: BlockModel| b.origin == origin
}

/// The blocks of `blocks` that belong to `origin` itself, in their order.
pub open spec fn originals(blocks: Seq<BlockModel>, origin: Seq<char>) -> Seq<BlockModel> {
    blocks.filter(owned_by(origin))
}

/// The original blocks of every plan, plan after plan.
pub open spec fn all_originals(plans: Seq<DayPlanModel>) -> Seq<BlockModel>
    decreases plans.len(),
{
    if plans.len() == 0 {
        Seq::<BlockModel>::empty()
    } else {
        all_originals(plans.drop_last()) + originals(plans.last().blocks, plans.last().origin)
    }
}

/// Where a block with this period goes into `s`, looking from `i` on:
/// behind every block whose period comes no later in the textual order.
pub open spec fn insert_pos(s: Seq<BlockModel>, period: Seq<char>, i: int) -> int
    decreases s.len() - i,
{
    if 0 <= i < s.len() && lex_le(s[i].period, period) {
        insert_pos(s, period, i + 1)
    } else {
        i
    }
}

/// `s` with `b` put in at its place by period.
pub open spec fn insert_by_period(s: Seq<BlockModel>, b: BlockModel) -> Seq<BlockModel> {
    s.insert(insert_pos(s, b.period, 0), b)
}

/// The blocks in the textual order of their periods; blocks with the same
/// period keep the order that they had. The order is the one of the text,
/// not of the times: a block without a period comes first.
pub open spec fn sorted_by_period(s: Seq<BlockModel>) -> Seq<BlockModel>
    decreases s.len(),
{
    if s.len() == 0 {
        s
    } else {
        insert_by_period(sorted_by_period(s.drop_last()), s.last())
    }
}

/// Whether every block of `s` is followed only by blocks whose period comes
/// no earlier.
pub open spec fn is_sorted_by_period(s: Seq<BlockModel>) -> bool {
    forall|i: int, j: int| 0 <= i < j < s.len() ==> lex_le(#[trigger] s[i].period, #[trigger] s[j].period)
}

/// Whether the ten characters at `i` are a date written `YYYY-MM-DD`.
pub open spec fn is_date_at(s: Seq<char>, i: int) -> bool {
    &&& 0 <= i
    &&& i + 10 <= s.len()
    &&& is_digit(s[i])
    &&& is_digit(s[i + 1])
    &&& is_digit(s[i + 2])
    &&& is_digit(s[i + 3])
    &&& s[i + 4] == '-'
    &&& is_digit(s[i + 5])
    &&& is_digit(s[i + 6])
    &&& s[i + 7] == '-'
    &&& is_digit(s[i + 8])
    &&& is_digit(s[i + 9])
}

/// The numbers written at `i` in the shape `YYYY-MM-DD`.
pub open spec fn date_at(s: Seq<char>, i: int) -> Day {
    Day {
        year: (two_digits(s, i) * 100 + two_digits(s, i + 2)) as u32,
        month: two_digits(s, i + 5) as u32,
        day: two_digits(s, i + 8) as u32,
    }
}

/// Whether a year has a 29th of February.
pub open spec fn is_leap_year(year: int) -> bool {
    year % 4 == 0 && (year % 100 != 0 || year % 400 == 0)
}

/// The number of days of a month.
pub open spec fn days_in_month(year: int, month: int) -> int {
    if month == 2 {
        if is_leap_year(year) {
            29
        } else {
            28
        }
    } else if month == 4 || month == 6 || month == 9 || month == 11 {
        30
    } else {
        31
    }
}

/// Whether the date exists in the calendar.
pub open spec fn is_calendar_day(d: Day) -> bool {
    1 <= d.month <= 12 && 1 <= d.day <= days_in_month(d.year as int, d.month as int)
}

/// The first date of the calendar written `YYYY-MM-DD` in `s` at or after
/// `i`.
pub open spec fn first_date(s: Seq<char>, i: int) -> Option<Day>
    decreases s.len() - i,
{
    if i < 0 || i + 10 > s.len() {
        None
    } else if is_date_at(s, i) && is_calendar_day(date_at(s, i)) {
        Some(date_at(s, i))
    } else {
        first_date(s, i + 1)
    }
}

/// The day of a plan: the date it carries, else the first date in the path
/// of its file, else none.
pub open spec fn day_of(plan: DayPlanModel) -> Option<Day> {
    match plan.day {
        Some(d) => Some(d),
        None => match plan.source {
            SourceModel::Markdown { abs_path, base_dir } => first_date(abs_path, 0),
            SourceModel::Calendar => None,
        },
    }
}

/// The place of a block lies behind blocks that come no later and, unless
/// it is the end, before one that comes later.
pub proof fn lemma_insert_pos(s: Seq<BlockModel>, period: Seq<char>, i: int)
    requires
        0 <= i <= s.len(),
    ensures
        i <= insert_pos(s, period, i) <= s.len(),
        forall|k: int| i <= k < insert_pos(s, period, i) ==> lex_le((#[trigger] s[k]).period, period),
        insert_pos(s, period, i) < s.len() ==> !lex_le(s[insert_pos(s, period, i)].period, period),
    decreases s.len() - i,
{
    if i < s.len() && lex_le(s[i].period, period) {
        lemma_insert_pos(s, period, i + 1);
    }
}

/// A block that is put in at its place leaves a sorted list sorted.
pub proof fn lemma_insert_keeps_sorted(s: Seq<BlockModel>, b: BlockModel)
    requires
        is_sorted_by_period(s),
    ensures
        is_sorted_by_period(insert_by_period(s, b)),
{
    let p = insert_pos(s, b.period, 0);
    lemma_insert_pos(s, b.period, 0);
    let t = s.insert(p, b);
    assert forall|i: int, j: int| 0 <= i < j < t.len() implies lex_le(
        #[trigger] t[i].period,
        #[trigger] t[j].period,
    ) by {
        if j < p {
            assert(t[i] == s[i] && t[j] == s[j]);
        } else if j == p {
            assert(t[i] == s[i]);
        } else if i < p {
            assert(t[i] == s[i] && t[j] == s[j - 1]);
        } else if i == p {
            assert(t[j] == s[j - 1]);
            lemma_lex_total(s[p].period, b.period);
            if j - 1 > p {
                assert(lex_le(s[p].period, s[j - 1].period));
                lemma_lex_transitive(b.period, s[p].period, s[j - 1].period);
            }
        } else {
            assert(t[i] == s[i - 1] && t[j] == s[j - 1]);
        }
    }
}

/// Sorting by period gives a sorted list that holds the same blocks, each
/// as often as before.
pub proof fn lemma_sorted_by_period(s: Seq<BlockModel>)
    ensures
        is_sorted_by_period(sorted_by_period(s)),
        sorted_by_period(s).to_multiset() == s.to_multiset(),
        sorted_by_period(s).len() == s.len(),
    decreases s.len(),
{
    broadcast use vstd::seq_lib::group_to_multiset_ensures;

    if s.len() > 0 {
        let rest = sorted_by_period(s.drop_last());
        lemma_sorted_by_period(s.drop_last());
        lemma_insert_keeps_sorted(rest, s.last());
        lemma_insert_pos(rest, s.last().period, 0);
        assert(s.drop_last().push(s.last()) =~= s);
        assert(sorted_by_period(s).to_multiset() =~= s.to_multiset());
    }
}

/// Sorting leaves a sorted list as it is.
pub proof fn lemma_sorted_stays(s: Seq<BlockModel>)
    requires
        is_sorted_by_period(s),
    ensures
        sorted_by_period(s) == s,
    decreases s.len(),
{
    if s.len() > 0 {
        let rest = s.drop_last();
        assert forall|i: int, j: int| 0 <= i < j < rest.len() implies lex_le(
            #[trigger] rest[i].period,
            #[trigger] rest[j].period,
        ) by {
            assert(rest[i] == s[i] && rest[j] == s[j]);
        }
        lemma_sorted_stays(rest);
        lemma_insert_pos(rest, s.last().period, 0);
        let p = insert_pos(rest, s.last().period, 0);
        if p < rest.len() {
            assert(rest[p] == s[p]);
            assert(lex_le(s[p].period, s[s.len() - 1].period));
        }
        assert(rest.insert(p, s.last()) =~= s);
    }
}

/// The rest of a path below a base directory, as `Path::strip_prefix` of
/// the standard library gives it; none where the path is not below the base.
pub uninterp spec fn path_below(path: Seq<char>, base: Seq<char>) -> Option<Seq<char>>;

/// The text of a string that may be missing.
pub open spec fn option_text(s: Option<String>) -> Option<Seq<char>> {
    match s {
        Some(t) => Some(t@),
        None => None,
    }
}

/// Calls `Path::strip_prefix` on the two paths. The result depends on the
/// two paths alone; it is named `path_below`, and nothing more is claimed of
/// it.
#[verifier::external_body]
fn strip_base(path: &str, base: &str) -> (r: Option<String>)
    ensures
        option_text(r) == path_below(path@, base@),
{
    match std::path::Path::new(path).strip_prefix(base) {
        Ok(rest) => match rest.to_str() {
            Some(rest) => Some(rest.to_string()),
            None => None,
        },
        Err(_) => None,
    }
}

/// The identifier of a plan's note: the path of its file below the base
/// directory of its collection. A plan of a calendar has none.
pub open spec fn note_id_of(plan: DayPlanModel) -> Option<Seq<char>> {
    match plan.source {
        SourceModel::Markdown { abs_path, base_dir } => path_below(abs_path, base_dir),
        SourceModel::Calendar => None,
    }
}

/// The blocks that the lines stand for, with `origin` as the default.
pub open spec fn parsed_blocks(origin: Seq<char>, lines: Seq<Seq<char>>) -> Seq<BlockModel> {
    Seq::new(lines.len(), |i: int| block_of(origin, lines[i]))
}

/// A rendered block as an item of the list of a note: the list marker `- `
/// and the line.
pub open spec fn list_item(line: Seq<char>) -> Seq<char> {
    seq!['-', ' '] + line
}

/// The lines of a plan as they are written into its note: each block as a
/// list item, with its origin where that is not the plan's own.
pub open spec fn plan_lines(plan: DayPlanModel) -> Seq<Seq<char>> {
    Seq::new(
        plan.blocks.len(),
        |i: int| list_item(rendered(plan.blocks[i], plan.blocks[i].origin != plan.origin)),
    )
}

/// Parses each line as a block.
pub fn parse_blocks(origin: &str, block_strings: &Vec<String>) -> (blocks: Vec<Block>)
    ensures
        block_views(blocks@) == parsed_blocks(origin@, texts(block_strings@)),
{
    let mut blocks: Vec<Block> = Vec::new();
    let mut i: usize = 0;
    while i < block_strings.len()
        invariant
            i <= block_strings.len(),
            blocks@.len() == i,
            forall|k: int|
                0 <= k < i ==> (#[trigger] blocks@[k])@ == block_of(origin@, block_strings@[k]@),
        decreases block_strings.len() - i,
    {
        blocks.push(Block::parse_block_string(origin, block_strings[i].as_str()));
        i += 1;
    }
    assert(block_views(blocks@) =~= parsed_blocks(origin@, texts(block_strings@)));
    blocks
}

/// The lines of the blocks as they are written into the note of `origin`.
pub fn render_blocks(blocks: &Vec<Block>, origin: &str) -> (lines: Vec<String>)
    ensures
        texts(lines@) == plan_lines(
            DayPlanModel {
                origin: origin@,
                blocks: block_views(blocks@),
                source: SourceModel::Calendar,
                day: None,
            },
        ),
{
    let mut lines: Vec<String> = Vec::new();
    let mut i: usize = 0;
    while i < blocks.len()
        invariant
            i <= blocks.len(),
            lines@.len() == i,
            forall|k: int|
                0 <= k < i ==> (#[trigger] lines@[k])@ == list_item(
                    rendered(blocks@[k]@, blocks@[k]@.origin != origin@),
                ),
        decreases blocks.len() - i,
    {
        let foreign = !same_text(blocks[i].origin.as_str(), origin);
        let mut line = String::new();
        line.push('-');
        line.push(' ');
        line.append(blocks[i].to_block_string(foreign).as_str());
        assert(line@ =~= list_item(rendered(blocks@[i as int]@, foreign)));
        lines.push(line);
        i += 1;
    }
    assert(texts(lines@) =~= plan_lines(
        DayPlanModel {
            origin: origin@,
            blocks: block_views(blocks@),
            source: SourceModel::Calendar,
            day: None,
        },
    ));
    lines
}

/// Copies a list of blocks.
pub fn clone_blocks(blocks: &Vec<Block>) -> (r: Vec<Block>)
    ensures
        block_views(r@) == block_views(blocks@),
{
    let mut r: Vec<Block> = Vec::new();
    let mut i: usize = 0;
    while i < blocks.len()
        invariant
            i <= blocks.len(),
            r@.len() == i,
            forall|k: int| 0 <= k < i ==> (#[trigger] r@[k])@ == blocks@[k]@,
        decreases blocks.len() - i,
    {
        let b = blocks[i].clone();
        r.push(b);
        i += 1;
    }
    assert(block_views(r@) =~= block_views(blocks@));
    r
}

/// The blocks of `blocks` that belong to `origin` itself, in their order.
pub fn original_blocks(blocks: &Vec<Block>, origin: &str) -> (r: Vec<Block>)
    ensures
        block_views(r@) == originals(block_views(blocks@), origin@),
{
    let mut r: Vec<Block> = Vec::new();
    let mut i: usize = 0;
    let ghost all = block_views(blocks@);
    proof {
        reveal(Seq::filter);
        assert(all.take(0) =~= Seq::<BlockModel>::empty());
    }
    while i < blocks.len()
        invariant
            i <= blocks.len(),
            all == block_views(blocks@),
            block_views(r@) == originals(all.take(i as int), origin@),
        decreases blocks.len() - i,
    {
        let ghost before = block_views(r@);
        proof {
            reveal(Seq::filter);
            assert(all.take(i + 1).drop_last() =~= all.take(i as int));
            assert(all.take(i + 1).last() == blocks@[i as int]@);
        }
        if same_text(blocks[i].origin.as_str(), origin) {
            let b = blocks[i].clone();
            r.push(b);
            assert(block_views(r@) =~= before.push(blocks@[i as int]@));
        }
        i += 1;
    }
    assert(all.take(i as int) =~= all);
    r
}

/// The blocks in the textual order of their periods, blocks with the same
/// period in the order that they had.
pub fn sort_by_period(blocks: &Vec<Block>) -> (r: Vec<Block>)
    ensures
        block_views(r@) == sorted_by_period(block_views(blocks@)),
{
    let mut r: Vec<Block> = Vec::new();
    let mut i: usize = 0;
    let ghost all = block_views(blocks@);
    assert(all.take(0) =~= Seq::<BlockModel>::empty());
    while i < blocks.len()
        invariant
            i <= blocks.len(),
            all == block_views(blocks@),
            block_views(r@) == sorted_by_period(all.take(i as int)),
        decreases blocks.len() - i,
    {
        let ghost before = block_views(r@);
        let b = blocks[i].clone();
        let period = chars_of(b.period.as_str());
        let mut p: usize = 0;
        while p < r.len() && text_le(&chars_of(r[p].period.as_str()), &period)
            invariant
                p <= r.len(),
                before == block_views(r@),
                insert_pos(before, period@, 0) == insert_pos(before, period@, p as int),
            decreases r.len() - p,
        {
            p += 1;
        }
        r.insert(p, b);
        proof {
            assert(all.take(i + 1).drop_last() =~= all.take(i as int));
            assert(all.take(i + 1).last() == b@);
            assert(block_views(r@) =~= before.insert(p as int, b@));
        }
        i += 1;
    }
    assert(all.take(i as int) =~= all);
    r
}

/// Reads the number that the two digits at `i` write.
fn read_two_digits(chars: &Vec<char>, i: usize) -> (n: u32)
    requires
        i + 2 <= chars.len(),
        is_digit(chars@[i as int]),
        is_digit(chars@[i + 1]),
    ensures
        n == two_digits(chars@, i as int),
        n < 100,
{
    let zero: u32 = '0' as u32;
    (chars[i] as u32 - zero) * 10 + (chars[i + 1] as u32 - zero)
}

/// Whether a day is among these.
pub fn contains_day(days: &Vec<Day>, day: Day) -> (r: bool)
    ensures
        r == days@.contains(day),
{
    let mut i: usize = 0;
    while i < days.len()
        invariant
            i <= days.len(),
            forall|k: int| 0 <= k < i ==> days@[k] != day,
        decreases days.len() - i,
    {
        if days[i] == day {
            return true;
        }
        i += 1;
    }
    false
}

/// The number of days of a month.
pub fn month_length(year: u32, month: u32) -> (n: u32)
    ensures
        n == days_in_month(year as int, month as int),
{
    if month == 2 {
        if year % 4 == 0 && (year % 100 != 0 || year % 400 == 0) {
            29
        } else {
            28
        }
    } else if month == 4 || month == 6 || month == 9 || month == 11 {
        30
    } else {
        31
    }
}

/// Finds the first date of the calendar written `YYYY-MM-DD` in a text.
pub fn find_date(text: &str) -> (r: Option<Day>)
    ensures
        r == first_date(text@, 0),
{
    let chars = chars_of(text);
    let n = chars.len();
    let mut i: usize = 0;
    while n - i >= 10
        invariant
            i <= n,
            n == chars.len(),
            chars@ == text@,
            first_date(text@, 0) == first_date(text@, i as int),
        decreases n - i,
    {
        if is_digit_char(chars[i]) && is_digit_char(chars[i + 1]) && is_digit_char(chars[i + 2])
            && is_digit_char(chars[i + 3]) && chars[i + 4] == '-' && is_digit_char(chars[i + 5])
            && is_digit_char(chars[i + 6]) && chars[i + 7] == '-' && is_digit_char(chars[i + 8])
            && is_digit_char(chars[i + 9]) {
            let year = read_two_digits(&chars, i) * 100 + read_two_digits(&chars, i + 2);
            let month = read_two_digits(&chars, i + 5);
            let day = read_two_digits(&chars, i + 8);
            if 1 <= month && month <= 12 && 1 <= day && day <= month_length(year, month) {
                return Some(Day { year, month, day });
            }
        }
        i += 1;
    }
    None
}

impl Clone for DayPlan {
    fn clone(&self) -> (r: DayPlan)
        ensures
            r@ == self@,
    {
        DayPlan {
            origin: self.origin.clone(),
            blocks: clone_blocks(&self.blocks),
            source: self.source.clone(),
            day: self.day,
        }
    }
}

impl DayPlan {
    /// The plan of a daily note.
    pub fn new(origin: &str, blocks: Vec<Block>, abs_path: &str, base_dir: &str) -> (r: DayPlan)
        ensures
            r@ == (DayPlanModel {
                origin: origin@,
                blocks: block_views(blocks@),
                source: SourceModel::Markdown { abs_path: abs_path@, base_dir: base_dir@ },
                day: None,
            }),
    {
        DayPlan {
            origin: origin.to_owned(),
            blocks,
            source: Source::Markdown { abs_path: abs_path.to_owned(), base_dir: base_dir.to_owned() },
            day: None,
        }
    }

    /// The plan of a daily note whose items of the section of the time
    /// blocks are `block_strings`: each item is parsed as a block, with the
    /// plan's origin as the default.
    pub fn from_block_strings(
        block_strings: &Vec<String>,
        origin: &str,
        abs_path: &str,
        base_dir: &str,
    ) -> (r: DayPlan)
        ensures
            r@ == (DayPlanModel {
                origin: origin@,
                blocks: parsed_blocks(origin@, texts(block_strings@)),
                source: SourceModel::Markdown { abs_path: abs_path@, base_dir: base_dir@ },
                day: None,
            }),
    {
        DayPlan::new(origin, parse_blocks(origin, block_strings), abs_path, base_dir)
    }

    /// The plan of a daily note: the items that the markdown parser finds
    /// in the section of the time blocks, each parsed as a block.
    pub fn from_markdown(markdown_content: &str, origin: &str, abs_path: &str, base_dir: &str) -> (r:
        DayPlan)
        ensures
            r@ == (DayPlanModel {
                origin: origin@,
                blocks: parsed_blocks(origin@, block_strings_of(markdown_events(markdown_content@))),
                source: SourceModel::Markdown { abs_path: abs_path@, base_dir: base_dir@ },
                day: None,
            }),
    {
        let block_strings = read_block_strings(markdown_content);
        DayPlan::from_block_strings(&block_strings, origin, abs_path, base_dir)
    }

    /// The note with the plan's blocks written into the section of the
    /// time blocks.
    pub fn update_markdown(&self, markdown_content: &str) -> (text: String)
        ensures
            text@ == updated_section(plan_lines(self@), section_title(), markdown_content@),
    {
        let lines = render_blocks(&self.blocks, self.origin.as_str());
        proof {
            reveal_strlit("Time Blocks");
            assert("Time Blocks"@ =~= section_title());
            assert(texts(lines@) =~= plan_lines(self@));
        }
        update_section_lines(&lines, "Time Blocks", markdown_content)
    }

    /// The identifier of the plan's note: the path of its file below the
    /// base directory.
    pub fn note_id(&self) -> (id: String)
        requires
            note_id_of(self@) is Some,
        ensures
            id@ == note_id_of(self@)->0,
    {
        match &self.source {
            Source::Markdown { abs_path, base_dir } => {
                match strip_base(abs_path.as_str(), base_dir.as_str()) {
                    Some(id) => id,
                    None => String::new(),
                }
            },
            Source::Calendar => String::new(),
        }
    }

    /// The identifier of the plan's note, or none where the file is not
    /// below the base directory or the plan has no file.
    pub fn try_note_id(&self) -> (id: Option<String>)
        ensures
            option_text(id) == note_id_of(self@),
    {
        match &self.source {
            Source::Markdown { abs_path, base_dir } => {
                if strip_base(abs_path.as_str(), base_dir.as_str()).is_some() {
                    Some(self.note_id())
                } else {
                    None
                }
            },
            Source::Calendar => None,
        }
    }

    /// The plan that a calendar feed gives for a day.
    pub fn from_calendar(origin: &str, blocks: Vec<Block>, day: Day) -> (r: DayPlan)
        ensures
            r@ == (DayPlanModel {
                origin: origin@,
                blocks: block_views(blocks@),
                source: SourceModel::Calendar,
                day: Some(day),
            }),
    {
        DayPlan { origin: origin.to_owned(), blocks, source: Source::Calendar, day: Some(day) }
    }

    /// The calendar day of the plan, where there is one.
    pub fn day(&self) -> (r: Option<Day>)
        ensures
            r == day_of(self@),
    {
        match self.day {
            Some(d) => Some(d),
            None => match &self.source {
                Source::Markdown { abs_path, base_dir } => find_date(abs_path.as_str()),
                Source::Calendar => None,
            },
        }
    }

    /// The blocks that belong to the plan's own origin, in their order.
    pub fn only_original_blocks(&self) -> (r: Vec<Block>)
        ensures
            block_views(r@) == originals(self@.blocks, self@.origin),
    {
        original_blocks(&self.blocks, self.origin.as_str())
    }

    /// Puts the blocks into the textual order of their periods.
    pub fn sort_blocks(&mut self)
        ensures
            final(self)@ == (DayPlanModel {
                blocks: sorted_by_period(old(self)@.blocks),
                ..old(self)@
            }),
    {
        let sorted = sort_by_period(&self.blocks);
        self.blocks = sorted;
    }

    /// Gives the plan to another origin.
    pub fn set_origin(&mut self, origin: &str)
        ensures
            final(self)@ == (DayPlanModel { origin: origin@, ..old(self)@ }),
    {
        self.origin = origin.to_owned();
    }

    /// The same plan with other blocks, in the textual order of their
    /// periods.
    pub fn with_updated_blocks(self, blocks: &Vec<Block>) -> (r: DayPlan)
        ensures
            r@ == (DayPlanModel { blocks: sorted_by_period(block_views(blocks@)), ..self@ }),
    {
        DayPlan {
            origin: self.origin,
            blocks: sort_by_period(blocks),
            source: self.source,
            day: self.day,
        }
    }

    /// This plan with the blocks of `other` added, all of them in the
    /// textual order of their periods.
    pub fn merge(self, other: DayPlan) -> (r: DayPlan)
        ensures
            r@ == (DayPlanModel {
                blocks: sorted_by_period(self@.blocks + other@.blocks),
                ..self@
            }),
    {
        let mut blocks = self.blocks;
        let mut others = other.blocks;
        let ghost mine = block_views(blocks@);
        let ghost theirs = block_views(others@);
        blocks.append(&mut others);
        assert(block_views(blocks@) =~= mine + theirs);
        DayPlan {
            origin: self.origin,
            blocks: sort_by_period(&blocks),
            source: self.source,
            day: self.day,
        }
    }
}

/// The original blocks of every plan, plan after plan.
pub fn original_blocks_from_all(plans: &Vec<DayPlan>) -> (r: Vec<Block>)
    ensures
        block_views(r@) == all_originals(plan_views(plans@)),
{
    let mut r: Vec<Block> = Vec::new();
    let mut i: usize = 0;
    let ghost all = plan_views(plans@);
    assert(all.take(0) =~= Seq::<DayPlanModel>::empty());
    while i < plans.len()
        invariant
            i <= plans.len(),
            all == plan_views(plans@),
            block_views(r@) == all_originals(all.take(i as int)),
        decreases plans.len() - i,
    {
        let ghost before = block_views(r@);
        let mut own = plans[i].only_original_blocks();
        let ghost added = block_views(own@);
        r.append(&mut own);
        proof {
            assert(all.take(i + 1).drop_last() =~= all.take(i as int));
            assert(all.take(i + 1).last() == plans@[i as int]@);
            assert(block_views(r@) =~= before + added);
        }
        i += 1;
    }
    assert(all.take(i as int) =~= all);
    r
}

} // verus!
