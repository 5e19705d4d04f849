//! One scheduled activity, written as a line of text:
//! an optional period (`HH:MM - HH:MM` or `HH:MM`), an optional origin in
//! parentheses, and a description.
use crate::tag::{parse_tags_in, tag_views, tags_of, Tag};
use crate::text::{
    chars_of, digit_char, digit_value, find_char, index_of, is_digit, is_digit_char, is_space, is_trimmed,
    lemma_index_of, lemma_index_of_run, lemma_spaces_begin, lemma_spaces_end, lemma_spaces_run,
    lemma_spaces_run_back, lemma_trim, skip_spaces, skip_spaces_back, slice_of, spaces_end,
    string_of, trim,
};
use vstd::prelude::*;

verus! {

/// The minutes given to a block whose period is no well-formed range.
pub const DEFAULT_DURATION: u16 = 30;

/// One scheduled activity.
#[derive(Debug, PartialEq, Eq)]
pub struct Block {
    /// `"HH:MM - HH:MM"`, `"HH:MM"`, or empty.
    pub period: String,
    /// The name of the collection that owns the block.
    pub origin: String,
    /// Free text; may hold tags.
    pub desc: String,
    /// Minutes, derived from the period when the block is made.
    pub duration: u16,
    /// The tags of the description, in order of appearance.
    pub tags: Vec<Tag>,
}

/// What a block is, as plain mathematical values.
pub struct BlockModel {
    pub period: Seq<char>,
    pub origin: Seq<char>,
    pub desc: Seq<char>,
    pub duration: nat,
    pub tags: Seq<Seq<Seq<char>>>,
}

impl View for Block {
    type V = BlockModel;

    open spec fn view(&self) -> BlockModel {
        BlockModel {
            period: self.period@,
            origin: self.origin@,
            desc: self.desc@,
            duration: self.duration as nat,
            tags: tag_views(self.tags@),
        }
    }
}

/// The models of a sequence of blocks.
pub open spec fn block_views(blocks: Seq<Block>) -> Seq<BlockModel> {
    blocks.map_values(|b: Block| b@)
}

/// The number that the two digits at `i` and `i + 1` write.
pub open spec fn two_digits(s: Seq<char>, i: int) -> int {
    digit_value(s[i]) * 10 + digit_value(s[i + 1])
}

/// Whether a time of day `HH:MM` stands at `i`: two digits, a colon, two
/// digits, with the hour below 24 and the minute below 60.
pub open spec fn is_time(s: Seq<char>, i: int) -> bool {
    &&& 0 <= i
    &&& i + 5 <= s.len()
    &&& is_digit(s[i])
    &&& is_digit(s[i + 1])
    &&& s[i + 2] == ':'
    &&& is_digit(s[i + 3])
    &&& is_digit(s[i + 4])
    &&& two_digits(s, i) < 24
    &&& two_digits(s, i + 3) < 60
}

/// The minutes since midnight of the time of day that stands at `i`.
pub open spec fn minutes_at(s: Seq<char>, i: int) -> int {
    two_digits(s, i) * 60 + two_digits(s, i + 3)
}

/// The end of the period that starts at `i`: behind `HH:MM - HH:MM` where
/// that stands there (whitespace around the dash is optional), else behind
/// a single `HH:MM`, else `i` itself: no period.
pub open spec fn period_end(s: Seq<char>, i: int) -> int {
    if is_time(s, i) {
        let dash = spaces_end(s, i + 5);
        let second = spaces_end(s, dash + 1);
        if dash < s.len() && s[dash] == '-' && is_time(s, second) {
            second + 5
        } else {
            i + 5
        }
    } else {
        i
    }
}

/// Whether an origin in parentheses starts at `k`: an opening parenthesis
/// with a closing one somewhere behind it.
pub open spec fn has_origin(s: Seq<char>, k: int) -> bool {
    0 <= k < s.len() && s[k] == '(' && index_of(s, ')', k + 1) < s.len()
}

/// The three fields that a line of text holds.
pub struct Fields {
    pub period: Seq<char>,
    pub origin: Seq<char>,
    pub desc: Seq<char>,
}

/// The grammar of a block line. Leading whitespace is skipped; a period is
/// read only at the very start; an origin in parentheses may follow and is
/// trimmed; all that remains, without its leading whitespace, is the
/// description. Without an origin in the text the block has the default one.
pub open spec fn fields_of(default_origin: Seq<char>, s: Seq<char>) -> Fields {
    let a = spaces_end(s, 0);
    let b = period_end(s, a);
    let k = spaces_end(s, b);
    if has_origin(s, k) {
        let c = index_of(s, ')', k + 1);
        Fields {
            period: s.subrange(a, b),
            origin: trim(s.subrange(k + 1, c)),
            desc: s.subrange(spaces_end(s, c + 1), s.len() as int),
        }
    } else {
        Fields { period: s.subrange(a, b), origin: default_origin, desc: s.subrange(k, s.len() as int) }
    }
}

/// The minutes since midnight that `t` writes, where `t` is exactly a time
/// of day `HH:MM`.
pub open spec fn clock_minutes(t: Seq<char>) -> Option<int> {
    if t.len() == 5 && is_time(t, 0) {
        Some(minutes_at(t, 0))
    } else {
        None
    }
}

/// The minutes of a period. Where the period holds exactly one dash, with a
/// time of day on either side (whitespace aside) and the second no earlier
/// than the first, it is their difference; in every other case it is 30.
pub open spec fn duration_of(period: Seq<char>) -> nat {
    let dash = index_of(period, '-', 0);
    if dash < period.len() && index_of(period, '-', dash + 1) == period.len() {
        let start = clock_minutes(trim(period.subrange(0, dash)));
        let end = clock_minutes(trim(period.subrange(dash + 1, period.len() as int)));
        if start is Some && end is Some && end->0 >= start->0 {
            (end->0 - start->0) as nat
        } else {
            30
        }
    } else {
        30
    }
}

/// The block made of three fields: the duration follows from the period and
/// the tags from the description.
pub open spec fn block_with(period: Seq<char>, origin: Seq<char>, desc: Seq<char>) -> BlockModel {
    BlockModel { period, origin, desc, duration: duration_of(period), tags: tags_of(desc) }
}

/// The block that a line of text stands for.
pub open spec fn block_of(default_origin: Seq<char>, s: Seq<char>) -> BlockModel {
    let f = fields_of(default_origin, s);
    block_with(f.period, f.origin, f.desc)
}

/// A block as it is written into a plan: period and description, with the
/// origin in parentheses between them where it is asked for.
pub open spec fn rendered(b: BlockModel, include_origin: bool) -> Seq<char> {
    if include_origin {
        b.period + seq![' ', '('] + b.origin + seq![')', ' '] + b.desc
    } else {
        b.period + seq![' '] + b.desc
    }
}

/// Whether `p` is a period as the grammar reads one: empty, a time of day,
/// or two times of day around a dash.
pub open spec fn is_period(p: Seq<char>) -> bool {
    p.len() == 0 || (is_time(p, 0) && period_end(p, 0) == p.len())
}

/// Whether `p` is a range: a time of day, a dash with optional whitespace
/// around it, and a time of day, and nothing else.
pub open spec fn is_range(p: Seq<char>) -> bool {
    let dash = spaces_end(p, 5);
    let second = spaces_end(p, dash + 1);
    &&& is_time(p, 0)
    &&& dash < p.len()
    &&& p[dash] == '-'
    &&& is_time(p, second)
    &&& second + 5 == p.len()
}

/// The time of day `hours:minutes`, written `HH:MM`.
pub open spec fn time_text(hours: int, minutes: int) -> Seq<char> {
    seq![
        digit_char(hours / 10),
        digit_char(hours % 10),
        ':',
        digit_char(minutes / 10),
        digit_char(minutes % 10),
    ]
}

/// The range from one time of day to another, written `HH:MM - HH:MM`.
pub open spec fn range_text(h1: int, m1: int, h2: int, m2: int) -> Seq<char> {
    time_text(h1, m1) + seq![' ', '-', ' '] + time_text(h2, m2)
}

/// The duration of a range is the distance between its two times of day,
/// provided that the second is no earlier than the first; it is 30
/// otherwise.
pub proof fn lemma_duration_of_range(p: Seq<char>)
    requires
        is_range(p),
    ensures
        ({
            let start = minutes_at(p, 0);
            let end = minutes_at(p, p.len() - 5);
            duration_of(p) == if end >= start {
                end - start
            } else {
                30
            }
        }),
{
    let n = p.len() as int;
    let dash = spaces_end(p, 5);
    let second = spaces_end(p, dash + 1);
    lemma_spaces_end(p, 5);
    lemma_spaces_end(p, dash + 1);
    assert forall|k: int| 0 <= k < dash implies #[trigger] p[k] != '-' by {
        if k >= 5 {
            assert(is_space(p[k]));
        }
    }
    lemma_index_of_run(p, '-', 0, dash);
    assert forall|k: int| dash + 1 <= k < n implies #[trigger] p[k] != '-' by {
        if k < second {
            assert(is_space(p[k]));
        }
    }
    lemma_index_of_run(p, '-', dash + 1, n);
    let left = p.subrange(0, dash);
    let right = p.subrange(dash + 1, n);
    lemma_spaces_run(left, 0, 0);
    assert forall|k: int| 5 <= k < dash implies is_space(#[trigger] left[k]) by {
        assert(left[k] == p[k]);
    }
    lemma_spaces_run_back(left, 0, 5, dash);
    assert(trim(left) =~= p.subrange(0, 5));
    assert forall|k: int| 0 <= k < second - dash - 1 implies is_space(#[trigger] right[k]) by {
        assert(right[k] == p[k + dash + 1]);
    }
    lemma_spaces_run(right, 0, second - dash - 1);
    lemma_spaces_run_back(right, second - dash - 1, right.len() as int, right.len() as int);
    assert(trim(right) =~= p.subrange(second, n));
    assert(is_time(trim(left), 0));
    assert(is_time(trim(right), 0));
    assert(minutes_at(trim(left), 0) == minutes_at(p, 0));
    assert(minutes_at(trim(right), 0) == minutes_at(p, n - 5));
}

/// A period written `HH:MM - HH:MM`, with times of day that exist and the
/// second no earlier than the first, lasts from the first to the second.
pub proof fn lemma_duration_of_written_range(h1: int, m1: int, h2: int, m2: int)
    requires
        0 <= h1 < 24,
        0 <= m1 < 60,
        0 <= h2 < 24,
        0 <= m2 < 60,
        h2 * 60 + m2 >= h1 * 60 + m1,
    ensures
        is_range(range_text(h1, m1, h2, m2)),
        duration_of(range_text(h1, m1, h2, m2)) == (h2 * 60 + m2) - (h1 * 60 + m1),
{
    let p = range_text(h1, m1, h2, m2);
    assert(p.len() == 13);
    assert(p[0] == digit_char(h1 / 10) && p[1] == digit_char(h1 % 10) && p[2] == ':' && p[3]
        == digit_char(m1 / 10) && p[4] == digit_char(m1 % 10));
    assert(p[5] == ' ' && p[6] == '-' && p[7] == ' ');
    assert(p[8] == digit_char(h2 / 10) && p[9] == digit_char(h2 % 10) && p[10] == ':' && p[11]
        == digit_char(m2 / 10) && p[12] == digit_char(m2 % 10));
    assert(forall|d: int| 0 <= d <= 9 ==> is_digit(#[trigger] digit_char(d)) && digit_value(digit_char(d)) == d);
    assert(two_digits(p, 0) == h1);
    assert(two_digits(p, 3) == m1);
    assert(two_digits(p, 8) == h2);
    assert(two_digits(p, 11) == m2);
    lemma_spaces_run(p, 5, 6);
    lemma_spaces_run(p, 7, 8);
    assert(is_range(p));
    lemma_duration_of_range(p);
}

/// A text that does not start with a time of day, leading whitespace
/// aside, gives a block without a period, and of 30 minutes.
pub proof fn lemma_without_leading_time(default_origin: Seq<char>, s: Seq<char>)
    requires
        !is_time(s, spaces_end(s, 0)),
    ensures
        block_of(default_origin, s).period == Seq::<char>::empty(),
        block_of(default_origin, s).duration == 30,
{
    let a = spaces_end(s, 0);
    lemma_spaces_end(s, 0);
    assert(s.subrange(a, a) =~= Seq::<char>::empty());
    assert(fields_of(default_origin, s).period =~= Seq::<char>::empty());
}

/// The period that the grammar reads at `a` is a period when taken by
/// itself.
pub proof fn lemma_period_is_period(s: Seq<char>, a: int)
    requires
        0 <= a <= s.len(),
    ensures
        a <= period_end(s, a) <= s.len(),
        is_period(s.subrange(a, period_end(s, a))),
{
    let b = period_end(s, a);
    if is_time(s, a) {
        let dash = spaces_end(s, a + 5);
        let second = spaces_end(s, dash + 1);
        lemma_spaces_end(s, a + 5);
        if dash < s.len() {
            lemma_spaces_end(s, dash + 1);
        }
        let p = s.subrange(a, b);
        assert(is_time(p, 0));
        if dash < s.len() && s[dash] == '-' && is_time(s, second) {
            assert forall|k: int| 5 <= k < dash - a implies is_space(#[trigger] p[k]) by {
                assert(p[k] == s[k + a]);
            }
            lemma_spaces_run(p, 5, dash - a);
            assert forall|k: int| dash - a + 1 <= k < second - a implies is_space(#[trigger] p[k]) by {
                assert(p[k] == s[k + a]);
            }
            lemma_spaces_run(p, dash - a + 1, second - a);
            assert(is_time(p, second - a));
        } else {
            lemma_spaces_run(p, 5, 5);
        }
    }
}

/// Reading the fields of a rendered block gives the fields back: for a
/// period as the grammar reads one, an origin without `)` that neither
/// starts nor ends with whitespace, and a description that does not start
/// with whitespace.
pub proof fn lemma_fields_of_rendered(b: BlockModel, default_origin: Seq<char>)
    requires
        is_period(b.period),
        is_trimmed(b.origin),
        forall|k: int| 0 <= k < b.origin.len() ==> b.origin[k] != ')',
        b.desc.len() > 0 ==> !is_space(b.desc[0]),
    ensures
        fields_of(default_origin, rendered(b, true)) == (Fields {
            period: b.period,
            origin: b.origin,
            desc: b.desc,
        }),
{
    let p = b.period;
    let o = b.origin;
    let d = b.desc;
    let r = rendered(b, true);
    let n = p.len() as int;
    assert(r.len() == n + 2 + o.len() + 2 + d.len());
    assert(forall|k: int| 0 <= k < n ==> r[k] == p[k]);
    assert(r[n] == ' ');
    assert(r[n + 1] == '(');
    assert(forall|k: int| 0 <= k < o.len() ==> r[n + 2 + k] == o[k]);
    assert(r[n + 2 + o.len()] == ')');
    assert(r[n + 3 + o.len()] == ' ');
    assert(forall|k: int| 0 <= k < d.len() ==> r[n + 4 + o.len() + k] == d[k]);
    let a = spaces_end(r, 0);
    if n == 0 {
        lemma_spaces_run(r, 0, 1);
        assert(!is_time(r, 1));
        assert(period_end(r, a) == 1);
        lemma_spaces_run(r, 1, 1);
        assert(r.subrange(1, 1) =~= p);
    } else {
        lemma_spaces_run(r, 0, 0);
        assert(is_time(r, 0));
        let dash = spaces_end(p, 5);
        let second = spaces_end(p, dash + 1);
        lemma_spaces_end(p, 5);
        if dash < n && p[dash] == '-' && is_time(p, second) {
            lemma_spaces_end(p, dash + 1);
            assert forall|k: int| 5 <= k < dash implies is_space(#[trigger] r[k]) by {
                assert(r[k] == p[k]);
            }
            lemma_spaces_run(r, 5, dash);
            assert forall|k: int| dash + 1 <= k < second implies is_space(#[trigger] r[k]) by {
                assert(r[k] == p[k]);
            }
            lemma_spaces_run(r, dash + 1, second);
            assert(is_time(r, second));
            assert(period_end(r, 0) == n);
        } else {
            assert(n == 5);
            lemma_spaces_run(r, 5, 6);
            assert(period_end(r, 0) == n);
        }
        lemma_spaces_run(r, n, n + 1);
        assert(r.subrange(0, n) =~= p);
    }
    let e = period_end(r, a);
    let k0 = spaces_end(r, e);
    assert(k0 == n + 1);
    assert(r.subrange(a, e) == p);
    let c = n + 2 + o.len();
    assert forall|k: int| n + 2 <= k < c implies #[trigger] r[k] != ')' by {
        assert(r[k] == o[k - n - 2]);
    }
    lemma_index_of_run(r, ')', n + 2, c);
    assert(has_origin(r, k0));
    assert(r.subrange(k0 + 1, c) =~= o);
    lemma_trim(o);
    if d.len() == 0 {
        lemma_spaces_run(r, c + 1, c + 2);
    } else {
        lemma_spaces_run(r, c + 1, c + 2);
    }
    assert(r.subrange(c + 2, r.len() as int) =~= d);
}

/// The fields that the grammar reads have their shape: the period is a
/// period, the description does not start with whitespace, and an origin
/// that the text gives in parentheses holds no `)` and neither starts nor
/// ends with whitespace.
pub proof fn lemma_fields_shape(default_origin: Seq<char>, s: Seq<char>)
    ensures
        is_period(fields_of(default_origin, s).period),
        fields_of(default_origin, s).desc.len() > 0 ==> !is_space(fields_of(default_origin, s).desc[0]),
        has_origin(s, spaces_end(s, period_end(s, spaces_end(s, 0)))) ==> is_trimmed(
            fields_of(default_origin, s).origin,
        ) && forall|k: int|
            0 <= k < fields_of(default_origin, s).origin.len() ==> fields_of(
                default_origin,
                s,
            ).origin[k] != ')',
{
    let a = spaces_end(s, 0);
    lemma_spaces_end(s, 0);
    lemma_period_is_period(s, a);
    let e = period_end(s, a);
    lemma_spaces_end(s, e);
    let k = spaces_end(s, e);
    let f = fields_of(default_origin, s);
    if has_origin(s, k) {
        let c = index_of(s, ')', k + 1);
        lemma_index_of(s, ')', k + 1);
        let inner = s.subrange(k + 1, c);
        let o = trim(inner);
        lemma_trim(inner);
        lemma_spaces_end(inner, 0);
        lemma_spaces_begin(inner, spaces_end(inner, 0), inner.len() as int);
        assert forall|j: int| 0 <= j < o.len() implies o[j] != ')' by {
            let x = spaces_end(inner, 0);
            assert(o[j] == inner[x + j]);
            assert(inner[x + j] == s[k + 1 + x + j]);
        }
        lemma_spaces_end(s, c + 1);
        assert(f.desc.len() > 0 ==> f.desc[0] == s[spaces_end(s, c + 1)]);
    } else {
        assert(f.desc.len() > 0 ==> f.desc[0] == s[k]);
    }
}

/// Parsing is idempotent on the fields: where a text gives its block an
/// origin of its own, in parentheses, the rendered block with its origin
/// parses to the same period, origin and description, whatever the default
/// origin is then.
pub proof fn lemma_parse_rendered(default_origin: Seq<char>, s: Seq<char>, other_default: Seq<char>)
    requires
        has_origin(s, spaces_end(s, period_end(s, spaces_end(s, 0)))),
    ensures
        fields_of(other_default, rendered(block_of(default_origin, s), true)) == fields_of(
            default_origin,
            s,
        ),
        block_of(other_default, rendered(block_of(default_origin, s), true)) == block_of(
            default_origin,
            s,
        ),
{
    lemma_fields_shape(default_origin, s);
    lemma_fields_of_rendered(block_of(default_origin, s), other_default);
}

/// A block whose origin is not the default one, rendered with its origin,
/// parses to the same block under the same default.
pub proof fn lemma_parse_rendered_foreign(default_origin: Seq<char>, s: Seq<char>)
    requires
        block_of(default_origin, s).origin != default_origin,
    ensures
        block_of(default_origin, rendered(block_of(default_origin, s), true)) == block_of(
            default_origin,
            s,
        ),
{
    lemma_parse_rendered(default_origin, s, default_origin);
}

/// Whether a time of day stands at `i`.
pub fn time_at(chars: &Vec<char>, i: usize) -> (r: bool)
    requires
        i <= chars.len(),
    ensures
        r == is_time(chars@, i as int),
{
    if chars.len() - i < 5 {
        return false;
    }
    if !(is_digit_char(chars[i]) && is_digit_char(chars[i + 1]) && chars[i + 2] == ':'
        && is_digit_char(chars[i + 3]) && is_digit_char(chars[i + 4])) {
        return false;
    }
    let zero: u32 = '0' as u32;
    let hours: u32 = (chars[i] as u32 - zero) * 10 + (chars[i + 1] as u32 - zero);
    let minutes: u32 = (chars[i + 3] as u32 - zero) * 10 + (chars[i + 4] as u32 - zero);
    hours < 24 && minutes < 60
}

/// The minutes since midnight of the time of day at `i`.
pub fn minutes_of_time(chars: &Vec<char>, i: usize) -> (m: u16)
    requires
        is_time(chars@, i as int),
    ensures
        m == minutes_at(chars@, i as int),
        m < 1440,
{
    let n = chars.len();
    assert(i + 5 <= n);
    let zero: u32 = '0' as u32;
    let hours: u32 = (chars[i] as u32 - zero) * 10 + (chars[i + 1] as u32 - zero);
    let minutes: u32 = (chars[i + 3] as u32 - zero) * 10 + (chars[i + 4] as u32 - zero);
    (hours * 60 + minutes) as u16
}

/// Reads the period that starts at `i` and returns where it ends.
pub fn scan_period(chars: &Vec<char>, i: usize) -> (e: usize)
    requires
        i <= chars.len(),
    ensures
        e == period_end(chars@, i as int),
        i <= e <= chars.len(),
{
    if !time_at(chars, i) {
        return i;
    }
    let dash = skip_spaces(chars, i + 5);
    if dash < chars.len() && chars[dash] == '-' {
        let second = skip_spaces(chars, dash + 1);
        if time_at(chars, second) {
            return second + 5;
        }
    }
    i + 5
}

/// The minutes that `t` writes once trimmed, where that is a time of day.
pub fn minutes_of_trimmed(t: &Vec<char>) -> (r: Option<u16>)
    ensures
        r is Some <==> clock_minutes(trim(t@)) is Some,
        r matches Some(m) ==> m == clock_minutes(trim(t@))->0 && m < 1440,
{
    let a = skip_spaces(t, 0);
    let b = skip_spaces_back(t, a, t.len());
    if b - a == 5 && time_at(t, a) {
        let m = minutes_of_time(t, a);
        Some(m)
    } else {
        None
    }
}

/// The minutes of a period.
pub fn duration_from_period(period: &Vec<char>) -> (d: u16)
    ensures
        d == duration_of(period@),
        d < 1440,
{
    let n = period.len();
    let dash = find_char(period, '-', 0);
    if dash < n {
        let other = find_char(period, '-', dash + 1);
        if other == n {
            let left = slice_of(period, 0, dash);
            let right = slice_of(period, dash + 1, n);
            let start = minutes_of_trimmed(&left);
            let end = minutes_of_trimmed(&right);
            match (start, end) {
                (Some(a), Some(b)) => {
                    if b >= a {
                        return b - a;
                    }
                },
                _ => {},
            }
        }
    }
    DEFAULT_DURATION
}

impl Clone for Block {
    fn clone(&self) -> (r: Block)
        ensures
            r@ == self@,
    {
        let mut tags: Vec<Tag> = Vec::new();
        let mut i: usize = 0;
        while i < self.tags.len()
            invariant
                i <= self.tags.len(),
                tags@.len() == i,
                forall|k: int| 0 <= k < i ==> (#[trigger] tags@[k])@ == self.tags@[k]@,
            decreases self.tags.len() - i,
        {
            let tag = self.tags[i].clone();
            tags.push(tag);
            i += 1;
        }
        assert(tag_views(tags@) =~= tag_views(self.tags@));
        Block {
            period: self.period.clone(),
            origin: self.origin.clone(),
            desc: self.desc.clone(),
            duration: self.duration,
            tags,
        }
    }
}

impl Block {
    /// Whether the derived fields are what the period and the description
    /// give.
    pub open spec fn wf(&self) -> bool {
        self@ == block_with(self.period@, self.origin@, self.desc@)
    }

    /// The block with these three fields.
    pub fn new(period: &str, origin: &str, desc: &str) -> (b: Block)
        ensures
            b@ == block_with(period@, origin@, desc@),
            b.wf(),
    {
        let period_chars = chars_of(period);
        let desc_chars = chars_of(desc);
        Block::from_chars(&period_chars, chars_of(origin), &desc_chars)
    }

    fn from_chars(period: &Vec<char>, origin: Vec<char>, desc: &Vec<char>) -> (b: Block)
        ensures
            b@ == block_with(period@, origin@, desc@),
            b.wf(),
    {
        let duration = duration_from_period(period);
        let tags = parse_tags_in(desc);
        let b = Block {
            period: string_of(period, 0, period.len()),
            origin: string_of(&origin, 0, origin.len()),
            desc: string_of(desc, 0, desc.len()),
            duration,
            tags,
        };
        assert(b.period@ =~= period@);
        assert(b.origin@ =~= origin@);
        assert(b.desc@ =~= desc@);
        b
    }

    /// Parses one line of text. Every text is a block: where no period, no
    /// origin or no description can be read, the field is empty or, for the
    /// origin, the default.
    pub fn parse_block_string(default_origin: &str, input: &str) -> (b: Block)
        ensures
            b@ == block_of(default_origin@, input@),
            b.wf(),
    {
        let s = chars_of(input);
        let n = s.len();
        let a = skip_spaces(&s, 0);
        let e = scan_period(&s, a);
        let k = skip_spaces(&s, e);
        let period = slice_of(&s, a, e);
        if k < n && s[k] == '(' {
            let c = find_char(&s, ')', k + 1);
            if c < n {
                let inner = slice_of(&s, k + 1, c);
                let from = skip_spaces(&inner, 0);
                let to = skip_spaces_back(&inner, from, inner.len());
                let origin = slice_of(&inner, from, to);
                let d = skip_spaces(&s, c + 1);
                let desc = slice_of(&s, d, n);
                return Block::from_chars(&period, origin, &desc);
            }
        }
        let desc = slice_of(&s, k, n);
        Block::from_chars(&period, chars_of(default_origin), &desc)
    }

    /// Parses one line of text; see `parse_block_string`. The result is
    /// always `Ok`.
    pub fn parse(default_origin: &str, input: &str) -> (r: Result<Block, String>)
        ensures
            r is Ok,
            r->Ok_0@ == block_of(default_origin@, input@),
            r->Ok_0.wf(),
    {
        Ok(Block::parse_block_string(default_origin, input))
    }

    /// The block as it is written into a plan: the period, the origin in
    /// parentheses where `include_origin` is set, and the description.
    pub fn to_block_string(&self, include_origin: bool) -> (line: String)
        ensures
            line@ == rendered(self@, include_origin),
    {
        let mut line = self.period.clone();
        line.push(' ');
        if include_origin {
            line.push('(');
            line.append(self.origin.as_str());
            line.push(')');
            line.push(' ');
        }
        line.append(self.desc.as_str());
        assert(line@ =~= rendered(self@, include_origin));
        line
    }
}

} // verus!
