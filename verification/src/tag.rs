//! Hierarchical tags written inside free text as `@segment/segment/...`.
//!
//! A segment is a plain word, a bracketed span such as `[[Some Project]]`
//! or a parenthesised span such as `(two words)`; spans are kept verbatim,
//! delimiters included.
use crate::text::{chars_of, is_space, is_space_char, string_of, texts};
use vstd::prelude::*;

verus! {

/// A hierarchical label: its path segments, outermost first.
#[derive(Debug, PartialEq, Eq)]
pub struct Tag {
    pub tagls: Vec<String>,
}

impl View for Tag {
    type V = Seq<Seq<char>>;

    open spec fn view(&self) -> Seq<Seq<char>> {
        texts(self.tagls@)
    }
}

impl Clone for Tag {
    fn clone(&self) -> (r: Tag)
        ensures
            r@ == self@,
    {
        let mut tagls: Vec<String> = Vec::new();
        let mut i: usize = 0;
        while i < self.tagls.len()
            invariant
                i <= self.tagls.len(),
                tagls@.len() == i,
                forall|k: int| 0 <= k < i ==> (#[trigger] tagls@[k])@ == self.tagls@[k]@,
            decreases self.tagls.len() - i,
        {
            let segment = self.tagls[i].clone();
            tagls.push(segment);
            i += 1;
        }
        assert(texts(tagls@) =~= texts(self.tagls@));
        Tag { tagls }
    }
}

/// The tags that a sequence of `Tag` values stands for.
pub open spec fn tag_views(tags: Seq<Tag>) -> Seq<Seq<Seq<char>>> {
    tags.map_values(|t: Tag| t@)
}

/// A plain segment stops before one of these, or at the end of the text.
pub open spec fn ends_plain(c: char) -> bool {
    c == '/' || c == '@' || is_space(c)
}

/// The end of the plain segment that starts at `i`.
pub open spec fn plain_end(s: Seq<char>, i: int) -> int
    decreases s.len() - i,
{
    if 0 <= i < s.len() && !ends_plain(s[i]) {
        plain_end(s, i + 1)
    } else {
        i
    }
}

/// The end of a parenthesised segment, scanning from `i`: just behind the
/// first `)`, or the end of the text where there is none.
pub open spec fn paren_end(s: Seq<char>, i: int) -> int
    decreases s.len() - i,
{
    if 0 <= i < s.len() {
        if s[i] == ')' {
            i + 1
        } else {
            paren_end(s, i + 1)
        }
    } else {
        i
    }
}

/// What reading `c` does to the count of brackets that are still open.
pub open spec fn bracket_step(c: char) -> int {
    if c == '[' {
        1
    } else if c == ']' {
        -1
    } else {
        0
    }
}

/// The end of the bracketed segment that starts at `start`, scanning on
/// from `j` with `depth` brackets open so far: just behind the first
/// character at which the count is back at zero and the segment read so far
/// ends with `]]`, or the end of the text where that never happens.
pub open spec fn bracket_end(s: Seq<char>, start: int, j: int, depth: int) -> int
    decreases s.len() - j,
{
    if 0 <= j < s.len() {
        let d = depth + bracket_step(s[j]);
        if d == 0 && j > start && s[j] == ']' && s[j - 1] == ']' {
            j + 1
        } else {
            bracket_end(s, start, j + 1, d)
        }
    } else {
        j
    }
}

/// The end of the segment that starts at `i`; the segment is `s[i..end]`
/// and may be empty.
pub open spec fn segment_end(s: Seq<char>, i: int) -> int {
    if 0 <= i < s.len() && s[i] == '[' {
        bracket_end(s, i, i, 0)
    } else if 0 <= i < s.len() && s[i] == '(' {
        paren_end(s, i)
    } else {
        plain_end(s, i)
    }
}

/// The non-empty segments of the tag whose first segment starts at `i`.
pub open spec fn tag_segments(s: Seq<char>, i: int) -> Seq<Seq<char>>
    decreases s.len() - i,
{
    if 0 <= i <= s.len() {
        let e = segment_end(s, i);
        let here = if e > i {
            seq![s.subrange(i, e)]
        } else {
            Seq::<Seq<char>>::empty()
        };
        if e < s.len() && s[e] == '/' {
            proof {
                lemma_segment_end(s, i);
            }
            here + tag_segments(s, e + 1)
        } else {
            here
        }
    } else {
        Seq::<Seq<char>>::empty()
    }
}

/// The index just behind the tag whose first segment starts at `i`.
pub open spec fn tag_end(s: Seq<char>, i: int) -> int
    decreases s.len() - i,
{
    if 0 <= i <= s.len() {
        let e = segment_end(s, i);
        if e < s.len() && s[e] == '/' {
            proof {
                lemma_segment_end(s, i);
            }
            tag_end(s, e + 1)
        } else {
            e
        }
    } else {
        i
    }
}

/// Whether a tag starts at `i`: an `@` directly followed by a character
/// that is no whitespace.
pub open spec fn tag_starts(s: Seq<char>, i: int) -> bool {
    0 <= i && i + 1 < s.len() && s[i] == '@' && !is_space(s[i + 1])
}

/// The tags found in `s` from index `i` on, in the order of their `@`.
pub open spec fn tags_from(s: Seq<char>, i: int) -> Seq<Seq<Seq<char>>>
    decreases s.len() - i,
{
    if 0 <= i < s.len() {
        if tag_starts(s, i) {
            let segments = tag_segments(s, i + 1);
            let found = if segments.len() > 0 {
                seq![segments]
            } else {
                Seq::<Seq<Seq<char>>>::empty()
            };
            proof {
                lemma_tag_end(s, i + 1);
            }
            found + tags_from(s, tag_end(s, i + 1))
        } else {
            tags_from(s, i + 1)
        }
    } else {
        Seq::<Seq<Seq<char>>>::empty()
    }
}

/// The tags of a text: every tag in it, left to right.
pub open spec fn tags_of(s: Seq<char>) -> Seq<Seq<Seq<char>>> {
    tags_from(s, 0)
}

/// A plain segment ends at or behind its start, within the text.
pub proof fn lemma_plain_end(s: Seq<char>, i: int)
    requires
        0 <= i <= s.len(),
    ensures
        i <= plain_end(s, i) <= s.len(),
    decreases s.len() - i,
{
    if i < s.len() && !ends_plain(s[i]) {
        lemma_plain_end(s, i + 1);
    }
}

/// A parenthesised segment ends at or behind its start, within the text.
pub proof fn lemma_paren_end(s: Seq<char>, i: int)
    requires
        0 <= i <= s.len(),
    ensures
        i <= paren_end(s, i) <= s.len(),
    decreases s.len() - i,
{
    if i < s.len() && s[i] != ')' {
        lemma_paren_end(s, i + 1);
    }
}

/// A bracketed segment ends at or behind the place from which it is
/// scanned, within the text.
pub proof fn lemma_bracket_end(s: Seq<char>, start: int, j: int, depth: int)
    requires
        0 <= j <= s.len(),
    ensures
        j <= bracket_end(s, start, j, depth) <= s.len(),
    decreases s.len() - j,
{
    if j < s.len() {
        let d = depth + bracket_step(s[j]);
        if !(d == 0 && j > start && s[j] == ']' && s[j - 1] == ']') {
            lemma_bracket_end(s, start, j + 1, d);
        }
    }
}

/// A segment ends at or behind its start, within the text.
pub proof fn lemma_segment_end(s: Seq<char>, i: int)
    requires
        0 <= i <= s.len(),
    ensures
        i <= segment_end(s, i) <= s.len(),
{
    lemma_plain_end(s, i);
    lemma_paren_end(s, i);
    lemma_bracket_end(s, i, i, 0);
}

/// A tag ends at or behind its start, within the text.
pub proof fn lemma_tag_end(s: Seq<char>, i: int)
    requires
        0 <= i <= s.len(),
    ensures
        i <= tag_end(s, i) <= s.len(),
    decreases s.len() - i,
{
    lemma_segment_end(s, i);
    let e = segment_end(s, i);
    if e < s.len() && s[e] == '/' {
        lemma_tag_end(s, e + 1);
    }
}

/// A plain segment holds none of the characters that end it, and ends at
/// one of them or at the end of the text.
pub proof fn lemma_plain_segment(s: Seq<char>, i: int)
    requires
        0 <= i <= s.len(),
    ensures
        forall|k: int| i <= k < plain_end(s, i) ==> !ends_plain(#[trigger] s[k]),
        plain_end(s, i) < s.len() ==> ends_plain(s[plain_end(s, i)]),
    decreases s.len() - i,
{
    if i < s.len() && !ends_plain(s[i]) {
        lemma_plain_segment(s, i + 1);
    }
}

/// A parenthesised segment that is closed holds one `)`, its last
/// character.
pub proof fn lemma_paren_segment(s: Seq<char>, i: int)
    requires
        0 <= i <= s.len(),
    ensures
        forall|k: int| i <= k < paren_end(s, i) - 1 ==> #[trigger] s[k] != ')',
        paren_end(s, i) < s.len() ==> i < paren_end(s, i) && s[paren_end(s, i) - 1] == ')',
    decreases s.len() - i,
{
    if i < s.len() && s[i] != ')' {
        lemma_paren_segment(s, i + 1);
        lemma_paren_end(s, i + 1);
    }
}

/// No segment of a tag is empty.
pub proof fn lemma_segments_not_empty(s: Seq<char>, i: int)
    requires
        0 <= i <= s.len(),
    ensures
        forall|k: int|
            0 <= k < tag_segments(s, i).len() ==> (#[trigger] tag_segments(s, i)[k]).len() > 0,
    decreases s.len() - i,
{
    lemma_segment_end(s, i);
    let e = segment_end(s, i);
    let here = if e > i {
        seq![s.subrange(i, e)]
    } else {
        Seq::<Seq<char>>::empty()
    };
    if e < s.len() && s[e] == '/' {
        lemma_segments_not_empty(s, e + 1);
        let rest = tag_segments(s, e + 1);
        assert forall|k: int| 0 <= k < (here + rest).len() implies (#[trigger] (here + rest)[k]).len()
            > 0 by {
            if k >= here.len() {
                assert((here + rest)[k] == rest[k - here.len()]);
            }
        }
    }
}

/// Every tag of a text has a segment, and none of its segments is empty.
pub proof fn lemma_tags_not_empty(s: Seq<char>, i: int)
    requires
        0 <= i <= s.len(),
    ensures
        forall|k: int| 0 <= k < tags_from(s, i).len() ==> (#[trigger] tags_from(s, i)[k]).len() > 0,
        forall|k: int, j: int|
            0 <= k < tags_from(s, i).len() && 0 <= j < tags_from(s, i)[k].len() ==> (
            #[trigger] tags_from(s, i)[k][j]).len() > 0,
    decreases s.len() - i,
{
    if i < s.len() {
        if tag_starts(s, i) {
            lemma_tag_end(s, i + 1);
            lemma_segments_not_empty(s, i + 1);
            lemma_tags_not_empty(s, tag_end(s, i + 1));
            let segments = tag_segments(s, i + 1);
            let found = if segments.len() > 0 {
                seq![segments]
            } else {
                Seq::<Seq<Seq<char>>>::empty()
            };
            let rest = tags_from(s, tag_end(s, i + 1));
            let all = tags_from(s, i);
            assert(all == found + rest);
            assert forall|k: int| 0 <= k < all.len() implies (#[trigger] all[k]).len() > 0 by {
                if k >= found.len() {
                    assert(all[k] == rest[k - found.len()]);
                }
            }
            assert forall|k: int, j: int| 0 <= k < all.len() && 0 <= j < all[k].len() implies (
            #[trigger] all[k][j]).len() > 0 by {
                if k >= found.len() {
                    assert(all[k] == rest[k - found.len()]);
                    assert(rest[k - found.len()][j].len() > 0);
                } else {
                    assert(all[k] == segments);
                }
            }
        } else {
            lemma_tags_not_empty(s, i + 1);
            assert(tags_from(s, i) == tags_from(s, i + 1));
        }
    } else {
        assert(tags_from(s, i).len() == 0);
    }
}

/// A text without an `@` has no tags.
pub proof fn lemma_no_tag_without_at_sign(s: Seq<char>, i: int)
    requires
        0 <= i <= s.len(),
        forall|k: int| i <= k < s.len() ==> #[trigger] s[k] != '@',
    ensures
        tags_from(s, i).len() == 0,
    decreases s.len() - i,
{
    if i < s.len() {
        lemma_no_tag_without_at_sign(s, i + 1);
    }
}

/// Reads one segment that starts at `i` and returns where it ends.
pub fn scan_segment(chars: &Vec<char>, i: usize) -> (e: usize)
    requires
        i <= chars.len(),
    ensures
        e == segment_end(chars@, i as int),
        i <= e <= chars.len(),
{
    proof {
        lemma_segment_end(chars@, i as int);
    }
    let n = chars.len();
    let mut j: usize = i;
    if i < n && chars[i] == '[' {
        let mut opened: usize = 0;
        let mut closed: usize = 0;
        let mut done = false;
        while !done && j < n
            invariant
                i <= j <= n,
                n == chars.len(),
                opened <= j - i,
                closed <= j - i,
                !done ==> bracket_end(chars@, i as int, i as int, 0) == bracket_end(
                    chars@,
                    i as int,
                    j as int,
                    opened - closed,
                ),
                done ==> j == bracket_end(chars@, i as int, i as int, 0),
            decreases n - j + (if done { 0int } else { 1int }),
        {
            let c = chars[j];
            if c == '[' {
                opened += 1;
            }
            if c == ']' {
                closed += 1;
            }
            if opened == closed && j > i && c == ']' && chars[j - 1] == ']' {
                done = true;
            }
            j += 1;
        }
    } else if i < n && chars[i] == '(' {
        let mut done = false;
        while !done && j < n
            invariant
                i <= j <= n,
                n == chars.len(),
                !done ==> paren_end(chars@, i as int) == paren_end(chars@, j as int),
                done ==> j == paren_end(chars@, i as int),
            decreases n - j + (if done { 0int } else { 1int }),
        {
            if chars[j] == ')' {
                done = true;
            }
            j += 1;
        }
    } else {
        while j < n && !(chars[j] == '/' || chars[j] == '@' || is_space_char(chars[j]))
            invariant
                i <= j <= n,
                n == chars.len(),
                plain_end(chars@, i as int) == plain_end(chars@, j as int),
            decreases n - j,
        {
            j += 1;
        }
    }
    j
}

/// Reads the tag whose first segment starts at `start`, the character
/// behind an `@`. Returns the tag, if it has a segment that is not empty,
/// and the index just behind what was read.
pub fn parse_single_tag(chars: &Vec<char>, start: usize) -> (r: (Option<Tag>, usize))
    requires
        start <= chars.len(),
    ensures
        r.1 == tag_end(chars@, start as int),
        start <= r.1 <= chars.len(),
        r.0 is Some <==> tag_segments(chars@, start as int).len() > 0,
        r.0 matches Some(t) ==> t@ == tag_segments(chars@, start as int),
{
    let n = chars.len();
    let mut levels: Vec<String> = Vec::new();
    let mut i: usize = start;
    let mut done = false;
    proof {
        lemma_tag_end(chars@, start as int);
    }
    while !done
        invariant
            start <= i <= n,
            n == chars.len(),
            !done ==> tag_segments(chars@, start as int) == texts(levels@) + tag_segments(
                chars@,
                i as int,
            ),
            !done ==> tag_end(chars@, start as int) == tag_end(chars@, i as int),
            done ==> tag_segments(chars@, start as int) == texts(levels@),
            done ==> tag_end(chars@, start as int) == i,
        decreases n - i + (if done { 0int } else { 1int }),
    {
        let e = scan_segment(chars, i);
        let ghost before = texts(levels@);
        if e > i {
            levels.push(string_of(chars, i, e));
            assert(texts(levels@) =~= before + seq![chars@.subrange(i as int, e as int)]);
        } else {
            assert(texts(levels@) =~= before + Seq::<Seq<char>>::empty());
        }
        if e < n && chars[e] == '/' {
            assert(tag_segments(chars@, start as int) =~= texts(levels@) + tag_segments(
                chars@,
                e + 1,
            ));
            i = e + 1;
        } else {
            assert(tag_segments(chars@, start as int) =~= texts(levels@));
            i = e;
            done = true;
        }
    }
    if levels.len() == 0 {
        (None, i)
    } else {
        (Some(Tag { tagls: levels }), i)
    }
}

/// Extracts the tags from a text, in the order in which they appear.
pub fn parse_tags(input: &str) -> (tags: Vec<Tag>)
    ensures
        tag_views(tags@) == tags_of(input@),
{
    let chars = chars_of(input);
    parse_tags_in(&chars)
}

/// Extracts the tags from a text that is given by its characters.
pub fn parse_tags_in(chars: &Vec<char>) -> (tags: Vec<Tag>)
    ensures
        tag_views(tags@) == tags_of(chars@),
{
    let n = chars.len();
    let mut tags: Vec<Tag> = Vec::new();
    let mut i: usize = 0;
    while i < n
        invariant
            i <= n,
            n == chars.len(),
            tags_of(chars@) == tag_views(tags@) + tags_from(chars@, i as int),
        decreases n - i,
    {
        let ghost before = tag_views(tags@);
        if chars[i] == '@' && i + 1 < n && !is_space_char(chars[i + 1]) {
            let (tag, e) = parse_single_tag(chars, i + 1);
            match tag {
                Some(t) => {
                    tags.push(t);
                    assert(tag_views(tags@) =~= before + seq![t@]);
                },
                None => {
                    assert(tag_views(tags@) =~= before + Seq::<Seq<Seq<char>>>::empty());
                },
            }
            assert(tags_of(chars@) =~= tag_views(tags@) + tags_from(chars@, e as int));
            i = e;
        } else {
            i += 1;
        }
    }
    assert(tags_of(chars@) =~= tag_views(tags@));
    tags
}

} // verus!
