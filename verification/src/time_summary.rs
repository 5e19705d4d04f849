//! Adding up the minutes of blocks: in total, and per tag along the tag
//! hierarchy.
use crate::block::{Block, BlockModel};
use crate::day_plan::{originals, plan_views, DayPlan, DayPlanModel};
use crate::text::{chars_of, same_text, texts};
use vstd::prelude::*;

verus! {

/// The minutes spent under one tag segment, and under each segment below it.
#[derive(Debug)]
pub struct TagTime {
    pub tag: String,
    pub minutes: u16,
    pub sub_tags: Vec<TagTime>,
}

/// What a node is, as plain mathematical values.
pub struct TagTimeModel {
    pub tag: Seq<char>,
    pub minutes: nat,
    pub sub_tags: Seq<TagTimeModel>,
}

/// The model of a node.
pub open spec fn node_view(t: TagTime) -> TagTimeModel
    decreases t, 0nat,
{
    TagTimeModel {
        tag: t.tag@,
        minutes: t.minutes as nat,
        sub_tags: nodes_view(t.sub_tags@, t.sub_tags@.len()),
    }
}

/// The models of the first `n` of these nodes.
pub open spec fn nodes_view(nodes: Seq<TagTime>, n: nat) -> Seq<TagTimeModel>
    decreases nodes, n,
{
    if n == 0 || n > nodes.len() {
        Seq::<TagTimeModel>::empty()
    } else {
        nodes_view(nodes, (n - 1) as nat).push(node_view(nodes[n - 1]))
    }
}

impl View for TagTime {
    type V = TagTimeModel;

    open spec fn view(&self) -> TagTimeModel {
        node_view(*self)
    }
}

/// The models of a sequence of nodes.
pub open spec fn tag_time_views(nodes: Seq<TagTime>) -> Seq<TagTimeModel> {
    nodes_view(nodes, nodes.len())
}

/// The models of the blocks that a sequence of references points to.
pub open spec fn ref_views(blocks: Seq<&Block>) -> Seq<BlockModel> {
    blocks.map_values(|b: &Block| (*b)@)
}

/// The segment of a tag at a depth, where the tag is that deep.
pub open spec fn segment_at(tag: Seq<Seq<char>>, level: nat) -> Option<Seq<char>> {
    if level < tag.len() {
        Some(tag[level as int])
    } else {
        None
    }
}

/// The segments at depth `level` of these tags, in their order.
pub open spec fn labels_of_tags(tags: Seq<Seq<Seq<char>>>, level: nat) -> Seq<Seq<char>>
    decreases tags.len(),
{
    if tags.len() == 0 {
        Seq::<Seq<char>>::empty()
    } else {
        let rest = labels_of_tags(tags.drop_last(), level);
        match segment_at(tags.last(), level) {
            Some(label) => rest.push(label),
            None => rest,
        }
    }
}

/// The segments at depth `level` of all tags of all blocks, in their order.
pub open spec fn labels_at(blocks: Seq<BlockModel>, level: nat) -> Seq<Seq<char>>
    decreases blocks.len(),
{
    if blocks.len() == 0 {
        Seq::<Seq<char>>::empty()
    } else {
        labels_at(blocks.drop_last(), level) + labels_of_tags(blocks.last().tags, level)
    }
}

/// `s` without repetitions: each value where it first occurs.
pub open spec fn distinct(s: Seq<Seq<char>>) -> Seq<Seq<char>>
    decreases s.len(),
{
    if s.len() == 0 {
        s
    } else {
        let d = distinct(s.drop_last());
        if d.contains(s.last()) {
            d
        } else {
            d.push(s.last())
        }
    }
}

/// How many of these tags have `label` as their segment at depth `level`.
pub open spec fn count_tagged(tags: Seq<Seq<Seq<char>>>, level: nat, label: Seq<char>) -> nat
    decreases tags.len(),
{
    if tags.len() == 0 {
        0
    } else {
        count_tagged(tags.drop_last(), level, label) + if segment_at(tags.last(), level) == Some(
            label,
        ) {
            1nat
        } else {
            0nat
        }
    }
}

/// `n` times the block `b`.
pub open spec fn repeat(b: BlockModel, n: nat) -> Seq<BlockModel> {
    Seq::new(n, |i: int| b)
}

/// The group of `label` at depth `level`: the blocks in their order, each
/// once for every tag of it whose segment at that depth is `label`.
pub open spec fn group_of(blocks: Seq<BlockModel>, level: nat, label: Seq<char>) -> Seq<
    BlockModel,
>
    decreases blocks.len(),
{
    if blocks.len() == 0 {
        Seq::<BlockModel>::empty()
    } else {
        group_of(blocks.drop_last(), level, label) + repeat(
            blocks.last(),
            count_tagged(blocks.last().tags, level, label),
        )
    }
}

/// The sum of the durations of the blocks.
pub open spec fn total_minutes_of(blocks: Seq<BlockModel>) -> nat
    decreases blocks.len(),
{
    if blocks.len() == 0 {
        0
    } else {
        total_minutes_of(blocks.drop_last()) + blocks.last().duration
    }
}

/// Whether no tag of any block has more than `bound` segments.
pub open spec fn tags_within(blocks: Seq<BlockModel>, bound: nat) -> bool {
    forall|i: int, j: int|
        0 <= i < blocks.len() && 0 <= j < blocks[i].tags.len() ==> (#[trigger] blocks[i].tags[j]).len()
            <= bound
}

/// The number of segments of the longest of these tags.
pub open spec fn longest_tag(tags: Seq<Seq<Seq<char>>>) -> nat
    decreases tags.len(),
{
    if tags.len() == 0 {
        0
    } else {
        let rest = longest_tag(tags.drop_last());
        if tags.last().len() > rest {
            tags.last().len()
        } else {
            rest
        }
    }
}

/// The number of segments of the longest tag of any block.
pub open spec fn deepest(blocks: Seq<BlockModel>) -> nat
    decreases blocks.len(),
{
    if blocks.len() == 0 {
        0
    } else {
        let rest = deepest(blocks.drop_last());
        let here = longest_tag(blocks.last().tags);
        if here > rest {
            here
        } else {
            rest
        }
    }
}

/// The node of `label` at depth `level`: the minutes of its group, and
/// below it the nodes of that group one level deeper.
pub open spec fn node_of(blocks: Seq<BlockModel>, level: nat, bound: nat, label: Seq<char>) -> TagTimeModel
    decreases bound - level, 0nat,
{
    let group = group_of(blocks, level, label);
    TagTimeModel {
        tag: label,
        minutes: total_minutes_of(group),
        sub_tags: if level < bound {
            tag_times(group, level + 1, bound)
        } else {
            Seq::<TagTimeModel>::empty()
        },
    }
}

/// The nodes at depth `level`, one for each distinct segment that a tag has
/// at that depth, in the order in which the segments first occur. No tag is
/// taken to be deeper than `bound`.
pub open spec fn tag_times(blocks: Seq<BlockModel>, level: nat, bound: nat) -> Seq<TagTimeModel>
    decreases bound - level, 1nat,
{
    if level >= bound {
        Seq::<TagTimeModel>::empty()
    } else {
        let labels = distinct(labels_at(blocks, level));
        Seq::new(labels.len(), |i: int| node_of(blocks, level, bound, labels[i]))
    }
}

/// The time per tag from depth `level` on.
pub open spec fn time_per_tag_of(blocks: Seq<BlockModel>, level: nat) -> Seq<TagTimeModel> {
    tag_times(blocks, level, deepest(blocks))
}

/// Whether every sum in `tag_times(blocks, level, bound)` fits into 16 bits.
pub open spec fn minutes_fit(blocks: Seq<BlockModel>, level: nat, bound: nat) -> bool
    decreases bound - level,
{
    level < bound ==> forall|i: int|
        #![trigger distinct(labels_at(blocks, level))[i]]
        0 <= i < distinct(labels_at(blocks, level)).len() ==> {
            let group = group_of(blocks, level, distinct(labels_at(blocks, level))[i]);
            total_minutes_of(group) <= u16::MAX && minutes_fit(group, level + 1, bound)
        }
}

/// The word that marks a break.
pub open spec fn break_word() -> Seq<char> {
    seq!['b', 'r', 'e', 'a', 'k']
}

/// Whether one of these tags has `break` as its first segment.
pub open spec fn has_break(tags: Seq<Seq<Seq<char>>>) -> bool {
    exists|j: int| 0 <= j < tags.len() && segment_at(#[trigger] tags[j], 0) == Some(break_word())
}

/// The minutes of the blocks that are no break.
pub open spec fn minutes_without_breaks(blocks: Seq<BlockModel>) -> nat
    decreases blocks.len(),
{
    if blocks.len() == 0 {
        0
    } else {
        minutes_without_breaks(blocks.drop_last()) + if has_break(blocks.last().tags) {
            0
        } else {
            blocks.last().duration
        }
    }
}

/// The minutes that one plan's origin spent on its own blocks, breaks
/// aside.
pub open spec fn plan_minutes(plan: DayPlanModel) -> nat {
    minutes_without_breaks(originals(plan.blocks, plan.origin))
}

/// The minutes spent over all plans: the durations of the original blocks
/// of each, without the blocks tagged as a break.
pub open spec fn total_spent(plans: Seq<DayPlanModel>) -> nat
    decreases plans.len(),
{
    if plans.len() == 0 {
        0
    } else {
        total_spent(plans.drop_last()) + plan_minutes(plans.last())
    }
}

/// Tags that are not deeper than `level` have no segment at that depth.
pub proof fn lemma_labels_of_tags_empty(tags: Seq<Seq<Seq<char>>>, level: nat)
    requires
        forall|j: int| 0 <= j < tags.len() ==> (#[trigger] tags[j]).len() <= level,
    ensures
        labels_of_tags(tags, level).len() == 0,
    decreases tags.len(),
{
    if tags.len() > 0 {
        lemma_labels_of_tags_empty(tags.drop_last(), level);
    }
}

/// Below the deepest tag there are no segments.
pub proof fn lemma_labels_empty(blocks: Seq<BlockModel>, level: nat)
    requires
        tags_within(blocks, level),
    ensures
        labels_at(blocks, level).len() == 0,
    decreases blocks.len(),
{
    if blocks.len() > 0 {
        let rest = blocks.drop_last();
        assert forall|i: int, j: int| 0 <= i < rest.len() && 0 <= j < rest[i].tags.len() implies (#[trigger] rest[i].tags[j]).len() <= level by {
            assert(rest[i] == blocks[i]);
        }
        lemma_labels_empty(rest, level);
        lemma_labels_of_tags_empty(blocks.last().tags, level);
    }
}

/// Every block of a group is one of the blocks that were grouped.
pub proof fn lemma_group_members(blocks: Seq<BlockModel>, level: nat, label: Seq<char>)
    ensures
        forall|k: int|
            0 <= k < group_of(blocks, level, label).len() ==> blocks.contains(
                #[trigger] group_of(blocks, level, label)[k],
            ),
    decreases blocks.len(),
{
    if blocks.len() > 0 {
        let rest = blocks.drop_last();
        lemma_group_members(rest, level, label);
        let g = group_of(blocks, level, label);
        let g0 = group_of(rest, level, label);
        assert forall|k: int| 0 <= k < g.len() implies blocks.contains(#[trigger] g[k]) by {
            if k < g0.len() {
                assert(rest.contains(g0[k]));
                let i = choose|i: int| 0 <= i < rest.len() && rest[i] == g0[k];
                assert(blocks[i] == g[k]);
            } else {
                assert(g[k] == blocks[blocks.len() - 1]);
            }
        }
    }
}

/// A group holds no deeper tags than the blocks that were grouped.
pub proof fn lemma_group_within(blocks: Seq<BlockModel>, level: nat, label: Seq<char>, bound: nat)
    requires
        tags_within(blocks, bound),
    ensures
        tags_within(group_of(blocks, level, label), bound),
{
    lemma_group_members(blocks, level, label);
    let g = group_of(blocks, level, label);
    assert forall|i: int, j: int| 0 <= i < g.len() && 0 <= j < g[i].tags.len() implies (#[trigger] g[i].tags[j]).len() <= bound by {
        assert(blocks.contains(g[i]));
        let k = choose|k: int| 0 <= k < blocks.len() && blocks[k] == g[i];
        assert(blocks[k].tags[j].len() <= bound);
    }
}

/// No tag has more segments than the longest.
pub proof fn lemma_longest_tag(tags: Seq<Seq<Seq<char>>>)
    ensures
        forall|j: int| 0 <= j < tags.len() ==> (#[trigger] tags[j]).len() <= longest_tag(tags),
    decreases tags.len(),
{
    if tags.len() > 0 {
        lemma_longest_tag(tags.drop_last());
        assert forall|j: int| 0 <= j < tags.len() implies (#[trigger] tags[j]).len() <= longest_tag(tags) by {
            if j < tags.len() - 1 {
                assert(tags.drop_last()[j] == tags[j]);
            }
        }
    }
}

/// No tag is deeper than the deepest.
pub proof fn lemma_deepest(blocks: Seq<BlockModel>)
    ensures
        tags_within(blocks, deepest(blocks)),
    decreases blocks.len(),
{
    if blocks.len() > 0 {
        let rest = blocks.drop_last();
        lemma_deepest(rest);
        lemma_longest_tag(blocks.last().tags);
        assert forall|i: int, j: int| 0 <= i < blocks.len() && 0 <= j < blocks[i].tags.len() implies (#[trigger] blocks[i].tags[j]).len() <= deepest(blocks) by {
            if i < blocks.len() - 1 {
                assert(rest[i] == blocks[i]);
                assert(rest[i].tags[j].len() <= deepest(rest));
            }
        }
    }
}

/// The distinct values are the values, each once.
pub proof fn lemma_distinct(s: Seq<Seq<char>>)
    ensures
        distinct(s).no_duplicates(),
        forall|x: Seq<char>| distinct(s).contains(x) <==> s.contains(x),
    decreases s.len(),
{
    if s.len() > 0 {
        let rest = s.drop_last();
        let d = distinct(rest);
        lemma_distinct(rest);
        assert forall|x: Seq<char>| distinct(s).contains(x) <==> s.contains(x) by {
            if s.contains(x) {
                let i = choose|i: int| 0 <= i < s.len() && s[i] == x;
                if i < s.len() - 1 {
                    assert(rest[i] == x);
                    assert(rest.contains(x));
                    assert(d.contains(x));
                    let j = choose|j: int| 0 <= j < d.len() && d[j] == x;
                    assert(distinct(s)[j] == x);
                } else if !d.contains(x) {
                    assert(distinct(s)[d.len() as int] == x);
                } else {
                    let j = choose|j: int| 0 <= j < d.len() && d[j] == x;
                    assert(distinct(s)[j] == x);
                }
            }
            if distinct(s).contains(x) {
                let j = choose|j: int| 0 <= j < distinct(s).len() && distinct(s)[j] == x;
                if j < d.len() {
                    assert(d[j] == x);
                    assert(d.contains(x));
                    assert(rest.contains(x));
                    let i = choose|i: int| 0 <= i < rest.len() && rest[i] == x;
                    assert(s[i] == x);
                } else {
                    assert(s[s.len() - 1] == x);
                }
            }
        }
    }
}

/// The bound does not matter as long as no tag is deeper: any two such
/// bounds give the same nodes.
pub proof fn lemma_bound_is_free(blocks: Seq<BlockModel>, level: nat, first: nat, second: nat)
    requires
        tags_within(blocks, first),
        tags_within(blocks, second),
    ensures
        tag_times(blocks, level, first) == tag_times(blocks, level, second),
    decreases first - level,
{
    let labels = distinct(labels_at(blocks, level));
    if level >= first || level >= second {
        let low = if level >= first {
            first
        } else {
            second
        };
        assert forall|i: int, j: int| 0 <= i < blocks.len() && 0 <= j < blocks[i].tags.len() implies (
        #[trigger] blocks[i].tags[j]).len() <= level by {
            assert(blocks[i].tags[j].len() <= low);
        }
        lemma_labels_empty(blocks, level);
        assert(tag_times(blocks, level, first) =~= tag_times(blocks, level, second));
    } else {
        assert forall|i: int| 0 <= i < labels.len() implies node_of(blocks, level, first, labels[i])
            == node_of(blocks, level, second, labels[i]) by {
            let group = group_of(blocks, level, labels[i]);
            lemma_group_within(blocks, level, labels[i], first);
            lemma_group_within(blocks, level, labels[i], second);
            lemma_bound_is_free(group, level + 1, first, second);
        }
        assert(tag_times(blocks, level, first) =~= tag_times(blocks, level, second));
    }
}

/// The time per tag has one node for each distinct segment of the level,
/// with the minutes of the segment's group, and below it the time per tag
/// of that group one level deeper.
pub proof fn lemma_time_per_tag(blocks: Seq<BlockModel>, level: nat, i: int)
    requires
        0 <= i < distinct(labels_at(blocks, level)).len(),
    ensures
        time_per_tag_of(blocks, level).len() == distinct(labels_at(blocks, level)).len(),
        ({
            let label = distinct(labels_at(blocks, level))[i];
            let group = group_of(blocks, level, label);
            let node = time_per_tag_of(blocks, level)[i];
            &&& node.tag == label
            &&& node.minutes == total_minutes_of(group)
            &&& node.sub_tags == time_per_tag_of(group, level + 1)
        }),
{
    let bound = deepest(blocks);
    let label = distinct(labels_at(blocks, level))[i];
    let group = group_of(blocks, level, label);
    lemma_deepest(blocks);
    lemma_deepest(group);
    lemma_group_within(blocks, level, label, bound);
    if level >= bound {
        assert forall|i: int, j: int| 0 <= i < blocks.len() && 0 <= j < blocks[i].tags.len() implies (
        #[trigger] blocks[i].tags[j]).len() <= level by {
            assert(blocks[i].tags[j].len() <= bound);
        }
        lemma_labels_empty(blocks, level);
    }
    lemma_bound_is_free(group, level + 1, bound, deepest(group));
}

/// The models of nodes, one by one.
pub proof fn lemma_nodes_view(nodes: Seq<TagTime>, n: nat)
    requires
        n <= nodes.len(),
    ensures
        nodes_view(nodes, n).len() == n,
        forall|i: int| 0 <= i < n ==> #[trigger] nodes_view(nodes, n)[i] == nodes[i]@,
    decreases n,
{
    if n > 0 {
        lemma_nodes_view(nodes, (n - 1) as nat);
    }
}

/// Minutes as whole hours and the minutes that remain.
pub fn minutes_to_hours_minutes(total_duration_today: u16) -> (r: (u16, u16))
    ensures
        r.0 == total_duration_today / 60,
        r.1 == total_duration_today % 60,
        r.0 * 60 + r.1 == total_duration_today,
        r.1 < 60,
{
    let hours = total_duration_today / 60;
    let minutes = total_duration_today % 60;
    (hours, minutes)
}

/// The sum of the durations of the blocks, or none where it does not fit
/// into 16 bits.
pub fn try_total_minutes(blocks: &Vec<&Block>) -> (r: Option<u16>)
    ensures
        r is Some <==> total_minutes_of(ref_views(blocks@)) <= u16::MAX,
        r matches Some(total) ==> total == total_minutes_of(ref_views(blocks@)),
{
    let ghost all = ref_views(blocks@);
    let mut total: u16 = 0;
    let mut i: usize = 0;
    assert(all.take(0) =~= Seq::<BlockModel>::empty());
    while i < blocks.len()
        invariant
            i <= blocks.len(),
            all == ref_views(blocks@),
            total == total_minutes_of(all.take(i as int)),
        decreases blocks.len() - i,
    {
        proof {
            assert(all.take(i + 1).drop_last() =~= all.take(i as int));
            assert(all.take(i + 1).last() == (*blocks@[i as int])@);
            lemma_total_prefix(all, i + 1);
        }
        if blocks[i].duration > u16::MAX - total {
            return None;
        }
        total = total + blocks[i].duration;
        i += 1;
    }
    assert(all.take(i as int) =~= all);
    Some(total)
}

/// The sum of the durations of the blocks.
pub fn total_minutes(blocks: &Vec<&Block>) -> (total: u16)
    requires
        total_minutes_of(ref_views(blocks@)) <= u16::MAX,
    ensures
        total == total_minutes_of(ref_views(blocks@)),
{
    match try_total_minutes(blocks) {
        Some(total) => total,
        None => 0,
    }
}

/// The sum over a prefix is no more than the sum over all.
pub proof fn lemma_total_prefix(blocks: Seq<BlockModel>, n: int)
    requires
        0 <= n <= blocks.len(),
    ensures
        total_minutes_of(blocks.take(n)) <= total_minutes_of(blocks),
    decreases blocks.len() - n,
{
    if n < blocks.len() {
        lemma_total_prefix(blocks, n + 1);
        assert(blocks.take(n + 1).drop_last() =~= blocks.take(n));
    } else {
        assert(blocks.take(n) =~= blocks);
    }
}

/// Whether `label` is among `labels`.
fn contains_text(labels: &Vec<String>, label: &str) -> (r: bool)
    ensures
        r == texts(labels@).contains(label@),
{
    let mut i: usize = 0;
    while i < labels.len()
        invariant
            i <= labels.len(),
            forall|k: int| 0 <= k < i ==> texts(labels@)[k] != label@,
        decreases labels.len() - i,
    {
        if same_text(labels[i].as_str(), label) {
            assert(texts(labels@)[i as int] == label@);
            return true;
        }
        i += 1;
    }
    false
}

/// The distinct segments at depth `level`, each where it first occurs.
fn distinct_labels(blocks: &Vec<&Block>, level: usize) -> (labels: Vec<String>)
    ensures
        texts(labels@) == distinct(labels_at(ref_views(blocks@), level as nat)),
{
    let ghost all = ref_views(blocks@);
    let mut labels: Vec<String> = Vec::new();
    let mut i: usize = 0;
    assert(all.take(0) =~= Seq::<BlockModel>::empty());
    assert(texts(labels@) =~= Seq::<Seq<char>>::empty());
    while i < blocks.len()
        invariant
            i <= blocks.len(),
            all == ref_views(blocks@),
            texts(labels@) == distinct(labels_at(all.take(i as int), level as nat)),
        decreases blocks.len() - i,
    {
        let block: &Block = blocks[i];
        let ghost tags = all[i as int].tags;
        let ghost before = labels_at(all.take(i as int), level as nat);
        let mut j: usize = 0;
        assert(tags.take(0) =~= Seq::<Seq<Seq<char>>>::empty());
        assert(before + labels_of_tags(tags.take(0), level as nat) =~= before);
        while j < block.tags.len()
            invariant
                j <= block.tags.len(),
                tags == (*block)@.tags,
                texts(labels@) == distinct(before + labels_of_tags(tags.take(j as int), level as nat)),
            decreases block.tags.len() - j,
        {
            let tag = &block.tags[j];
            proof {
                assert(tags.take(j + 1).drop_last() =~= tags.take(j as int));
                assert(tags.take(j + 1).last() == tag@);
            }
            if level < tag.tagls.len() {
                let ghost seen = before + labels_of_tags(tags.take(j as int), level as nat);
                let ghost label = tag@[level as int];
                assert(tag.tagls@[level as int]@ == label);
                proof {
                    assert(before + labels_of_tags(tags.take(j + 1), level as nat) =~= seen.push(label));
                    assert(seen.push(label).drop_last() =~= seen);
                }
                if !contains_text(&labels, tag.tagls[level].as_str()) {
                    let ghost old_texts = texts(labels@);
                    labels.push(tag.tagls[level].clone());
                    assert(texts(labels@) =~= old_texts.push(label));
                }
            }
            j += 1;
        }
        proof {
            assert(tags.take(j as int) =~= tags);
            assert(all.take(i + 1).drop_last() =~= all.take(i as int));
            assert(all.take(i + 1).last() == all[i as int]);
        }
        i += 1;
    }
    assert(all.take(i as int) =~= all);
    labels
}

/// The group of `label` at depth `level`.
fn collect_group<'a>(blocks: &Vec<&'a Block>, level: usize, label: &str) -> (group: Vec<&'a Block>)
    ensures
        ref_views(group@) == group_of(ref_views(blocks@), level as nat, label@),
{
    let ghost all = ref_views(blocks@);
    let mut group: Vec<&'a Block> = Vec::new();
    let mut i: usize = 0;
    assert(all.take(0) =~= Seq::<BlockModel>::empty());
    assert(ref_views(group@) =~= Seq::<BlockModel>::empty());
    while i < blocks.len()
        invariant
            i <= blocks.len(),
            all == ref_views(blocks@),
            ref_views(group@) == group_of(all.take(i as int), level as nat, label@),
        decreases blocks.len() - i,
    {
        let block: &'a Block = blocks[i];
        let ghost tags = all[i as int].tags;
        let ghost before = ref_views(group@);
        let mut j: usize = 0;
        assert(tags.take(0) =~= Seq::<Seq<Seq<char>>>::empty());
        assert(before + repeat(all[i as int], 0) =~= before);
        while j < block.tags.len()
            invariant
                j <= block.tags.len(),
                tags == (*block)@.tags,
                (*block)@ == all[i as int],
                ref_views(group@) == before + repeat(
                    all[i as int],
                    count_tagged(tags.take(j as int), level as nat, label@),
                ),
            decreases block.tags.len() - j,
        {
            let tag = &block.tags[j];
            let ghost n = count_tagged(tags.take(j as int), level as nat, label@);
            proof {
                assert(tags.take(j + 1).drop_last() =~= tags.take(j as int));
                assert(tags.take(j + 1).last() == tag@);
            }
            if level < tag.tagls.len() {
                assert(tag.tagls@[level as int]@ == tag@[level as int]);
                if same_text(tag.tagls[level].as_str(), label) {
                    let ghost old_views = ref_views(group@);
                    group.push(block);
                    assert(ref_views(group@) =~= old_views.push((*block)@));
                    assert(before + repeat(all[i as int], n + 1) =~= (before + repeat(
                        all[i as int],
                        n,
                    )).push(all[i as int]));
                }
            }
            j += 1;
        }
        proof {
            assert(tags.take(j as int) =~= tags);
            assert(all.take(i + 1).drop_last() =~= all.take(i as int));
            assert(all.take(i + 1).last() == all[i as int]);
        }
        i += 1;
    }
    assert(all.take(i as int) =~= all);
    group
}

/// The time per tag from depth `level` on, for blocks with no tag deeper
/// than `bound`; none where one of the sums does not fit into 16 bits.
fn time_per_tag_within(blocks: &Vec<&Block>, level: usize, Ghost(bound): Ghost<nat>) -> (r: Option<
    Vec<TagTime>,
>)
    requires
        tags_within(ref_views(blocks@), bound),
    ensures
        r is Some <==> minutes_fit(ref_views(blocks@), level as nat, bound),
        r matches Some(nodes) ==> tag_time_views(nodes@) == tag_times(
            ref_views(blocks@),
            level as nat,
            bound,
        ),
    decreases bound - level,
{
    let ghost all = ref_views(blocks@);
    let labels = distinct_labels(blocks, level);
    let mut timings: Vec<TagTime> = Vec::new();
    proof {
        if level >= bound {
            assert forall|i: int, j: int| 0 <= i < all.len() && 0 <= j < all[i].tags.len() implies (#[trigger] all[i].tags[j]).len() <= level as nat by {
                assert(all[i].tags[j].len() <= bound);
            }
            lemma_labels_empty(all, level as nat);
        }
    }
    if labels.len() == 0 || level == usize::MAX {
        proof {
            if labels.len() > 0 {
                assert forall|i: int, j: int| 0 <= i < all.len() && 0 <= j < all[i].tags.len() implies (#[trigger] all[i].tags[j]).len() <= level as nat by {
                    assert(all[i] == (*blocks@[i])@);
                    assert(all[i].tags[j] == blocks@[i].tags@[j]@);
                    assert(blocks@[i].tags@[j].tagls.len() <= usize::MAX);
                    assert(blocks@[i].tags@[j].tagls.len() == blocks@[i].tags@[j].tagls@.len());
                }
                lemma_labels_empty(all, level as nat);
            }
            assert(tag_time_views(timings@) =~= tag_times(all, level as nat, bound));
        }
        return Some(timings);
    }
    let ghost wanted = tag_times(all, level as nat, bound);
    let ghost names = distinct(labels_at(all, level as nat));
    let mut k: usize = 0;
    while k < labels.len()
        invariant
            k <= labels.len(),
            level < bound,
            level < usize::MAX,
            all == ref_views(blocks@),
            tags_within(all, bound),
            names == distinct(labels_at(all, level as nat)),
            texts(labels@) == names,
            wanted == tag_times(all, level as nat, bound),
            timings@.len() == k,
            forall|i: int| 0 <= i < k ==> (#[trigger] timings@[i])@ == wanted[i],
            forall|i: int|
                0 <= i < k ==> total_minutes_of(group_of(all, level as nat, #[trigger] names[i]))
                    <= u16::MAX && minutes_fit(
                    group_of(all, level as nat, names[i]),
                    (level + 1) as nat,
                    bound,
                ),
        decreases labels.len() - k,
    {
        let group = collect_group(blocks, level, labels[k].as_str());
        proof {
            assert(texts(labels@)[k as int] == names[k as int]);
            lemma_group_within(all, level as nat, names[k as int], bound);
        }
        let minutes = match try_total_minutes(&group) {
            Some(minutes) => minutes,
            None => {
                return None;
            },
        };
        let sub_tags = match time_per_tag_within(&group, level + 1, Ghost(bound)) {
            Some(sub_tags) => sub_tags,
            None => {
                return None;
            },
        };
        let node = TagTime { tag: labels[k].clone(), minutes, sub_tags };
        proof {
            assert(node@ == wanted[k as int]);
        }
        timings.push(node);
        k += 1;
    }
    proof {
        lemma_nodes_view(timings@, timings@.len());
        assert(tag_time_views(timings@) =~= wanted);
    }
    Some(timings)
}

/// The time spent per tag, or none where a sum does not fit into 16 bits;
/// see `time_per_tag`.
pub fn try_time_per_tag(all_blocks: &Vec<&Block>, level: usize) -> (r: Option<Vec<TagTime>>)
    ensures
        r is Some <==> minutes_fit(
            ref_views(all_blocks@),
            level as nat,
            deepest(ref_views(all_blocks@)),
        ),
        r matches Some(nodes) ==> tag_time_views(nodes@) == time_per_tag_of(
            ref_views(all_blocks@),
            level as nat,
        ),
{
    proof {
        lemma_deepest(ref_views(all_blocks@));
    }
    time_per_tag_within(all_blocks, level, Ghost(deepest(ref_views(all_blocks@))))
}

/// The time spent per tag. The blocks are grouped by the segment that
/// their tags have at depth `level`; a block without a tag that deep is in
/// no group, and a block is in a group once for each of its tags that leads
/// there. Each group gives a node with the sum of its durations and with
/// the nodes of the same grouping one level deeper among its own blocks.
/// The nodes come in the order in which their segments first occur.
pub fn time_per_tag(all_blocks: &Vec<&Block>, level: usize) -> (r: Vec<TagTime>)
    requires
        minutes_fit(ref_views(all_blocks@), level as nat, deepest(ref_views(all_blocks@))),
    ensures
        tag_time_views(r@) == time_per_tag_of(ref_views(all_blocks@), level as nat),
{
    match try_time_per_tag(all_blocks, level) {
        Some(nodes) => nodes,
        None => Vec::new(),
    }
}

/// Whether a word is `break`.
fn is_break_word(word: &str) -> (r: bool)
    ensures
        r == (word@ == break_word()),
{
    let c = chars_of(word);
    if c.len() == 5 && c[0] == 'b' && c[1] == 'r' && c[2] == 'e' && c[3] == 'a' && c[4] == 'k' {
        assert(word@ =~= break_word());
        true
    } else {
        false
    }
}

/// Whether the block is tagged as a break.
pub fn is_break(block: &Block) -> (r: bool)
    ensures
        r == has_break(block@.tags),
{
    let mut j: usize = 0;
    while j < block.tags.len()
        invariant
            j <= block.tags.len(),
            forall|k: int| 0 <= k < j ==> segment_at(#[trigger] block@.tags[k], 0) != Some(break_word()),
        decreases block.tags.len() - j,
    {
        let tag = &block.tags[j];
        if tag.tagls.len() > 0 {
            assert(tag.tagls@[0]@ == tag@[0]);
            if is_break_word(tag.tagls[0].as_str()) {
                assert(segment_at(block@.tags[j as int], 0) == Some(break_word()));
                return true;
            }
        }
        assert(block@.tags[j as int] == tag@);
        j += 1;
    }
    false
}

/// The sum of the minutes of the plans up to `n` is no more than the sum
/// over all.
pub proof fn lemma_spent_prefix(plans: Seq<DayPlanModel>, n: int)
    requires
        0 <= n <= plans.len(),
    ensures
        total_spent(plans.take(n)) <= total_spent(plans),
    decreases plans.len() - n,
{
    if n < plans.len() {
        lemma_spent_prefix(plans, n + 1);
        assert(plans.take(n + 1).drop_last() =~= plans.take(n));
    } else {
        assert(plans.take(n) =~= plans);
    }
}

/// The minutes of the first blocks, breaks aside, are no more than those
/// of all.
pub proof fn lemma_without_breaks_prefix(blocks: Seq<BlockModel>, n: int)
    requires
        0 <= n <= blocks.len(),
    ensures
        minutes_without_breaks(blocks.take(n)) <= minutes_without_breaks(blocks),
    decreases blocks.len() - n,
{
    if n < blocks.len() {
        lemma_without_breaks_prefix(blocks, n + 1);
        assert(blocks.take(n + 1).drop_last() =~= blocks.take(n));
    } else {
        assert(blocks.take(n) =~= blocks);
    }
}

/// The minutes spent over all plans, or none where the sum does not fit
/// into 16 bits; see `total_time_spent`.
pub fn try_total_time_spent(all_of_day: &Vec<DayPlan>) -> (r: Option<u16>)
    ensures
        r is Some <==> total_spent(plan_views(all_of_day@)) <= u16::MAX,
        r matches Some(total) ==> total == total_spent(plan_views(all_of_day@)),
{
    let ghost all = plan_views(all_of_day@);
    let mut total: u16 = 0;
    let mut i: usize = 0;
    assert(all.take(0) =~= Seq::<DayPlanModel>::empty());
    while i < all_of_day.len()
        invariant
            i <= all_of_day.len(),
            all == plan_views(all_of_day@),
            total == total_spent(all.take(i as int)),
        decreases all_of_day.len() - i,
    {
        let own = all_of_day[i].only_original_blocks();
        let ghost mine = crate::block::block_views(own@);
        proof {
            assert(all.take(i + 1).drop_last() =~= all.take(i as int));
            assert(all.take(i + 1).last() == all_of_day@[i as int]@);
            lemma_spent_prefix(all, i + 1);
            assert(mine.take(0) =~= Seq::<BlockModel>::empty());
        }
        let mut j: usize = 0;
        let ghost start = total;
        while j < own.len()
            invariant
                j <= own.len(),
                mine == crate::block::block_views(own@),
                total == start + minutes_without_breaks(mine.take(j as int)),
                total_spent(all) >= start + minutes_without_breaks(mine),
                all == plan_views(all_of_day@),
            decreases own.len() - j,
        {
            proof {
                assert(mine.take(j + 1).drop_last() =~= mine.take(j as int));
                assert(mine.take(j + 1).last() == own@[j as int]@);
                lemma_without_breaks_prefix(mine, j + 1);
            }
            if !is_break(&own[j]) {
                if own[j].duration > u16::MAX - total {
                    return None;
                }
                total = total + own[j].duration;
            }
            j += 1;
        }
        assert(mine.take(j as int) =~= mine);
        i += 1;
    }
    assert(all.take(i as int) =~= all);
    Some(total)
}

/// The minutes spent over all plans: the durations of the blocks that
/// belong to each plan's own origin, without those tagged as a break.
pub fn total_time_spent(all_of_day: &Vec<DayPlan>) -> (total: u16)
    requires
        total_spent(plan_views(all_of_day@)) <= u16::MAX,
    ensures
        total == total_spent(plan_views(all_of_day@)),
{
    match try_total_time_spent(all_of_day) {
        Some(total) => total,
        None => 0,
    }
}

} // verus!
