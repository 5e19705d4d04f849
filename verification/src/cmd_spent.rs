//! The report of the time spent: one row of text cells for each tag
//! segment, with its time of day and its share of its level.
use crate::day_plan::{day_of, plan_views, Day, DayPlan, DayPlanModel};
use crate::text::{decimal, push_decimal, push_two_wide, texts, two_wide};
use crate::time_range::{in_range, is_within};
use crate::time_summary::{
    lemma_nodes_view, minutes_to_hours_minutes, tag_time_views, TagTime, TagTimeModel,
};
use vstd::prelude::*;

verus! {

/// The test for a plan whose day lies within a range of days, its ends
/// included.
pub open spec fn is_in_range(from: Day, to: Day) -> spec_fn(DayPlanModel) -> bool {
    |p: DayPlanModel| day_of(p) is Some && is_within(day_of(p)->0, from, to)
}

/// The plans whose day lies within a range of days, in their order; a plan
/// without a day is left out.
pub fn plans_in_range(plans: &Vec<DayPlan>, from: Day, to: Day) -> (r: Vec<DayPlan>)
    ensures
        plan_views(r@) == plan_views(plans@).filter(is_in_range(from, to)),
{
    let ghost all = plan_views(plans@);
    let mut r: Vec<DayPlan> = Vec::new();
    let mut i: usize = 0;
    proof {
        reveal(Seq::filter);
        assert(all.take(0) =~= Seq::<DayPlanModel>::empty());
        assert(plan_views(r@) =~= Seq::<DayPlanModel>::empty());
    }
    while i < plans.len()
        invariant
            i <= plans.len(),
            all == plan_views(plans@),
            plan_views(r@) == all.take(i as int).filter(is_in_range(from, to)),
        decreases plans.len() - i,
    {
        let ghost before = plan_views(r@);
        proof {
            reveal(Seq::filter);
            assert(all.take(i + 1).drop_last() =~= all.take(i as int));
            assert(all.take(i + 1).last() == plans@[i as int]@);
        }
        let wanted = match plans[i].day() {
            Some(day) => in_range(day, from, to),
            None => false,
        };
        if wanted {
            let plan = plans[i].clone();
            r.push(plan);
            assert(plan_views(r@) =~= before.push(plans@[i as int]@));
        }
        i += 1;
    }
    assert(all.take(i as int) =~= all);
    r
}

/// The minutes of all nodes of one level.
pub open spec fn level_total(nodes: Seq<TagTimeModel>) -> nat
    decreases nodes.len(),
{
    if nodes.len() == 0 {
        0
    } else {
        level_total(nodes.drop_last()) + nodes.last().minutes
    }
}

/// The share of `minutes` in `total`, in percent, rounded to the nearest
/// whole number, a half upwards.
pub open spec fn percent_of(minutes: nat, total: nat) -> nat {
    (200 * minutes + total) / (2 * total)
}

/// Minutes written as hours and minutes, `HH:MM`.
pub open spec fn clock_text(minutes: nat) -> Seq<char> {
    two_wide(minutes / 60) + seq![':'] + two_wide(minutes % 60)
}

/// A share written in at least three columns, flush right, with a percent
/// sign.
pub open spec fn percent_text(percent: nat) -> Seq<char> {
    let pad = if percent < 10 {
        seq![' ', ' ']
    } else if percent < 100 {
        seq![' ']
    } else {
        Seq::<char>::empty()
    };
    pad + decimal(percent) + seq!['%']
}

/// `n` empty cells.
pub open spec fn blanks(n: nat) -> Seq<Seq<char>> {
    Seq::new(n, |i: int| Seq::<char>::empty())
}

/// The row of a node at depth `level`: the tag in the column of its depth
/// among the first three, then the time, then the share of the level's
/// total.
pub open spec fn row_of(node: TagTimeModel, level: nat, total: nat) -> Seq<Seq<char>> {
    let after = if level < 2 {
        (2 - level) as nat
    } else {
        0
    };
    blanks(level) + seq![node.tag] + blanks(after) + seq![clock_text(node.minutes)] + seq![
        percent_text(percent_of(node.minutes, total)),
    ]
}

/// The rows of the first `n` nodes of a level: for each node its row and
/// the rows of the nodes below it, and at the top level a row of one empty
/// cell behind them.
pub open spec fn rows_of(nodes: Seq<TagTimeModel>, level: nat, n: nat) -> Seq<Seq<Seq<char>>>
    decreases nodes, n,
{
    if n == 0 || n > nodes.len() {
        Seq::<Seq<Seq<char>>>::empty()
    } else {
        let node = nodes[n - 1];
        let gap = if level == 0 {
            seq![seq![Seq::<char>::empty()]]
        } else {
            Seq::<Seq<Seq<char>>>::empty()
        };
        rows_of(nodes, level, (n - 1) as nat) + seq![row_of(node, level, level_total(nodes))]
            + rows_of(node.sub_tags, level + 1, node.sub_tags.len()) + gap
    }
}

/// Whether the first `n` nodes and all below them can be reported: no
/// level that has nodes has a total of zero.
pub open spec fn can_report(nodes: Seq<TagTimeModel>, n: nat) -> bool
    decreases nodes, n,
{
    n == 0 || n > nodes.len() || {
        &&& level_total(nodes) > 0
        &&& can_report(nodes, (n - 1) as nat)
        &&& can_report(nodes[n - 1].sub_tags, nodes[n - 1].sub_tags.len())
    }
}

/// The text cells of a list of rows.
pub open spec fn row_views(rows: Seq<Vec<String>>) -> Seq<Seq<Seq<char>>> {
    rows.map_values(|r: Vec<String>| texts(r@))
}

/// The total of a level is no less than the total of its first nodes, and
/// no less than the minutes of any one node.
pub proof fn lemma_level_total(nodes: Seq<TagTimeModel>, i: int)
    requires
        0 <= i < nodes.len(),
    ensures
        nodes[i].minutes <= level_total(nodes),
        level_total(nodes.take(i)) <= level_total(nodes),
    decreases nodes.len(),
{
    if i < nodes.len() - 1 {
        lemma_level_total(nodes.drop_last(), i);
        assert(nodes.drop_last().take(i) =~= nodes.take(i));
    } else {
        assert(nodes.take(i) =~= nodes.drop_last());
    }
}

/// The minutes of all nodes of one level.
pub fn level_minutes(tag_timings: &Vec<TagTime>) -> (total: u128)
    ensures
        total == level_total(tag_time_views(tag_timings@)),
        total <= tag_timings@.len() * 65535,
{
    let ghost all = tag_time_views(tag_timings@);
    let mut total: u128 = 0;
    let mut i: usize = 0;
    proof {
        lemma_nodes_view(tag_timings@, tag_timings@.len());
        assert(all.take(0) =~= Seq::<TagTimeModel>::empty());
    }
    while i < tag_timings.len()
        invariant
            i <= tag_timings.len(),
            all == tag_time_views(tag_timings@),
            all.len() == tag_timings@.len(),
            forall|k: int| 0 <= k < all.len() ==> all[k] == tag_timings@[k]@,
            total == level_total(all.take(i as int)),
            total <= i * 65535,
        decreases tag_timings.len() - i,
    {
        proof {
            assert(all.take(i + 1).drop_last() =~= all.take(i as int));
            assert(all.take(i + 1).last() == tag_timings@[i as int]@);
        }
        total = total + tag_timings[i].minutes as u128;
        i += 1;
    }
    assert(all.take(i as int) =~= all);
    total
}

/// The share of `minutes` in `total`, in percent, rounded to the nearest
/// whole number.
pub fn percentage(minutes: u16, total: u128) -> (percent: u32)
    requires
        0 < total <= 0xffff_ffff_ffff_ffff_ffff_ffff,
        minutes <= total,
    ensures
        percent == percent_of(minutes as nat, total as nat),
        percent <= 100,
{
    let m = minutes as u128;
    assert((200 * m + total) / (2 * total) <= 100) by (nonlinear_arith)
        requires
            0 < total,
            m <= total,
    ;
    ((200 * m + total) / (2 * total)) as u32
}

fn clock_cell(minutes: u16) -> (cell: String)
    ensures
        cell@ == clock_text(minutes as nat),
{
    let (hours, rest) = minutes_to_hours_minutes(minutes);
    let mut cell = String::new();
    push_two_wide(&mut cell, hours as u32);
    cell.push(':');
    push_two_wide(&mut cell, rest as u32);
    assert(cell@ =~= clock_text(minutes as nat));
    cell
}

fn percent_cell(percent: u32) -> (cell: String)
    ensures
        cell@ == percent_text(percent as nat),
{
    let mut cell = String::new();
    if percent < 10 {
        cell.push(' ');
        cell.push(' ');
    } else if percent < 100 {
        cell.push(' ');
    }
    push_decimal(&mut cell, percent);
    cell.push('%');
    assert(cell@ =~= percent_text(percent as nat));
    cell
}

fn push_blanks(row: &mut Vec<String>, n: usize)
    ensures
        texts(final(row)@) == texts(old(row)@) + blanks(n as nat),
{
    let ghost start = texts(row@);
    let mut i: usize = 0;
    assert(start + blanks(0) =~= start);
    while i < n
        invariant
            i <= n,
            texts(row@) == start + blanks(i as nat),
        decreases n - i,
    {
        let ghost before = texts(row@);
        row.push(String::new());
        assert(texts(row@) =~= before.push(Seq::<char>::empty()));
        assert(start + blanks((i + 1) as nat) =~= (start + blanks(i as nat)).push(
            Seq::<char>::empty(),
        ));
        i += 1;
    }
}

/// Among nodes that can be reported, every node has rows of its own.
pub proof fn lemma_can_report(nodes: Seq<TagTimeModel>, n: nat, k: nat)
    requires
        can_report(nodes, n),
        0 < k <= n <= nodes.len(),
    ensures
        level_total(nodes) > 0,
        can_report(nodes[k - 1].sub_tags, nodes[k - 1].sub_tags.len()),
    decreases n - k,
{
    if k < n {
        lemma_can_report(nodes, (n - 1) as nat, k);
    }
}

fn row_for(node: &TagTime, indent: &Vec<String>, total: u128) -> (row: Vec<String>)
    requires
        0 < total <= 0xffff_ffff_ffff_ffff_ffff_ffff,
        node.minutes <= total,
        texts(indent@) == blanks(indent@.len()),
    ensures
        texts(row@) == row_of(node@, indent@.len(), total as nat),
{
    let level = indent.len();
    let mut row: Vec<String> = Vec::new();
    assert(texts(row@) =~= Seq::<Seq<char>>::empty());
    push_blanks(&mut row, level);
    let ghost a = texts(row@);
    row.push(node.tag.clone());
    assert(texts(row@) =~= a.push(node.tag@));
    push_blanks(&mut row, if level < 2 { 2 - level } else { 0 });
    let ghost b = texts(row@);
    let clock = clock_cell(node.minutes);
    row.push(clock);
    assert(texts(row@) =~= b.push(clock_text(node.minutes as nat)));
    let ghost c = texts(row@);
    let percent = percent_cell(percentage(node.minutes, total));
    row.push(percent);
    assert(texts(row@) =~= c.push(percent@));
    assert(texts(row@) =~= row_of(node@, level as nat, total as nat));
    row
}

fn extend_rows(rows: &mut Vec<Vec<String>>, more: Vec<Vec<String>>)
    ensures
        row_views(final(rows)@) == row_views(old(rows)@) + row_views(more@),
{
    let ghost before = row_views(rows@);
    let ghost added = row_views(more@);
    let mut more = more;
    rows.append(&mut more);
    assert(row_views(rows@) =~= before + added);
}

fn rows_below(tag_timings: &Vec<TagTime>, indent: &Vec<String>) -> (rows: Vec<Vec<String>>)
    requires
        can_report(tag_time_views(tag_timings@), tag_timings@.len()),
        texts(indent@) == blanks(indent@.len()),
    ensures
        row_views(rows@) == rows_of(
            tag_time_views(tag_timings@),
            indent@.len(),
            tag_timings@.len(),
        ),
    decreases tag_timings,
{
    let ghost all = tag_time_views(tag_timings@);
    let ghost level = indent@.len();
    let total = level_minutes(tag_timings);
    let mut deeper: Vec<String> = Vec::new();
    assert(texts(deeper@) =~= Seq::<Seq<char>>::empty());
    push_blanks(&mut deeper, indent.len());
    let ghost same = texts(deeper@);
    assert(same =~= blanks(level));
    deeper.push(String::new());
    assert(texts(deeper@) =~= same.push(Seq::<char>::empty()));
    assert(texts(deeper@) =~= blanks(level + 1));
    assert(deeper@.len() == texts(deeper@).len());
    let mut rows: Vec<Vec<String>> = Vec::new();
    let mut i: usize = 0;
    proof {
        lemma_nodes_view(tag_timings@, tag_timings@.len());
        assert(row_views(rows@) =~= Seq::<Seq<Seq<char>>>::empty());
    }
    while i < tag_timings.len()
        invariant
            i <= tag_timings.len(),
            all == tag_time_views(tag_timings@),
            all.len() == tag_timings@.len(),
            forall|k: int| 0 <= k < all.len() ==> all[k] == tag_timings@[k]@,
            total == level_total(all),
            total <= tag_timings@.len() * 65535,
            can_report(all, all.len()),
            level == indent@.len(),
            texts(indent@) == blanks(level),
            deeper@.len() == level + 1,
            texts(deeper@) == blanks(level + 1),
            row_views(rows@) == rows_of(all, level, i as nat),
        decreases tag_timings.len() - i,
    {
        let node = &tag_timings[i];
        proof {
            lemma_can_report(all, all.len(), (i + 1) as nat);
            lemma_level_total(all, i as int);
            lemma_nodes_view(node.sub_tags@, node.sub_tags@.len());
            assert(all[i as int] == node@);
            assert(node@.sub_tags == tag_time_views(node.sub_tags@));
        }
        let ghost before = row_views(rows@);
        let row = row_for(node, indent, total);
        rows.push(row);
        assert(row_views(rows@) =~= before.push(row_of(node@, level, total as nat)));
        let below = rows_below(&node.sub_tags, &deeper);
        extend_rows(&mut rows, below);
        if indent.len() == 0 {
            let ghost so_far = row_views(rows@);
            let mut gap: Vec<String> = Vec::new();
            gap.push(String::new());
            assert(texts(gap@) =~= seq![Seq::<char>::empty()]);
            rows.push(gap);
            assert(row_views(rows@) =~= so_far.push(seq![Seq::<char>::empty()]));
        }
        assert(row_views(rows@) =~= rows_of(all, level, (i + 1) as nat));
        i += 1;
    }
    rows
}

/// The rows of the report for the nodes of depth `level` and all below
/// them: for each node its row, then the rows of the nodes below it, and at
/// the top level a row of one empty cell.
pub fn report_rows(tag_timings: &Vec<TagTime>, level: u8) -> (rows: Vec<Vec<String>>)
    requires
        can_report(tag_time_views(tag_timings@), tag_timings@.len()),
    ensures
        row_views(rows@) == rows_of(
            tag_time_views(tag_timings@),
            level as nat,
            tag_timings@.len(),
        ),
{
    let mut indent: Vec<String> = Vec::new();
    assert(texts(indent@) =~= Seq::<Seq<char>>::empty());
    push_blanks(&mut indent, level as usize);
    assert(texts(indent@) =~= blanks(level as nat));
    assert(indent@.len() == texts(indent@).len());
    rows_below(tag_timings, &indent)
}

/// Whether the nodes can be reported: no level that has nodes has a total
/// of zero.
pub fn is_reportable(tag_timings: &Vec<TagTime>) -> (r: bool)
    ensures
        r == can_report(tag_time_views(tag_timings@), tag_timings@.len()),
    decreases tag_timings,
{
    let ghost all = tag_time_views(tag_timings@);
    proof {
        lemma_nodes_view(tag_timings@, tag_timings@.len());
    }
    if tag_timings.len() == 0 {
        return true;
    }
    if level_minutes(tag_timings) == 0 {
        return false;
    }
    let mut i: usize = 0;
    while i < tag_timings.len()
        invariant
            i <= tag_timings.len(),
            all == tag_time_views(tag_timings@),
            all.len() == tag_timings@.len(),
            forall|k: int| 0 <= k < all.len() ==> all[k] == tag_timings@[k]@,
            level_total(all) > 0,
            can_report(all, i as nat),
        decreases tag_timings.len() - i,
    {
        let node = &tag_timings[i];
        proof {
            lemma_nodes_view(node.sub_tags@, node.sub_tags@.len());
            assert(all[i as int] == node@);
            assert(node@.sub_tags == tag_time_views(node.sub_tags@));
        }
        if !is_reportable(&node.sub_tags) {
            proof {
                if can_report(all, all.len()) {
                    lemma_can_report(all, all.len(), (i + 1) as nat);
                }
            }
            return false;
        }
        i += 1;
    }
    true
}

} // verus!
