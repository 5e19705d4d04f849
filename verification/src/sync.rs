//! Bringing the plans of several origins together: the plans of one
//! calendar day form a group, the blocks that each origin owns form the
//! day's timeline, and every plan of the group is rewritten to hold it.
use crate::block::{block_views, BlockModel};
use crate::day_plan::{
    all_originals, contains_day, day_of, is_sorted_by_period, lemma_sorted_by_period, original_blocks_from_all,
    originals, owned_by, plan_views, sorted_by_period, Day, DayPlan, DayPlanModel,
};
use crate::period_order::{lemma_filter_sorted, lemma_sort_first_part, lemma_sort_second_part};
use crate::day_plan::note_id_of;
use crate::text::{chars_of, same_text, texts};
use vstd::prelude::*;

verus! {

/// The plans of one calendar day, one per origin that has a plan for it.
#[derive(Debug)]
pub struct SyncGroup {
    pub day: Day,
    pub plans: Vec<DayPlan>,
}

/// What a group is, as plain mathematical values.
pub struct SyncGroupModel {
    pub day: Day,
    pub plans: Seq<DayPlanModel>,
}

impl View for SyncGroup {
    type V = SyncGroupModel;

    open spec fn view(&self) -> SyncGroupModel {
        SyncGroupModel { day: self.day, plans: plan_views(self.plans@) }
    }
}

/// The models of a sequence of groups.
pub open spec fn group_views(groups: Seq<SyncGroup>) -> Seq<SyncGroupModel> {
    groups.map_values(|g: SyncGroup| g@)
}

/// The days that the plans are for, each where it first occurs. A plan
/// without a day adds none.
pub open spec fn days_seen(plans: Seq<DayPlanModel>) -> Seq<Day>
    decreases plans.len(),
{
    if plans.len() == 0 {
        Seq::<Day>::empty()
    } else {
        let seen = days_seen(plans.drop_last());
        match day_of(plans.last()) {
            Some(day) => if seen.contains(day) {
                seen
            } else {
                seen.push(day)
            },
            None => seen,
        }
    }
}

/// The test for a plan of the given day.
pub open spec fn is_on(day: Day) -> spec_fn(DayPlanModel) -> bool {
    |p: DayPlanModel| day_of(p) == Some(day)
}

/// The plans of the given day, in their order.
pub open spec fn plans_on(plans: Seq<DayPlanModel>, day: Day) -> Seq<DayPlanModel> {
    plans.filter(is_on(day))
}

/// The plans grouped by day, the groups in the order in which their days
/// first occur. Plans without a day are in no group.
pub open spec fn grouped_by_day(plans: Seq<DayPlanModel>) -> Seq<SyncGroupModel> {
    Seq::new(
        days_seen(plans).len(),
        |i: int| SyncGroupModel { day: days_seen(plans)[i], plans: plans_on(plans, days_seen(plans)[i]) },
    )
}

/// The timeline of a group: the blocks that each plan's origin owns, plan
/// after plan, in the textual order of their periods.
pub open spec fn timeline(plans: Seq<DayPlanModel>) -> Seq<BlockModel> {
    sorted_by_period(all_originals(plans))
}

/// The plans, each with `blocks` in place of its own.
pub open spec fn with_blocks(plans: Seq<DayPlanModel>, blocks: Seq<BlockModel>) -> Seq<
    DayPlanModel,
> {
    Seq::new(plans.len(), |i: int| DayPlanModel { blocks, ..plans[i] })
}

/// The plans of a group after synchronizing: each one as it was, with the
/// timeline of the group as its blocks.
pub open spec fn rewritten(plans: Seq<DayPlanModel>) -> Seq<DayPlanModel> {
    with_blocks(plans, timeline(plans))
}

/// Whether no two of the plans have the same origin.
pub open spec fn distinct_origins(plans: Seq<DayPlanModel>) -> bool {
    forall|i: int, j: int|
        0 <= i < j < plans.len() ==> (#[trigger] plans[i]).origin != (#[trigger] plans[j]).origin
}

/// Whether one of the plans has this origin.
pub open spec fn has_plan_of(plans: Seq<DayPlanModel>, origin: Seq<char>) -> bool {
    exists|i: int| 0 <= i < plans.len() && (#[trigger] plans[i]).origin == origin
}

/// The groups after synchronizing.
pub open spec fn synchronized(plans: Seq<DayPlanModel>) -> Seq<SyncGroupModel> {
    Seq::new(
        grouped_by_day(plans).len(),
        |i: int|
            SyncGroupModel {
                day: grouped_by_day(plans)[i].day,
                plans: rewritten(grouped_by_day(plans)[i].plans),
            },
    )
}

/// The test for a plan without a day.
pub open spec fn has_no_day() -> spec_fn(DayPlanModel) -> bool {
    |p: DayPlanModel| day_of(p) is None
}

/// The test for a group of more than one plan.
pub open spec fn is_shared() -> spec_fn(SyncGroupModel) -> bool {
    |g: SyncGroupModel| g.plans.len() > 1
}

/// Whether one of the plans is for this day.
pub open spec fn has_plan_on(plans: Seq<DayPlanModel>, day: Day) -> bool {
    exists|i: int| 0 <= i < plans.len() && day_of(#[trigger] plans[i]) == Some(day)
}

/// Every day for which there is a plan has its group, and only one.
pub proof fn lemma_days_seen(plans: Seq<DayPlanModel>)
    ensures
        days_seen(plans).no_duplicates(),
        forall|day: Day| days_seen(plans).contains(day) <==> has_plan_on(plans, day),
    decreases plans.len(),
{
    if plans.len() > 0 {
        let rest = plans.drop_last();
        let seen = days_seen(rest);
        let all = days_seen(plans);
        lemma_days_seen(rest);
        assert forall|day: Day| all.contains(day) <==> has_plan_on(plans, day) by {
            if has_plan_on(plans, day) {
                let i = choose|i: int| 0 <= i < plans.len() && day_of(#[trigger] plans[i]) == Some(day);
                if i < plans.len() - 1 {
                    assert(day_of(rest[i]) == Some(day));
                    assert(has_plan_on(rest, day));
                    let j = choose|j: int| 0 <= j < seen.len() && seen[j] == day;
                    assert(all[j] == day);
                } else if !seen.contains(day) {
                    assert(all[seen.len() as int] == day);
                } else {
                    let j = choose|j: int| 0 <= j < seen.len() && seen[j] == day;
                    assert(all[j] == day);
                }
            }
            if all.contains(day) {
                let j = choose|j: int| 0 <= j < all.len() && all[j] == day;
                if j < seen.len() {
                    assert(seen[j] == day);
                    assert(seen.contains(day));
                    assert(has_plan_on(rest, day));
                    let i = choose|i: int| 0 <= i < rest.len() && day_of(#[trigger] rest[i]) == Some(day);
                    assert(rest[i] == plans[i]);
                    assert(day_of(plans[i]) == Some(day));
                } else {
                    assert(day_of(plans[plans.len() - 1]) == Some(day));
                }
            }
        }
    }
}

proof fn lemma_originals_push(blocks: Seq<BlockModel>, x: BlockModel, origin: Seq<char>)
    ensures
        originals(blocks.push(x), origin) == if x.origin == origin {
            originals(blocks, origin).push(x)
        } else {
            originals(blocks, origin)
        },
{
    reveal(Seq::filter);
    assert(blocks.push(x).drop_last() =~= blocks);
}

proof fn lemma_with_blocks_rest(plans: Seq<DayPlanModel>, blocks: Seq<BlockModel>)
    requires
        plans.len() > 0,
    ensures
        with_blocks(plans, blocks).drop_last() == with_blocks(plans.drop_last(), blocks),
        with_blocks(plans, blocks).last() == (DayPlanModel { blocks, ..plans.last() }),
{
    assert(with_blocks(plans, blocks).drop_last() =~= with_blocks(plans.drop_last(), blocks));
}

proof fn lemma_originals_twice(blocks: Seq<BlockModel>, first: Seq<char>, second: Seq<char>)
    ensures
        originals(originals(blocks, first), second) == if first == second {
            originals(blocks, first)
        } else {
            Seq::<BlockModel>::empty()
        },
    decreases blocks.len(),
{
    reveal(Seq::filter);
    if blocks.len() > 0 {
        let rest = blocks.drop_last();
        let x = blocks.last();
        lemma_originals_twice(rest, first, second);
        assert(rest.push(x) =~= blocks);
        lemma_originals_push(rest, x, first);
        if x.origin == first {
            lemma_originals_push(originals(rest, first), x, second);
        }
    }
}

proof fn lemma_rest_of_plans(plans: Seq<DayPlanModel>, origin: Seq<char>)
    requires
        plans.len() > 0,
    ensures
        distinct_origins(plans) ==> distinct_origins(plans.drop_last()),
        !has_plan_of(plans, origin) ==> !has_plan_of(plans.drop_last(), origin) && plans.last().origin
            != origin,
        distinct_origins(plans) && plans.last().origin == origin ==> !has_plan_of(
            plans.drop_last(),
            origin,
        ),
{
    let rest = plans.drop_last();
    if distinct_origins(plans) {
        assert forall|i: int, j: int| 0 <= i < j < rest.len() implies (#[trigger] rest[i]).origin != (
        #[trigger] rest[j]).origin by {
            assert(rest[i] == plans[i] && rest[j] == plans[j]);
        }
    }
    if has_plan_of(rest, origin) {
        let i = choose|i: int| 0 <= i < rest.len() && (#[trigger] rest[i]).origin == origin;
        assert(plans[i].origin == origin);
        if distinct_origins(plans) && plans.last().origin == origin {
            assert(plans[i].origin == plans[plans.len() - 1].origin);
        }
    }
    if !has_plan_of(plans, origin) {
        assert(plans[plans.len() - 1].origin != origin);
    }
}

/// Among the original blocks of all plans, none belongs to an origin that
/// has no plan.
proof fn lemma_originals_of_others(plans: Seq<DayPlanModel>, origin: Seq<char>)
    requires
        !has_plan_of(plans, origin),
    ensures
        originals(all_originals(plans), origin) == Seq::<BlockModel>::empty(),
    decreases plans.len(),
{
    reveal(Seq::filter);
    if plans.len() > 0 {
        let rest = plans.drop_last();
        let last = plans.last();
        lemma_rest_of_plans(plans, origin);
        lemma_originals_of_others(rest, origin);
        Seq::filter_distributes_over_add(
            all_originals(rest),
            originals(last.blocks, last.origin),
            owned_by(origin),
        );
        lemma_originals_twice(last.blocks, last.origin, origin);
    }
}

/// Among the original blocks of plans of different origins, those of one
/// plan's origin are the original blocks of that plan.
pub proof fn lemma_originals_of_one(plans: Seq<DayPlanModel>, i: int)
    requires
        distinct_origins(plans),
        0 <= i < plans.len(),
    ensures
        originals(all_originals(plans), plans[i].origin) == originals(
            plans[i].blocks,
            plans[i].origin,
        ),
    decreases plans.len(),
{
    let rest = plans.drop_last();
    let last = plans.last();
    let origin = plans[i].origin;
    lemma_rest_of_plans(plans, origin);
    Seq::filter_distributes_over_add(
        all_originals(rest),
        originals(last.blocks, last.origin),
        owned_by(origin),
    );
    lemma_originals_twice(last.blocks, last.origin, origin);
    if i == plans.len() - 1 {
        lemma_originals_of_others(rest, origin);
        assert(Seq::<BlockModel>::empty() + originals(last.blocks, origin) =~= originals(
            last.blocks,
            origin,
        ));
    } else {
        assert(rest[i] == plans[i]);
        assert(plans[i].origin != plans[plans.len() - 1].origin);
        lemma_originals_of_one(rest, i);
        assert(originals(rest[i].blocks, origin) + Seq::<BlockModel>::empty() =~= originals(
            rest[i].blocks,
            origin,
        ));
    }
}

/// Where every plan finds its own blocks, sorted, among the blocks that
/// all plans are given, the timeline of the plans does not change.
pub proof fn lemma_timeline_of_sorted_parts(plans: Seq<DayPlanModel>, blocks: Seq<BlockModel>)
    requires
        forall|i: int|
            0 <= i < plans.len() ==> originals(blocks, (#[trigger] plans[i]).origin)
                == sorted_by_period(originals(plans[i].blocks, plans[i].origin)),
    ensures
        timeline(with_blocks(plans, blocks)) == timeline(plans),
    decreases plans.len(),
{
    if plans.len() == 0 {
        assert(with_blocks(plans, blocks) =~= plans);
    } else {
        let rest = plans.drop_last();
        let last = plans.last();
        lemma_with_blocks_rest(plans, blocks);
        assert forall|i: int| 0 <= i < rest.len() implies originals(
            blocks,
            (#[trigger] rest[i]).origin,
        ) == sorted_by_period(originals(rest[i].blocks, rest[i].origin)) by {
            assert(rest[i] == plans[i]);
        }
        lemma_timeline_of_sorted_parts(rest, blocks);
        let given = all_originals(with_blocks(rest, blocks));
        let own = originals(last.blocks, last.origin);
        assert(originals(blocks, plans[plans.len() - 1].origin) == sorted_by_period(own));
        lemma_sort_second_part(given, own);
        lemma_sort_first_part(given, own);
        lemma_sort_first_part(all_originals(rest), own);
    }
}

/// The timeline of a group is sorted by period and holds exactly the
/// blocks that the origins of the group own.
pub proof fn lemma_timeline(plans: Seq<DayPlanModel>)
    ensures
        is_sorted_by_period(timeline(plans)),
        timeline(plans).to_multiset() == all_originals(plans).to_multiset(),
        forall|i: int| 0 <= i < plans.len() ==> (#[trigger] rewritten(plans)[i]).blocks == timeline(plans),
{
    lemma_sorted_by_period(all_originals(plans));
}

/// Synchronizing again changes nothing: for plans of different origins,
/// the rewritten plans have the timeline that was written into them, and
/// rewriting them once more gives the same plans.
pub proof fn lemma_synchronize_again(plans: Seq<DayPlanModel>)
    requires
        distinct_origins(plans),
    ensures
        timeline(rewritten(plans)) == timeline(plans),
        rewritten(rewritten(plans)) == rewritten(plans),
{
    let all = all_originals(plans);
    let merged = timeline(plans);
    assert forall|i: int| 0 <= i < plans.len() implies originals(
        merged,
        (#[trigger] plans[i]).origin,
    ) == sorted_by_period(originals(plans[i].blocks, plans[i].origin)) by {
        lemma_filter_sorted(all, owned_by(plans[i].origin));
        lemma_originals_of_one(plans, i);
    }
    lemma_timeline_of_sorted_parts(plans, merged);
    assert(rewritten(rewritten(plans)) =~= rewritten(plans));
}

/// The ending of the name of a note.
pub open spec fn note_suffix() -> Seq<char> {
    seq!['.', 'm', 'd']
}

/// Whether a file of this name is a note: the name ends with `.md`.
pub open spec fn names_note(name: Seq<char>) -> bool {
    name.len() >= 3 && name.subrange(name.len() - 3, name.len() as int) == note_suffix()
}

/// Whether a file of this name is a note.
pub fn is_note_file(name: &str) -> (r: bool)
    ensures
        r == names_note(name@),
{
    let c = chars_of(name);
    let n = c.len();
    if n >= 3 && c[n - 3] == '.' && c[n - 2] == 'm' && c[n - 1] == 'd' {
        assert(name@.subrange(n - 3, n as int) =~= note_suffix());
        true
    } else {
        if n >= 3 {
            let ghost end = name@.subrange(n - 3, n as int);
            assert(end[0] == c@[n - 3] && end[1] == c@[n - 2] && end[2] == c@[n - 1]);
        }
        false
    }
}

/// The days that the plans are for, each where it first occurs.
pub fn days_of_plans(plans: &Vec<DayPlan>) -> (days: Vec<Day>)
    ensures
        days@ == days_seen(plan_views(plans@)),
{
    let ghost all = plan_views(plans@);
    let mut days: Vec<Day> = Vec::new();
    let mut i: usize = 0;
    assert(all.take(0) =~= Seq::<DayPlanModel>::empty());
    while i < plans.len()
        invariant
            i <= plans.len(),
            all == plan_views(plans@),
            days@ == days_seen(all.take(i as int)),
        decreases plans.len() - i,
    {
        proof {
            assert(all.take(i + 1).drop_last() =~= all.take(i as int));
            assert(all.take(i + 1).last() == plans@[i as int]@);
        }
        match plans[i].day() {
            Some(day) => {
                if !contains_day(&days, day) {
                    days.push(day);
                }
            },
            None => {},
        }
        i += 1;
    }
    assert(all.take(i as int) =~= all);
    days
}

/// The plans of the given day, in their order.
pub fn plans_of_day(plans: &Vec<DayPlan>, day: Day) -> (r: Vec<DayPlan>)
    ensures
        plan_views(r@) == plans_on(plan_views(plans@), day),
{
    let ghost all = plan_views(plans@);
    let mut r: Vec<DayPlan> = Vec::new();
    let mut i: usize = 0;
    proof {
        reveal(Seq::filter);
        assert(all.take(0) =~= Seq::<DayPlanModel>::empty());
        assert(plan_views(r@) =~= Seq::<DayPlanModel>::empty());
    }
    while i < plans.len()
        invariant
            i <= plans.len(),
            all == plan_views(plans@),
            plan_views(r@) == plans_on(all.take(i as int), day),
        decreases plans.len() - i,
    {
        let ghost before = plan_views(r@);
        proof {
            reveal(Seq::filter);
            assert(all.take(i + 1).drop_last() =~= all.take(i as int));
            assert(all.take(i + 1).last() == plans@[i as int]@);
        }
        let on_day = match plans[i].day() {
            Some(d) => d == day,
            None => false,
        };
        if on_day {
            let plan = plans[i].clone();
            r.push(plan);
            assert(plan_views(r@) =~= before.push(plans@[i as int]@));
        }
        i += 1;
    }
    assert(all.take(i as int) =~= all);
    r
}

/// Groups the plans by their calendar day. The groups come in the order in
/// which their days first occur, the plans of a group in the order in which
/// they were given; a plan without a day is left out.
pub fn group_by_day(plans: &Vec<DayPlan>) -> (groups: Vec<SyncGroup>)
    ensures
        group_views(groups@) == grouped_by_day(plan_views(plans@)),
{
    let days = days_of_plans(plans);
    let mut groups: Vec<SyncGroup> = Vec::new();
    let mut i: usize = 0;
    let ghost wanted = grouped_by_day(plan_views(plans@));
    while i < days.len()
        invariant
            i <= days.len(),
            days@ == days_seen(plan_views(plans@)),
            wanted == grouped_by_day(plan_views(plans@)),
            groups@.len() == i,
            forall|k: int| 0 <= k < i ==> (#[trigger] groups@[k])@ == wanted[k],
        decreases days.len() - i,
    {
        let group = SyncGroup { day: days[i], plans: plans_of_day(plans, days[i]) };
        groups.push(group);
        i += 1;
    }
    assert(group_views(groups@) =~= wanted);
    groups
}

/// Synchronizes the plans of one day: every plan comes back as it was, with
/// the blocks that the origins of the group own, all of them, in the
/// textual order of their periods. Blocks that a plan held from another
/// origin are dropped, not passed on.
pub fn synchronize_group(plans: &Vec<DayPlan>) -> (r: Vec<DayPlan>)
    ensures
        plan_views(r@) == rewritten(plan_views(plans@)),
{
    let merged = original_blocks_from_all(plans);
    let ghost wanted = rewritten(plan_views(plans@));
    let mut r: Vec<DayPlan> = Vec::new();
    let mut i: usize = 0;
    while i < plans.len()
        invariant
            i <= plans.len(),
            block_views(merged@) == all_originals(plan_views(plans@)),
            wanted == rewritten(plan_views(plans@)),
            r@.len() == i,
            forall|k: int| 0 <= k < i ==> (#[trigger] r@[k])@ == wanted[k],
        decreases plans.len() - i,
    {
        let plan = plans[i].clone().with_updated_blocks(&merged);
        assert(plan@ == wanted[i as int]);
        r.push(plan);
        i += 1;
    }
    assert(plan_views(r@) =~= wanted);
    r
}

/// Synchronizes all plans: groups them by day and rewrites the plans of
/// each group.
pub fn synchronize(plans: &Vec<DayPlan>) -> (groups: Vec<SyncGroup>)
    ensures
        group_views(groups@) == synchronized(plan_views(plans@)),
{
    let grouped = group_by_day(plans);
    let ghost wanted = synchronized(plan_views(plans@));
    let mut groups: Vec<SyncGroup> = Vec::new();
    let mut i: usize = 0;
    while i < grouped.len()
        invariant
            i <= grouped.len(),
            group_views(grouped@) == grouped_by_day(plan_views(plans@)),
            wanted == synchronized(plan_views(plans@)),
            groups@.len() == i,
            forall|k: int| 0 <= k < i ==> (#[trigger] groups@[k])@ == wanted[k],
        decreases grouped.len() - i,
    {
        assert(group_views(grouped@)[i as int] == grouped@[i as int]@);
        let group = SyncGroup { day: grouped[i].day, plans: synchronize_group(&grouped[i].plans) };
        assert(group@ == wanted[i as int]);
        groups.push(group);
        i += 1;
    }
    assert(group_views(groups@) =~= wanted);
    groups
}

/// The number of plans that have no day and so take no part.
pub fn count_skipped(plans: &Vec<DayPlan>) -> (n: usize)
    ensures
        n == plan_views(plans@).filter(has_no_day()).len(),
{
    let ghost all = plan_views(plans@);
    let mut n: usize = 0;
    let mut i: usize = 0;
    proof {
        reveal(Seq::filter);
        assert(all.take(0) =~= Seq::<DayPlanModel>::empty());
    }
    while i < plans.len()
        invariant
            i <= plans.len(),
            n <= i,
            all == plan_views(plans@),
            n == all.take(i as int).filter(has_no_day()).len(),
        decreases plans.len() - i,
    {
        proof {
            reveal(Seq::filter);
            assert(all.take(i + 1).drop_last() =~= all.take(i as int));
            assert(all.take(i + 1).last() == plans@[i as int]@);
        }
        if plans[i].day().is_none() {
            n += 1;
        }
        i += 1;
    }
    assert(all.take(i as int) =~= all);
    n
}

/// The number of groups in which more than one origin has a plan.
pub fn count_shared(groups: &Vec<SyncGroup>) -> (n: usize)
    ensures
        n == group_views(groups@).filter(is_shared()).len(),
{
    let ghost all = group_views(groups@);
    let mut n: usize = 0;
    let mut i: usize = 0;
    proof {
        reveal(Seq::filter);
        assert(all.take(0) =~= Seq::<SyncGroupModel>::empty());
    }
    while i < groups.len()
        invariant
            i <= groups.len(),
            n <= i,
            all == group_views(groups@),
            n == all.take(i as int).filter(is_shared()).len(),
        decreases groups.len() - i,
    {
        proof {
            reveal(Seq::filter);
            assert(all.take(i + 1).drop_last() =~= all.take(i as int));
            assert(all.take(i + 1).last() == groups@[i as int]@);
        }
        if groups[i].plans.len() > 1 {
            n += 1;
        }
        i += 1;
    }
    assert(all.take(i as int) =~= all);
    n
}

/// The plans of one note: the plans whose files lie at the same place
/// below the base directories of their collections.
#[derive(Debug)]
pub struct NoteGroup {
    pub note_id: String,
    pub plans: Vec<DayPlan>,
}

/// What a group of one note is, as plain mathematical values.
pub struct NoteGroupModel {
    pub note_id: Seq<char>,
    pub plans: Seq<DayPlanModel>,
}

impl View for NoteGroup {
    type V = NoteGroupModel;

    open spec fn view(&self) -> NoteGroupModel {
        NoteGroupModel { note_id: self.note_id@, plans: plan_views(self.plans@) }
    }
}

/// The models of a sequence of groups.
pub open spec fn note_group_views(groups: Seq<NoteGroup>) -> Seq<NoteGroupModel> {
    groups.map_values(|g: NoteGroup| g@)
}

/// The identifiers of the notes of the plans, each where it first occurs.
/// A plan without an identifier adds none.
pub open spec fn note_ids_seen(plans: Seq<DayPlanModel>) -> Seq<Seq<char>>
    decreases plans.len(),
{
    if plans.len() == 0 {
        Seq::<Seq<char>>::empty()
    } else {
        let seen = note_ids_seen(plans.drop_last());
        match note_id_of(plans.last()) {
            Some(id) => if seen.contains(id) {
                seen
            } else {
                seen.push(id)
            },
            None => seen,
        }
    }
}

/// The test for a plan of the note with this identifier.
pub open spec fn is_of_note(id: Seq<char>) -> spec_fn(DayPlanModel) -> bool {
    |p: DayPlanModel| note_id_of(p) == Some(id)
}

/// The plans grouped by the identifier of their note, the groups in the
/// order in which the identifiers first occur. Plans without an identifier
/// are in no group.
pub open spec fn grouped_by_note_id(plans: Seq<DayPlanModel>) -> Seq<NoteGroupModel> {
    Seq::new(
        note_ids_seen(plans).len(),
        |i: int|
            NoteGroupModel {
                note_id: note_ids_seen(plans)[i],
                plans: plans.filter(is_of_note(note_ids_seen(plans)[i])),
            },
    )
}

/// The test for a group of one note with more than one plan.
pub open spec fn is_shared_note() -> spec_fn(NoteGroupModel) -> bool {
    |g: NoteGroupModel| g.plans.len() > 1
}

fn contains_id(ids: &Vec<String>, id: &str) -> (r: bool)
    ensures
        r == texts(ids@).contains(id@),
{
    let mut i: usize = 0;
    while i < ids.len()
        invariant
            i <= ids.len(),
            forall|k: int| 0 <= k < i ==> texts(ids@)[k] != id@,
        decreases ids.len() - i,
    {
        if same_text(ids[i].as_str(), id) {
            assert(texts(ids@)[i as int] == id@);
            return true;
        }
        i += 1;
    }
    false
}

fn note_ids_of(plans: &Vec<DayPlan>) -> (ids: Vec<String>)
    ensures
        texts(ids@) == note_ids_seen(plan_views(plans@)),
{
    let ghost all = plan_views(plans@);
    let mut ids: Vec<String> = Vec::new();
    let mut i: usize = 0;
    assert(all.take(0) =~= Seq::<DayPlanModel>::empty());
    assert(texts(ids@) =~= Seq::<Seq<char>>::empty());
    while i < plans.len()
        invariant
            i <= plans.len(),
            all == plan_views(plans@),
            texts(ids@) == note_ids_seen(all.take(i as int)),
        decreases plans.len() - i,
    {
        proof {
            assert(all.take(i + 1).drop_last() =~= all.take(i as int));
            assert(all.take(i + 1).last() == plans@[i as int]@);
        }
        match plans[i].try_note_id() {
            Some(id) => {
                if !contains_id(&ids, id.as_str()) {
                    let ghost before = texts(ids@);
                    ids.push(id);
                    assert(texts(ids@) =~= before.push(id@));
                }
            },
            None => {},
        }
        i += 1;
    }
    assert(all.take(i as int) =~= all);
    ids
}

fn plans_of_note(plans: &Vec<DayPlan>, id: &str) -> (r: Vec<DayPlan>)
    ensures
        plan_views(r@) == plan_views(plans@).filter(is_of_note(id@)),
{
    let ghost all = plan_views(plans@);
    let mut r: Vec<DayPlan> = Vec::new();
    let mut i: usize = 0;
    proof {
        reveal(Seq::filter);
        assert(all.take(0) =~= Seq::<DayPlanModel>::empty());
        assert(plan_views(r@) =~= Seq::<DayPlanModel>::empty());
    }
    while i < plans.len()
        invariant
            i <= plans.len(),
            all == plan_views(plans@),
            plan_views(r@) == all.take(i as int).filter(is_of_note(id@)),
        decreases plans.len() - i,
    {
        let ghost before = plan_views(r@);
        proof {
            reveal(Seq::filter);
            assert(all.take(i + 1).drop_last() =~= all.take(i as int));
            assert(all.take(i + 1).last() == plans@[i as int]@);
        }
        let of_note = match plans[i].try_note_id() {
            Some(other) => same_text(other.as_str(), id),
            None => false,
        };
        if of_note {
            let plan = plans[i].clone();
            r.push(plan);
            assert(plan_views(r@) =~= before.push(plans@[i as int]@));
        }
        i += 1;
    }
    assert(all.take(i as int) =~= all);
    r
}

/// Groups the plans by the identifier of their note. The groups come in
/// the order in which their identifiers first occur, the plans of a group
/// in the order in which they were given; a plan without an identifier is
/// left out.
pub fn day_plans_by_note_id(all_day_plans: &Vec<DayPlan>) -> (groups: Vec<NoteGroup>)
    ensures
        note_group_views(groups@) == grouped_by_note_id(plan_views(all_day_plans@)),
{
    let ids = note_ids_of(all_day_plans);
    let ghost wanted = grouped_by_note_id(plan_views(all_day_plans@));
    let mut groups: Vec<NoteGroup> = Vec::new();
    let mut i: usize = 0;
    while i < ids.len()
        invariant
            i <= ids.len(),
            texts(ids@) == note_ids_seen(plan_views(all_day_plans@)),
            wanted == grouped_by_note_id(plan_views(all_day_plans@)),
            groups@.len() == i,
            forall|k: int| 0 <= k < i ==> (#[trigger] groups@[k])@ == wanted[k],
        decreases ids.len() - i,
    {
        assert(texts(ids@)[i as int] == ids@[i as int]@);
        let group = NoteGroup {
            note_id: ids[i].clone(),
            plans: plans_of_note(all_day_plans, ids[i].as_str()),
        };
        groups.push(group);
        i += 1;
    }
    assert(note_group_views(groups@) =~= wanted);
    groups
}

/// The number of notes for which more than one origin has a plan.
pub fn count_shared_notes(groups: &Vec<NoteGroup>) -> (n: usize)
    ensures
        n == note_group_views(groups@).filter(is_shared_note()).len(),
{
    let ghost all = note_group_views(groups@);
    let mut n: usize = 0;
    let mut i: usize = 0;
    proof {
        reveal(Seq::filter);
        assert(all.take(0) =~= Seq::<NoteGroupModel>::empty());
    }
    while i < groups.len()
        invariant
            i <= groups.len(),
            n <= i,
            all == note_group_views(groups@),
            n == all.take(i as int).filter(is_shared_note()).len(),
        decreases groups.len() - i,
    {
        proof {
            reveal(Seq::filter);
            assert(all.take(i + 1).drop_last() =~= all.take(i as int));
            assert(all.take(i + 1).last() == groups@[i as int]@);
        }
        if groups[i].plans.len() > 1 {
            n += 1;
        }
        i += 1;
    }
    assert(all.take(i as int) =~= all);
    n
}

} // verus!
