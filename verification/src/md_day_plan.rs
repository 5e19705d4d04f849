//! The plan of a daily note, kept with the path of its file.
use crate::block::{block_views, Block};
use crate::day_plan::{
    clone_blocks, note_id_of, option_text, original_blocks, originals, parse_blocks,
    parsed_blocks, sort_by_period, sorted_by_period, DayPlan, DayPlanModel, SourceModel,
};
use crate::markdown_access::{block_strings_of, markdown_events, read_block_strings};
use vstd::prelude::*;

verus! {

/// One origin's plan for one day, read from a markdown file.
#[derive(Debug)]
pub struct MarkdownDayPlan {
    pub origin: String,
    pub blocks: Vec<Block>,
    pub abs_path: String,
    pub base_dir: String,
}

impl View for MarkdownDayPlan {
    type V = DayPlanModel;

    open spec fn view(&self) -> DayPlanModel {
        DayPlanModel {
            origin: self.origin@,
            blocks: block_views(self.blocks@),
            source: SourceModel::Markdown { abs_path: self.abs_path@, base_dir: self.base_dir@ },
            day: None,
        }
    }
}

/// The models of a sequence of plans.
pub open spec fn md_plan_views(plans: Seq<MarkdownDayPlan>) -> Seq<DayPlanModel> {
    plans.map_values(|p: MarkdownDayPlan| p@)
}

impl Clone for MarkdownDayPlan {
    fn clone(&self) -> (r: MarkdownDayPlan)
        ensures
            r@ == self@,
    {
        MarkdownDayPlan {
            origin: self.origin.clone(),
            blocks: clone_blocks(&self.blocks),
            abs_path: self.abs_path.clone(),
            base_dir: self.base_dir.clone(),
        }
    }
}

impl MarkdownDayPlan {
    /// The plan with these fields.
    pub fn new(origin: &str, blocks: Vec<Block>, abs_path: &str, base_dir: &str) -> (r:
        MarkdownDayPlan)
        ensures
            r@ == (DayPlanModel {
                origin: origin@,
                blocks: block_views(blocks@),
                source: SourceModel::Markdown { abs_path: abs_path@, base_dir: base_dir@ },
                day: None,
            }),
    {
        MarkdownDayPlan {
            origin: origin.to_owned(),
            blocks,
            abs_path: abs_path.to_owned(),
            base_dir: base_dir.to_owned(),
        }
    }

    /// The same plan as a `DayPlan`.
    pub fn into_day_plan(self) -> (r: DayPlan)
        ensures
            r@ == self@,
    {
        DayPlan::new(self.origin.as_str(), self.blocks, self.abs_path.as_str(), self.base_dir.as_str())
    }

    /// The identifier of the note: the path of the file below the base
    /// directory.
    pub fn note_id(&self) -> (id: String)
        requires
            note_id_of(self@) is Some,
        ensures
            id@ == note_id_of(self@)->0,
    {
        self.clone().into_day_plan().note_id()
    }

    /// The identifier of the note, or none where the file is not below the
    /// base directory.
    pub fn try_note_id(&self) -> (id: Option<String>)
        ensures
            option_text(id) == note_id_of(self@),
    {
        let plan = self.clone().into_day_plan();
        if plan.try_note_id().is_some() {
            Some(self.note_id())
        } else {
            None
        }
    }

    /// The plan of a daily note: the items that the markdown parser finds
    /// in the section of the time blocks, each parsed as a block.
    pub fn from_daily_file_md(
        markdown_content: &str,
        origin: &str,
        abs_path: &str,
        base_dir: &str,
    ) -> (r: MarkdownDayPlan)
        ensures
            r@ == (DayPlanModel {
                origin: origin@,
                blocks: parsed_blocks(origin@, block_strings_of(markdown_events(markdown_content@))),
                source: SourceModel::Markdown { abs_path: abs_path@, base_dir: base_dir@ },
                day: None,
            }),
    {
        let block_strings = read_block_strings(markdown_content);
        MarkdownDayPlan::new(origin, parse_blocks(origin, &block_strings), abs_path, base_dir)
    }

    /// The blocks that belong to the plan's own origin, in their order.
    pub fn only_original_blocks(&self) -> (r: Vec<Block>)
        ensures
            block_views(r@) == originals(self@.blocks, self@.origin),
    {
        original_blocks(&self.blocks, self.origin.as_str())
    }

    /// The same plan with other blocks, in the textual order of their
    /// periods.
    pub fn with_updated_blocks(self, blocks: &Vec<Block>) -> (r: MarkdownDayPlan)
        ensures
            r@ == (DayPlanModel { blocks: sorted_by_period(block_views(blocks@)), ..self@ }),
    {
        MarkdownDayPlan {
            origin: self.origin,
            blocks: sort_by_period(blocks),
            abs_path: self.abs_path,
            base_dir: self.base_dir,
        }
    }
}

/// The original blocks of every plan, plan after plan.
pub fn original_blocks_from_all(plans: &Vec<MarkdownDayPlan>) -> (r: Vec<Block>)
    ensures
        block_views(r@) == crate::day_plan::all_originals(md_plan_views(plans@)),
{
    let mut r: Vec<Block> = Vec::new();
    let mut i: usize = 0;
    let ghost all = md_plan_views(plans@);
    assert(all.take(0) =~= Seq::<DayPlanModel>::empty());
    while i < plans.len()
        invariant
            i <= plans.len(),
            all == md_plan_views(plans@),
            block_views(r@) == crate::day_plan::all_originals(all.take(i as int)),
        decreases plans.len() - i,
    {
        let ghost before = block_views(r@);
        let mut own = plans[i].only_original_blocks();
        let ghost added = block_views(own@);
        r.append(&mut own);
        proof {
            assert(all.take(i + 1).drop_last() =~= all.take(i as int));
            assert(all.take(i + 1).last() == plans@[i as int]@);
            assert(block_views(r@) =~= before + added);
        }
        i += 1;
    }
    assert(all.take(i as int) =~= all);
    r
}

} // verus!
