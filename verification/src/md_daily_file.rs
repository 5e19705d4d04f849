//! Reading the plan of a day from the markdown of a daily note.
use crate::day_plan::{parsed_blocks, DayPlan, DayPlanModel, SourceModel};
use crate::markdown_access::{block_strings_of, markdown_events};
use vstd::prelude::*;

verus! {

/// The plan of a daily note: the items that the markdown parser finds in
/// the section of the time blocks, each parsed as a block with `origin` as
/// the default. The day is left to be read from the path.
pub fn day_plan_from_daily_file_md(
    markdown_content: &str,
    origin: &str,
    abs_path: &str,
    base_dir: &str,
) -> (r: DayPlan)
    ensures
        r@ == (DayPlanModel {
            origin: origin@,
            blocks: parsed_blocks(origin@, block_strings_of(markdown_events(markdown_content@))),
            source: SourceModel::Markdown { abs_path: abs_path@, base_dir: base_dir@ },
            day: None,
        }),
{
    DayPlan::from_markdown(markdown_content, origin, abs_path, base_dir)
}

} // verus!
