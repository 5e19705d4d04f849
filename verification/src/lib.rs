//! Time blocks kept as small lines of text in several note collections:
//! parsing the lines, reading their tags, merging the plans of one day
//! across collections, and adding up the time spent per tag.
pub mod block;
pub mod cal_day_plan;
pub mod cmd_spent;
pub mod day_plan;
pub mod markdown_access;
pub mod md_daily_file;
pub mod md_day_plan;
pub mod period_order;
pub mod sync;
pub mod tag;
pub mod text;
pub mod time_range;
pub mod time_summary;
