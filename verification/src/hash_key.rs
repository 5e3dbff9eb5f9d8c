//! Short keys for runs and pages: the numbers of the level, the run and
//! the page, with underscores between.

use crate::filename::{decimal, decimal_text};
use crate::types::{Level, Page, Run};
use vstd::prelude::*;
use vstd::string::StringExecFns;

verus! {

pub open spec fn spec_sst(level: Level, run: Run) -> Seq<char> {
    decimal(level as nat) + "_"@ + decimal(run as nat)
}

pub open spec fn spec_sst_page(level: Level, run: Run, page_index: Page) -> Seq<char> {
    spec_sst(level, run) + "_"@ + decimal(page_index as nat)
}

/// The key of run `run` of level `level`.
pub fn sst(level: &Level, run: &Run) -> (key: String)
    ensures
        key@ == spec_sst(*level, *run),
{
    let run_text = decimal_text(*run);
    decimal_text(*level).concat("_").concat(run_text.as_str())
}

/// The key of page `page_index` of run `run` of level `level`.
pub fn sst_page(level: &Level, run: &Run, page_index: &Page) -> (key: String)
    ensures
        key@ == spec_sst_page(*level, *run, *page_index),
{
    let page_text = decimal_text(*page_index);
    sst(level, run).concat("_").concat(page_text.as_str())
}

} // verus!
