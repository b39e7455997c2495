//! What a gather run takes from its configuration, and what it tells.

use vstd::prelude::*;

use crate::config::{config_entries, ConfigView, EntryView};
use crate::config_laws::{law_every_configured_package_is_an_entry, law_names_leave_nothing_out};
use crate::gather::Stats;
use crate::report::{missing_lines, plan_of, summary_line};
use crate::text::decimal;

verus! {

/// A configuration makes a plan exactly if it names a destination. The plan scans every
/// path of the configuration and gathers every package of it, and every local package is
/// known as configured.
pub proof fn law_plan_is_the_configuration(config: ConfigView)
    ensures
        config.destination is Some <==> plan_of(config) is Some,
        plan_of(config) matches Some(plan) ==> {
            &&& plan.destination.root == config.rootdir
            &&& Some(plan.destination.path) == config.destination
            &&& plan.discover.len() == config.discover.len()
            &&& forall|i: int|
                0 <= i < config.discover.len() ==> (#[trigger] plan.discover[i]).root
                    == config.rootdir && plan.discover[i].path == config.discover[i]
            &&& plan.configured_local.len() == config.local.len()
            &&& forall|i: int|
                0 <= i < config.local.len() ==> #[trigger] plan.configured_local[i]
                    == config.local[i].0
            &&& plan.entries.len() == config.preview.len() + config.local.len()
            &&& forall|i: int|
                0 <= i < config.preview.len() ==> #[trigger] plan.entries[i] == (
                EntryView::Preview { name: config.preview[i].0, version: config.preview[i].1 })
            &&& forall|i: int|
                0 <= i < config.local.len() ==> #[trigger] plan.entries[config.preview.len() + i]
                    == (EntryView::Local { name: config.local[i].0, dir: config.local[i].1 })
        },
{
    law_every_configured_package_is_an_entry(config);
    law_names_leave_nothing_out(config.local);
    if let Some(plan) = plan_of(config) {
        assert forall|i: int| 0 <= i < config.preview.len() implies #[trigger] plan.entries[i] == (
        EntryView::Preview { name: config.preview[i].0, version: config.preview[i].1 }) by {
            assert(plan.entries[i] == config_entries(config)[i]);
        }
        assert forall|i: int| 0 <= i < config.local.len() implies #[trigger] plan.entries[
        config.preview.len() + i] == (EntryView::Local {
            name: config.local[i].0,
            dir: config.local[i].1,
        }) by {
            assert(plan.entries[config.preview.len() + i] == config_entries(
                config,
            )[config.preview.len() + i]);
        }
    }
}

/// Every local package that is not configured is named, with the file that imports it, and
/// so is the line that would configure it; there is one line of each sort for each of
/// them, in order, under their headings.
pub proof fn law_report_names_every_package(missing: Seq<(Seq<char>, Seq<char>)>)
    ensures
        missing_lines(missing).len() == 5 + 2 * missing.len(),
        missing_lines(missing)[0] == ""@,
        missing_lines(missing)[1]
            == "Error: Found @local imports not configured in [local] section:"@,
        forall|i: int|
            0 <= i < missing.len() ==> #[trigger] missing_lines(missing)[2 + i] == "  - "@
                + missing[i].0 + " (in "@ + missing[i].1 + ")"@,
        missing_lines(missing)[2 + missing.len() as int] == ""@,
        missing_lines(missing)[3 + missing.len() as int] == "Add them to your config file:"@,
        missing_lines(missing)[4 + missing.len() as int] == "  [local]"@,
        forall|i: int|
            0 <= i < missing.len() ==> #[trigger] missing_lines(missing)[5 + missing.len() + i]
                == "  "@ + missing[i].0 + " = \"/path/to/"@ + missing[i].0 + "\""@,
{
}

/// A run is summed up by its four numbers.
pub proof fn law_summary_tells_the_numbers(stats: Stats)
    ensures
        summary_line(stats) == "Done: "@ + decimal(stats.downloaded as nat) + " downloaded, "@
            + decimal(stats.copied as nat) + " copied, "@ + decimal(stats.skipped as nat)
            + " skipped, "@ + decimal(stats.failed as nat) + " failed"@,
{
}

} // verus!
