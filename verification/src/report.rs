//! What a gather run needs from its configuration, and what it reports.

use vstd::prelude::*;

use crate::config::{
    config_entries, entry_views, names, pair_views, place_of, place_views, text_views, Config, ConfigView,
    EntryView, PackageEntry, Place, PlaceView,
};
use crate::gather::{GatherResult, Stats};
use crate::text::{decimal, decimal_text};

verus! {

/// What is to be gathered, and where to.
#[derive(Debug)]
pub struct GatherPlan {
    pub destination: Place,
    pub discover: Vec<Place>,
    pub configured_local: Vec<String>,
    pub entries: Vec<PackageEntry>,
}

/// What a [`GatherPlan`] says.
pub struct PlanView {
    pub destination: PlaceView,
    pub discover: Seq<PlaceView>,
    pub configured_local: Seq<Seq<char>>,
    pub entries: Seq<EntryView>,
}

impl View for GatherPlan {
    type V = PlanView;

    open spec fn view(&self) -> PlanView {
        PlanView {
            destination: self.destination@,
            discover: place_views(self.discover@),
            configured_local: text_views(self.configured_local@),
            entries: entry_views(self.entries@),
        }
    }
}

/// The plan that a configuration makes, if it names a destination. The
/// destination and the paths to scan are relative to the root directory, if
/// there is one.
pub open spec fn plan_of(config: ConfigView) -> Option<PlanView> {
    match config.destination {
        None => None,
        Some(destination) => Some(
            PlanView {
                destination: place_of(config, destination),
                discover: config.discover.map_values(|path: Seq<char>| place_of(config, path)),
                configured_local: names(config.local),
                entries: config_entries(config),
            },
        ),
    }
}

/// Plans a gather run.
pub fn plan_gather(config: Config) -> (plan: Result<GatherPlan, String>)
    ensures
        match plan_of(config@) {
            Some(p) => plan matches Ok(r) && r@ == p,
            None => plan matches Err(e) && e@ == "'destination' field is required for gather"@,
        },
{
    let destination = match &config.destination {
        Some(path) => config.place(path),
        None => return Err("'destination' field is required for gather".to_owned()),
    };
    let ghost view = config@;
    let ghost places = view.discover.map_values(|path: Seq<char>| place_of(view, path));
    let mut discover: Vec<Place> = Vec::new();
    for i in 0..config.discover.len()
        invariant
            view == config@,
            places == view.discover.map_values(|path: Seq<char>| place_of(view, path)),
            place_views(discover@) == places.take(i as int),
    {
        let ghost before = place_views(discover@);
        let place = config.place(&config.discover[i]);
        discover.push(place);
        assert(place_views(discover@) =~= before.push(place@));
        assert(place@ == places[i as int]);
        assert(place_views(discover@) =~= places.take(i + 1));
    }
    assert(places.take(config.discover@.len() as int) =~= places);
    let configured_local = config.local.keys();
    Ok(GatherPlan { destination, discover, configured_local, entries: config.into_entries() })
}

/// What a gather run says in the end.
#[derive(Debug)]
pub struct Report {
    pub lines: Vec<String>,
    pub success: bool,
}

/// The line for a local package that is not configured.
pub open spec fn missing_line(pair: (Seq<char>, Seq<char>)) -> Seq<char> {
    "  - "@ + pair.0 + " (in "@ + pair.1 + ")"@
}

/// The line that would configure a local package.
pub open spec fn advice_line(pair: (Seq<char>, Seq<char>)) -> Seq<char> {
    "  "@ + pair.0 + " = \"/path/to/"@ + pair.0 + "\""@
}

/// The lines that say which local packages are not configured.
pub open spec fn missing_lines(missing: Seq<(Seq<char>, Seq<char>)>) -> Seq<Seq<char>> {
    seq![""@, "Error: Found @local imports not configured in [local] section:"@]
        + missing.map_values(|pair: (Seq<char>, Seq<char>)| missing_line(pair)) + seq![
        ""@,
        "Add them to your config file:"@,
        "  [local]"@,
    ] + missing.map_values(|pair: (Seq<char>, Seq<char>)| advice_line(pair))
}

/// The line that sums a gather run up.
pub open spec fn summary_line(stats: Stats) -> Seq<char> {
    "Done: "@ + decimal(stats.downloaded as nat) + " downloaded, "@ + decimal(stats.copied as nat)
        + " copied, "@ + decimal(stats.skipped as nat) + " skipped, "@ + decimal(
        stats.failed as nat,
    ) + " failed"@
}

fn write_missing(pair: &(String, String)) -> (line: String)
    ensures
        line@ == missing_line((pair.0@, pair.1@)),
{
    let mut line = "  - ".to_owned();
    line.append(pair.0.as_str());
    line.append(" (in ");
    line.append(pair.1.as_str());
    line.append(")");
    line
}

fn write_advice(pair: &(String, String)) -> (line: String)
    ensures
        line@ == advice_line((pair.0@, pair.1@)),
{
    let mut line = "  ".to_owned();
    line.append(pair.0.as_str());
    line.append(" = \"/path/to/");
    line.append(pair.0.as_str());
    line.append("\"");
    line
}

fn write_summary(stats: Stats) -> (line: String)
    ensures
        line@ == summary_line(stats),
{
    let mut line = "Done: ".to_owned();
    line.append(decimal_text(stats.downloaded as u64).as_str());
    line.append(" downloaded, ");
    line.append(decimal_text(stats.copied as u64).as_str());
    line.append(" copied, ");
    line.append(decimal_text(stats.skipped as u64).as_str());
    line.append(" skipped, ");
    line.append(decimal_text(stats.failed as u64).as_str());
    line.append(" failed");
    line
}

fn write_all_missing(missing: &Vec<(String, String)>) -> (lines: Vec<String>)
    ensures
        text_views(lines@) == missing_lines(pair_views(missing@)),
{
    let ghost pairs = pair_views(missing@);
    let ghost found = pairs.map_values(|pair: (Seq<char>, Seq<char>)| missing_line(pair));
    let ghost advice = pairs.map_values(|pair: (Seq<char>, Seq<char>)| advice_line(pair));
    let ghost head = seq![
        ""@,
        "Error: Found @local imports not configured in [local] section:"@,
    ];
    let ghost middle = seq![""@, "Add them to your config file:"@, "  [local]"@];
    let mut lines: Vec<String> = Vec::new();
    lines.push("".to_owned());
    lines.push("Error: Found @local imports not configured in [local] section:".to_owned());
    assert(text_views(lines@) =~= head + found.take(0));
    for i in 0..missing.len()
        invariant
            pairs == pair_views(missing@),
            found == pairs.map_values(|pair: (Seq<char>, Seq<char>)| missing_line(pair)),
            text_views(lines@) == head + found.take(i as int),
    {
        let ghost before = text_views(lines@);
        let line = write_missing(&missing[i]);
        lines.push(line);
        assert(text_views(lines@) =~= before.push(line@));
        assert(line@ == found[i as int]);
        assert(text_views(lines@) =~= head + found.take(i + 1));
    }
    let ghost before = text_views(lines@);
    assert(before =~= head + found);
    lines.push("".to_owned());
    lines.push("Add them to your config file:".to_owned());
    lines.push("  [local]".to_owned());
    assert(text_views(lines@) =~= head + found + middle + advice.take(0));
    for i in 0..missing.len()
        invariant
            pairs == pair_views(missing@),
            advice == pairs.map_values(|pair: (Seq<char>, Seq<char>)| advice_line(pair)),
            text_views(lines@) == head + found + middle + advice.take(i as int),
    {
        let ghost before = text_views(lines@);
        let line = write_advice(&missing[i]);
        lines.push(line);
        assert(text_views(lines@) =~= before.push(line@));
        assert(line@ == advice[i as int]);
        assert(text_views(lines@) =~= head + found + middle + advice.take(i + 1));
    }
    assert(text_views(lines@) =~= missing_lines(pairs));
    lines
}

/// Reports on a gather run: local packages that are not configured are an
/// error, whatever else was done; so is anything that failed.
pub fn report(result: &GatherResult) -> (report: Report)
    ensures
        result.unconfigured_local@.len() > 0 ==> text_views(report.lines@) == missing_lines(
            pair_views(result.unconfigured_local@),
        ),
        result.unconfigured_local@.len() == 0 ==> text_views(report.lines@) == seq![
            ""@,
            summary_line(result.stats),
        ],
        report.success == (result.unconfigured_local@.len() == 0 && result.stats.failed == 0),
{
    if result.unconfigured_local.len() > 0 {
        Report { lines: write_all_missing(&result.unconfigured_local), success: false }
    } else {
        let mut lines: Vec<String> = Vec::new();
        lines.push("".to_owned());
        lines.push(write_summary(result.stats));
        assert(text_views(lines@) =~= seq![""@, summary_line(result.stats)]);
        Report { lines, success: result.stats.failed == 0 }
    }
}

} // verus!
