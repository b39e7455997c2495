//! The configuration: what its TOML document may hold, and what it asks for.

use vstd::prelude::*;

use crate::config_laws::law_every_configured_package_is_an_entry;
use crate::seqs::lemma_push_contains;
use crate::text::same_text;

verus! {

/// The error of the TOML parser.
#[verifier::external_type_specification]
#[verifier::external_body]
pub struct ExTomlError(toml::de::Error);

/// A value of a configuration document, as far as the configuration can use it.
/// Inside a list or a section, whatever is not a string is `None`.
#[derive(Debug)]
pub enum ConfigValue {
    Text(String),
    List(Vec<Option<String>>),
    Section(Vec<(String, Option<String>)>),
    Other,
}

/// What a [`ConfigValue`] says.
pub enum ValueView {
    Text(Seq<char>),
    List(Seq<Option<Seq<char>>>),
    Section(Seq<(Seq<char>, Option<Seq<char>>)>),
    Other,
}

/// One string, or several.
#[derive(Debug)]
pub enum StringOrVec {
    Single(String),
    Multiple(Vec<String>),
}

/// Names with a text for each: for a `preview` package its version, for a
/// `local` package its directory. No name stands twice.
#[derive(Debug)]
pub struct PackageTable {
    entries: Vec<(String, String)>,
}

/// The fields of a configuration document.
#[derive(Debug)]
pub struct RawConfig {
    /// Root directory for resolving relative paths.
    pub rootdir: Option<String>,
    pub destination: Option<String>,
    pub discover: Option<StringOrVec>,
    pub package_cache: Option<StringOrVec>,
    pub preview: PackageTable,
    pub local: PackageTable,
}

/// What a [`RawConfig`] says.
pub struct RawView {
    pub rootdir: Option<Seq<char>>,
    pub destination: Option<Seq<char>>,
    pub discover: Option<Seq<Seq<char>>>,
    pub package_cache: Option<Seq<Seq<char>>>,
    pub preview: Seq<(Seq<char>, Seq<char>)>,
    pub local: Seq<(Seq<char>, Seq<char>)>,
}

/// A configuration.
#[derive(Debug)]
pub struct Config {
    /// Root directory against which the other paths are resolved.
    pub rootdir: Option<String>,
    /// Destination directory for gathered packages.
    pub destination: Option<String>,
    /// Paths to scan for imports: directories, or single Typst source files.
    pub discover: Vec<String>,
    /// Directories that hold packages, read when imports are analyzed.
    pub package_cache: Vec<String>,
    pub preview: PackageTable,
    pub local: PackageTable,
}

/// What a [`Config`] says.
pub struct ConfigView {
    pub rootdir: Option<Seq<char>>,
    pub destination: Option<Seq<char>>,
    pub discover: Seq<Seq<char>>,
    pub package_cache: Seq<Seq<char>>,
    pub preview: Seq<(Seq<char>, Seq<char>)>,
    pub local: Seq<(Seq<char>, Seq<char>)>,
}

/// Why a text is no configuration.
#[derive(Debug)]
pub enum ConfigError {
    /// It is no TOML document.
    Syntax(toml::de::Error),
    /// A field does not hold what it should.
    Field(String),
}

/// A package to gather.
#[derive(Debug, PartialEq, Eq)]
pub enum PackageEntry {
    Preview { name: String, version: String },
    Local { name: String, dir: String },
}

impl Clone for PackageEntry {
    fn clone(&self) -> (entry: Self)
        ensures
            entry == *self,
    {
        match self {
            PackageEntry::Preview { name, version } => PackageEntry::Preview {
                name: name.clone(),
                version: version.clone(),
            },
            PackageEntry::Local { name, dir } => PackageEntry::Local {
                name: name.clone(),
                dir: dir.clone(),
            },
        }
    }
}

/// What a [`PackageEntry`] says.
pub enum EntryView {
    Preview { name: Seq<char>, version: Seq<char> },
    Local { name: Seq<char>, dir: Seq<char> },
}

/// A path, and the directory that it is relative to, if there is one.
#[derive(Debug, PartialEq, Eq)]
pub struct Place {
    pub root: Option<String>,
    pub path: String,
}

impl Clone for Place {
    fn clone(&self) -> (place: Self)
        ensures
            place@ == self@,
    {
        Place {
            root: match &self.root {
                Some(root) => Some(root.clone()),
                None => None,
            },
            path: self.path.clone(),
        }
    }
}

/// What a [`Place`] says.
pub struct PlaceView {
    pub root: Option<Seq<char>>,
    pub path: Seq<char>,
}

/// What an optional text says.
pub open spec fn text_view(text: Option<String>) -> Option<Seq<char>> {
    match text {
        Some(t) => Some(t@),
        None => None,
    }
}

/// What a list of texts says.
pub open spec fn text_views(texts: Seq<String>) -> Seq<Seq<char>> {
    texts.map_values(|text: String| text@)
}

/// What a list of pairs of texts says.
pub open spec fn pair_views(pairs: Seq<(String, String)>) -> Seq<(Seq<char>, Seq<char>)> {
    pairs.map_values(|pair: (String, String)| (pair.0@, pair.1@))
}

/// What a list of optional texts says.
pub open spec fn item_views(items: Seq<Option<String>>) -> Seq<Option<Seq<char>>> {
    items.map_values(|item: Option<String>| text_view(item))
}

/// What a list of named optional texts says.
pub open spec fn section_views(section: Seq<(String, Option<String>)>) -> Seq<
    (Seq<char>, Option<Seq<char>>),
> {
    section.map_values(|pair: (String, Option<String>)| (pair.0@, text_view(pair.1)))
}

impl View for ConfigValue {
    type V = ValueView;

    open spec fn view(&self) -> ValueView {
        match self {
            ConfigValue::Text(text) => ValueView::Text(text@),
            ConfigValue::List(items) => ValueView::List(item_views(items@)),
            ConfigValue::Section(section) => ValueView::Section(section_views(section@)),
            ConfigValue::Other => ValueView::Other,
        }
    }
}

impl View for StringOrVec {
    type V = Seq<Seq<char>>;

    open spec fn view(&self) -> Seq<Seq<char>> {
        match self {
            StringOrVec::Single(text) => seq![text@],
            StringOrVec::Multiple(texts) => text_views(texts@),
        }
    }
}

impl View for PackageTable {
    type V = Seq<(Seq<char>, Seq<char>)>;

    closed spec fn view(&self) -> Seq<(Seq<char>, Seq<char>)> {
        pair_views(self.entries@)
    }
}

/// What an optional list of strings says.
pub open spec fn strings_view(strings: Option<StringOrVec>) -> Option<Seq<Seq<char>>> {
    match strings {
        Some(s) => Some(s@),
        None => None,
    }
}

impl View for RawConfig {
    type V = RawView;

    open spec fn view(&self) -> RawView {
        RawView {
            rootdir: text_view(self.rootdir),
            destination: text_view(self.destination),
            discover: strings_view(self.discover),
            package_cache: strings_view(self.package_cache),
            preview: self.preview@,
            local: self.local@,
        }
    }
}

impl View for Config {
    type V = ConfigView;

    open spec fn view(&self) -> ConfigView {
        ConfigView {
            rootdir: text_view(self.rootdir),
            destination: text_view(self.destination),
            discover: text_views(self.discover@),
            package_cache: text_views(self.package_cache@),
            preview: self.preview@,
            local: self.local@,
        }
    }
}

impl View for PackageEntry {
    type V = EntryView;

    open spec fn view(&self) -> EntryView {
        match self {
            PackageEntry::Preview { name, version } => EntryView::Preview {
                name: name@,
                version: version@,
            },
            PackageEntry::Local { name, dir } => EntryView::Local { name: name@, dir: dir@ },
        }
    }
}

impl View for Place {
    type V = PlaceView;

    open spec fn view(&self) -> PlaceView {
        PlaceView { root: text_view(self.root), path: self.path@ }
    }
}

/// What a list of entries says.
pub open spec fn entry_views(entries: Seq<PackageEntry>) -> Seq<EntryView> {
    entries.map_values(|entry: PackageEntry| entry@)
}

/// What a list of places says.
pub open spec fn place_views(places: Seq<Place>) -> Seq<PlaceView> {
    places.map_values(|place: Place| place@)
}

/// What a document says.
pub open spec fn document_view(document: Seq<(String, ConfigValue)>) -> Seq<
    (Seq<char>, ValueView),
> {
    document.map_values(|pair: (String, ConfigValue)| (pair.0@, pair.1@))
}

/// Whether no two pairs have the same first part.
pub open spec fn distinct_names<A>(pairs: Seq<(Seq<char>, A)>) -> bool {
    forall|i: int, j: int|
        0 <= i < j < pairs.len() ==> (#[trigger] pairs[i]).0 != (#[trigger] pairs[j]).0
}

/// Whether no name stands twice in a document, nor twice in a section of it.
pub open spec fn distinct_document(document: Seq<(Seq<char>, ValueView)>) -> bool {
    &&& distinct_names(document)
    &&& forall|i: int|
        0 <= i < document.len() ==> ((#[trigger] document[i]).1 matches ValueView::Section(section)
            ==> distinct_names(section))
}

/// The value that stands first under a name.
pub open spec fn lookup<A>(pairs: Seq<(Seq<char>, A)>, name: Seq<char>) -> Option<A>
    decreases pairs.len(),
{
    if pairs.len() == 0 {
        None
    } else if pairs[0].0 == name {
        Some(pairs[0].1)
    } else {
        lookup(pairs.skip(1), name)
    }
}

/// A table with a text under a name, in place of the one that stood there.
pub open spec fn with_entry(
    pairs: Seq<(Seq<char>, Seq<char>)>,
    name: Seq<char>,
    text: Seq<char>,
) -> Seq<(Seq<char>, Seq<char>)> {
    if names(pairs).contains(name) {
        pairs.map_values(
            |pair: (Seq<char>, Seq<char>)|
                if pair.0 == name {
                    (name, text)
                } else {
                    pair
                },
        )
    } else {
        pairs.push((name, text))
    }
}

/// The table that some pairs make, one after the other: under a name that stands twice,
/// the last text counts.
pub open spec fn entered(pairs: Seq<(Seq<char>, Seq<char>)>) -> Seq<(Seq<char>, Seq<char>)>
    decreases pairs.len(),
{
    if pairs.len() == 0 {
        Seq::empty()
    } else {
        with_entry(entered(pairs.drop_last()), pairs.last().0, pairs.last().1)
    }
}

/// The names of a table, in order.
pub open spec fn names<A>(pairs: Seq<(Seq<char>, A)>) -> Seq<Seq<char>> {
    pairs.map_values(|pair: (Seq<char>, A)| pair.0)
}

/// What the TOML parser makes of a text: its top-level table, in the order in
/// which `serde_json::Map` keeps it.
pub uninterp spec fn toml_document(content: Seq<char>) -> Option<Seq<(Seq<char>, ValueView)>>;

/// Parses a TOML document with `toml::from_str`, into a `serde_json::Map`: a date
/// comes as `toml` hands it to any map, with one name and the date as its text.
///
/// Taken on trust: whether there is a document, and what it holds, depends on
/// the text alone, and is called `toml_document` of the text; a name stands at
/// most once in a table.
#[verifier::external_body]
fn read_document(content: &str) -> (document: Result<Vec<(String, ConfigValue)>, toml::de::Error>)
    ensures
        document is Ok == toml_document(content@) is Some,
        document matches Ok(d) ==> toml_document(content@) == Some(document_view(d@)),
        document matches Ok(d) ==> distinct_document(document_view(d@)),
{
    let text = |value: serde_json::Value| value.as_str().map(String::from);
    let table = toml::from_str::<serde_json::Map<String, serde_json::Value>>(content)?;
    Ok(table.into_iter().map(|(key, value)| (key, match value {
        serde_json::Value::String(string) => ConfigValue::Text(string),
        serde_json::Value::Array(items) => ConfigValue::List(items.into_iter().map(text).collect()),
        serde_json::Value::Object(section) => {
            ConfigValue::Section(section.into_iter().map(|(k, v)| (k, text(v))).collect())
        }
        _ => ConfigValue::Other,
    })).collect())
}

/// The string in a field that may hold one: `None` where the field holds
/// something else.
pub open spec fn text_field(
    document: Seq<(Seq<char>, ValueView)>,
    name: Seq<char>,
) -> Option<Option<Seq<char>>> {
    match lookup(document, name) {
        None => Some(None),
        Some(ValueView::Text(text)) => Some(Some(text)),
        Some(_) => None,
    }
}

/// The strings in a field that may hold one or a list of them: `None` where the
/// field holds something else.
pub open spec fn paths_field(
    document: Seq<(Seq<char>, ValueView)>,
    name: Seq<char>,
) -> Option<Option<Seq<Seq<char>>>> {
    match lookup(document, name) {
        None => Some(None),
        Some(ValueView::Text(text)) => Some(Some(seq![text])),
        Some(ValueView::List(items)) => if forall|i: int|
            0 <= i < items.len() ==> #[trigger] items[i] is Some {
            Some(Some(items.map_values(|item: Option<Seq<char>>| item->0)))
        } else {
            None
        },
        Some(_) => None,
    }
}

/// The names and strings of a section that holds strings only.
pub open spec fn named_texts(section: Seq<(Seq<char>, Option<Seq<char>>)>) -> Seq<
    (Seq<char>, Seq<char>),
> {
    section.map_values(|pair: (Seq<char>, Option<Seq<char>>)| (pair.0, pair.1->0))
}

/// The names and strings in a field that may hold a section of them: `None`
/// where the field holds something else.
pub open spec fn table_field(
    document: Seq<(Seq<char>, ValueView)>,
    name: Seq<char>,
) -> Option<Seq<(Seq<char>, Seq<char>)>> {
    match lookup(document, name) {
        None => Some(Seq::empty()),
        Some(ValueView::Section(section)) => if forall|i: int|
            0 <= i < section.len() ==> (#[trigger] section[i]).1 is Some {
            Some(entered(named_texts(section)))
        } else {
            None
        },
        Some(_) => None,
    }
}

/// The fields of a document, or the first field that does not hold what it
/// should. Fields that the configuration does not know are ignored.
pub open spec fn raw_of(document: Seq<(Seq<char>, ValueView)>) -> Result<RawView, Seq<char>> {
    if text_field(document, "rootdir"@) is None {
        Err("rootdir"@)
    } else if text_field(document, "destination"@) is None {
        Err("destination"@)
    } else if paths_field(document, "discover"@) is None {
        Err("discover"@)
    } else if paths_field(document, "package-cache"@) is None {
        Err("package-cache"@)
    } else if table_field(document, "preview"@) is None {
        Err("preview"@)
    } else if table_field(document, "local"@) is None {
        Err("local"@)
    } else {
        Ok(
            RawView {
                rootdir: text_field(document, "rootdir"@)->0,
                destination: text_field(document, "destination"@)->0,
                discover: paths_field(document, "discover"@)->0,
                package_cache: paths_field(document, "package-cache"@)->0,
                preview: table_field(document, "preview"@)->0,
                local: table_field(document, "local"@)->0,
            },
        )
    }
}

/// The paths in an optional field: none where the field is absent.
pub open spec fn paths_or_none(paths: Option<Seq<Seq<char>>>) -> Seq<Seq<char>> {
    match paths {
        Some(p) => p,
        None => Seq::empty(),
    }
}

/// The configuration that the fields of a document make.
pub open spec fn config_of(raw: RawView) -> ConfigView {
    ConfigView {
        rootdir: raw.rootdir,
        destination: raw.destination,
        discover: paths_or_none(raw.discover),
        package_cache: paths_or_none(raw.package_cache),
        preview: raw.preview,
        local: raw.local,
    }
}

/// The place of a path: it is relative to the root directory of the
/// configuration, if there is one.
pub open spec fn place_of(config: ConfigView, path: Seq<char>) -> PlaceView {
    PlaceView { root: config.rootdir, path }
}

/// The entries that a configuration asks for: its `preview` packages, then its
/// `local` packages.
pub open spec fn config_entries(config: ConfigView) -> Seq<EntryView> {
    config.preview.map_values(
        |pair: (Seq<char>, Seq<char>)| EntryView::Preview { name: pair.0, version: pair.1 },
    ) + config.local.map_values(
        |pair: (Seq<char>, Seq<char>)| EntryView::Local { name: pair.0, dir: pair.1 },
    )
}

fn find<'a>(document: &'a Vec<(String, ConfigValue)>, name: &str) -> (value: Option<
    &'a ConfigValue,
>)
    ensures
        match value {
            Some(v) => lookup(document_view(document@), name@) == Some(v@),
            None => lookup(document_view(document@), name@) is None,
        },
{
    let ghost views = document_view(document@);
    assert(views.skip(0) =~= views);
    for i in 0..document.len()
        invariant
            views == document_view(document@),
            lookup(views, name@) == lookup(views.skip(i as int), name@),
    {
        assert(views.skip(i as int)[0] == (document@[i as int].0@, document@[i as int].1@));
        assert(views.skip(i as int).skip(1) =~= views.skip(i + 1));
        if same_text(document[i].0.as_str(), name) {
            return Some(&document[i].1);
        }
    }
    None
}

fn read_text(document: &Vec<(String, ConfigValue)>, name: &str) -> (field: Result<
    Option<String>,
    ConfigError,
>)
    ensures
        match text_field(document_view(document@), name@) {
            Some(t) => field matches Ok(f) && text_view(f) == t,
            None => field matches Err(ConfigError::Field(f)) && f@ == name@,
        },
{
    match find(document, name) {
        None => Ok(None),
        Some(ConfigValue::Text(text)) => Ok(Some(text.clone())),
        Some(_) => Err(ConfigError::Field(name.to_owned())),
    }
}

fn read_list(items: &Vec<Option<String>>) -> (texts: Option<Vec<String>>)
    ensures
        match texts {
            Some(t) => (forall|i: int| 0 <= i < items@.len() ==> #[trigger] items@[i] is Some)
                && text_views(t@) == item_views(items@).map_values(
                |item: Option<Seq<char>>| item->0,
            ),
            None => exists|i: int| 0 <= i < items@.len() && #[trigger] items@[i] is None,
        },
{
    let mut texts: Vec<String> = Vec::new();
    for i in 0..items.len()
        invariant
            texts@.len() == i,
            forall|j: int| 0 <= j < i ==> #[trigger] items@[j] is Some,
            forall|j: int| 0 <= j < i ==> (#[trigger] texts@[j])@ == items@[j]->0@,
    {
        match &items[i] {
            Some(text) => texts.push(text.clone()),
            None => return None,
        }
    }
    assert(text_views(texts@) =~= item_views(items@).map_values(
        |item: Option<Seq<char>>| item->0,
    ));
    Some(texts)
}

fn read_paths(document: &Vec<(String, ConfigValue)>, name: &str) -> (field: Result<
    Option<StringOrVec>,
    ConfigError,
>)
    ensures
        match paths_field(document_view(document@), name@) {
            Some(p) => field matches Ok(f) && strings_view(f) == p,
            None => field matches Err(ConfigError::Field(f)) && f@ == name@,
        },
{
    match find(document, name) {
        None => Ok(None),
        Some(ConfigValue::Text(text)) => Ok(Some(StringOrVec::Single(text.clone()))),
        Some(ConfigValue::List(items)) => {
            let ghost views = item_views(items@);
            assert(forall|i: int|
                0 <= i < items@.len() ==> (#[trigger] views[i] is Some == items@[i] is Some));
            match read_list(items) {
                Some(texts) => Ok(Some(StringOrVec::Multiple(texts))),
                None => {
                    proof {
                        let i = choose|i: int| 0 <= i < items@.len() && #[trigger] items@[i] is None;
                        assert(views[i] is None);
                    }
                    Err(ConfigError::Field(name.to_owned()))
                },
            }
        },
        Some(_) => Err(ConfigError::Field(name.to_owned())),
    }
}

fn read_section(section: &Vec<(String, Option<String>)>) -> (table: Option<PackageTable>)
    ensures
        match table {
            Some(t) => (forall|i: int|
                0 <= i < section@.len() ==> (#[trigger] section@[i]).1 is Some) && t@ == entered(
                named_texts(section_views(section@)),
            ),
            None => exists|i: int| 0 <= i < section@.len() && (#[trigger] section@[i]).1 is None,
        },
{
    let ghost pairs = named_texts(section_views(section@));
    let mut table = PackageTable::new();
    for i in 0..section.len()
        invariant
            pairs == named_texts(section_views(section@)),
            forall|j: int| 0 <= j < i ==> (#[trigger] section@[j]).1 is Some,
            table@ == entered(pairs.take(i as int)),
    {
        match &section[i].1 {
            Some(text) => {
                assert(pairs.take(i + 1).drop_last() =~= pairs.take(i as int));
                assert(pairs.take(i + 1).last() == (section@[i as int].0@, text@));
                table.insert(section[i].0.clone(), text.clone());
            },
            None => return None,
        }
    }
    assert(pairs.take(section.len() as int) =~= pairs);
    Some(table)
}

fn read_table(document: &Vec<(String, ConfigValue)>, name: &str) -> (field: Result<
    PackageTable,
    ConfigError,
>)
    ensures
        match table_field(document_view(document@), name@) {
            Some(t) => field matches Ok(f) && f@ == t,
            None => field matches Err(ConfigError::Field(f)) && f@ == name@,
        },
{
    match find(document, name) {
        None => Ok(PackageTable::new()),
        Some(ConfigValue::Section(section)) => {
            let ghost views = section_views(section@);
            assert(forall|i: int|
                0 <= i < section@.len() ==> ((#[trigger] views[i]).1 is Some == section@[i].1 is Some));
            match read_section(section) {
                Some(table) => Ok(table),
                None => {
                    proof {
                        let i = choose|i: int|
                            0 <= i < section@.len() && (#[trigger] section@[i]).1 is None;
                        assert(views[i].1 is None);
                    }
                    Err(ConfigError::Field(name.to_owned()))
                },
            }
        },
        Some(_) => Err(ConfigError::Field(name.to_owned())),
    }
}

impl StringOrVec {
    /// The strings, as a list.
    pub fn into_paths(self) -> (paths: Vec<String>)
        ensures
            text_views(paths@) == self@,
    {
        match self {
            StringOrVec::Single(text) => {
                let mut paths: Vec<String> = Vec::new();
                paths.push(text);
                assert(text_views(paths@) =~= seq![text@]);
                paths
            },
            StringOrVec::Multiple(texts) => texts,
        }
    }
}

impl Default for StringOrVec {
    fn default() -> (strings: StringOrVec)
        ensures
            strings@ == Seq::<Seq<char>>::empty(),
    {
        let strings = StringOrVec::Multiple(Vec::new());
        assert(strings@ =~= Seq::<Seq<char>>::empty());
        strings
    }
}

fn put(entries: &mut Vec<(String, String)>, name: String, text: String)
    ensures
        pair_views(final(entries)@) == with_entry(pair_views(old(entries)@), name@, text@),
{
    let ghost before = pair_views(entries@);
    let n: usize = entries.len();
    let mut present = false;
    for i in 0..n
        invariant
            n == before.len(),
            pair_views(entries@).len() == n,
            present == names(before).take(i as int).contains(name@),
            forall|j: int|
                0 <= j < n ==> #[trigger] pair_views(entries@)[j] == (if j < i && before[j].0
                    == name@ {
                    (name@, text@)
                } else {
                    before[j]
                }),
    {
        assert(pair_views(entries@)[i as int] == before[i as int]);
        assert(pair_views(entries@)[i as int].0 == entries@[i as int].0@);
        let ghost seen = names(before).take(i as int);
        assert(names(before).take(i + 1) =~= seen.push(before[i as int].0));
        proof {
            lemma_push_contains(seen, before[i as int].0, name@);
        }
        let ghost earlier = entries@;
        if entries[i].0 == name {
            entries.set(i, (name.clone(), text.clone()));
            present = true;
        }
        assert forall|j: int| 0 <= j < n implies #[trigger] pair_views(entries@)[j] == (if j < i + 1
            && before[j].0 == name@ {
            (name@, text@)
        } else {
            before[j]
        }) by {
            if j != i {
                assert(entries@[j] == earlier[j]);
                assert(pair_views(earlier)[j] == pair_views(entries@)[j]);
            }
        }
    }
    assert(names(before).take(n as int) =~= names(before));
    if !present {
        let ghost now = pair_views(entries@);
        assert(now =~= before) by {
            assert forall|j: int| 0 <= j < n implies now[j] == before[j] by {
                assert(names(before)[j] == before[j].0);
            }
        }
        entries.push((name, text));
        assert(pair_views(entries@) =~= before.push((name@, text@)));
    } else {
        assert(pair_views(entries@) =~= with_entry(before, name@, text@));
    }
}

impl PackageTable {
    #[verifier::type_invariant]
    spec fn sound(self) -> bool {
        distinct_names(pair_views(self.entries@))
    }

    /// A table without names.
    pub fn new() -> (table: PackageTable)
        ensures
            table@ == Seq::<(Seq<char>, Seq<char>)>::empty(),
    {
        let table = PackageTable { entries: Vec::new() };
        assert(table@ =~= Seq::<(Seq<char>, Seq<char>)>::empty());
        table
    }

    /// Puts a text under a name, in place of the one that stood there.
    pub fn insert(&mut self, name: String, text: String)
        ensures
            final(self)@ == with_entry(old(self)@, name@, text@),
            lookup(final(self)@, name@) == Some(text@),
    {
        proof {
            use_type_invariant(&*self);
            lemma_with_entry(self@, name@, text@);
        }
        let mut entries: Vec<(String, String)> = Vec::new();
        std::mem::swap(&mut entries, &mut self.entries);
        put(&mut entries, name, text);
        self.entries = entries;
    }

    /// How many names the table has.
    pub fn len(&self) -> (len: usize)
        ensures
            len == self@.len(),
    {
        self.entries.len()
    }

    /// Whether the table has no name.
    pub fn is_empty(&self) -> (yes: bool)
        ensures
            yes == (self@.len() == 0),
    {
        self.entries.len() == 0
    }

    /// The text that stands under a name.
    pub fn get(&self, name: &str) -> (text: Option<&String>)
        ensures
            match text {
                Some(t) => lookup(self@, name@) == Some(t@),
                None => lookup(self@, name@) is None,
            },
    {
        assert(self@.skip(0) =~= self@);
        for i in 0..self.entries.len()
            invariant
                lookup(self@, name@) == lookup(self@.skip(i as int), name@),
        {
            assert(self@.skip(i as int)[0] == (
                self.entries@[i as int].0@,
                self.entries@[i as int].1@,
            ));
            assert(self@.skip(i as int).skip(1) =~= self@.skip(i + 1));
            if same_text(self.entries[i].0.as_str(), name) {
                return Some(&self.entries[i].1);
            }
        }
        None
    }

    /// The names and texts of the table, in order.
    pub fn pairs(&self) -> (pairs: &Vec<(String, String)>)
        ensures
            pair_views(pairs@) == self@,
            distinct_names(self@),
    {
        proof {
            use_type_invariant(self);
        }
        &self.entries
    }

    /// The names of the table, in order.
    pub fn keys(&self) -> (keys: Vec<String>)
        ensures
            text_views(keys@) == names(self@),
            names(self@).no_duplicates(),
    {
        proof {
            use_type_invariant(self);
        }
        let mut keys: Vec<String> = Vec::new();
        for i in 0..self.entries.len()
            invariant
                keys@.len() == i,
                forall|j: int| 0 <= j < i ==> (#[trigger] keys@[j])@ == self.entries@[j].0@,
        {
            keys.push(self.entries[i].0.clone());
        }
        assert(text_views(keys@) =~= names(self@));
        keys
    }
}

impl RawConfig {
    /// Reads the fields of a document.
    pub fn from_document(document: &Vec<(String, ConfigValue)>) -> (raw: Result<
        RawConfig,
        ConfigError,
    >)
        ensures
            match raw_of(document_view(document@)) {
                Ok(r) => raw matches Ok(c) && c@ == r,
                Err(name) => raw matches Err(ConfigError::Field(f)) && f@ == name,
            },
    {
        let rootdir = read_text(document, "rootdir")?;
        let destination = read_text(document, "destination")?;
        let discover = read_paths(document, "discover")?;
        let package_cache = read_paths(document, "package-cache")?;
        let preview = read_table(document, "preview")?;
        let local = read_table(document, "local")?;
        Ok(RawConfig { rootdir, destination, discover, package_cache, preview, local })
    }
}

impl Default for Config {
    fn default() -> (config: Config)
        ensures
            config@ == (ConfigView {
                rootdir: None,
                destination: None,
                discover: Seq::empty(),
                package_cache: Seq::empty(),
                preview: Seq::empty(),
                local: Seq::empty(),
            }),
    {
        let config = Config {
            rootdir: None,
            destination: None,
            discover: Vec::new(),
            package_cache: Vec::new(),
            preview: PackageTable::new(),
            local: PackageTable::new(),
        };
        assert(config@.discover =~= Seq::<Seq<char>>::empty());
        assert(config@.package_cache =~= Seq::<Seq<char>>::empty());
        config
    }
}

fn paths_of(paths: Option<StringOrVec>) -> (list: Vec<String>)
    ensures
        text_views(list@) == paths_or_none(strings_view(paths)),
{
    match paths {
        Some(p) => p.into_paths(),
        None => StringOrVec::default().into_paths(),
    }
}

impl Config {
    /// Makes a configuration of the fields of a document.
    pub fn from(raw: RawConfig) -> (config: Config)
        ensures
            config@ == config_of(raw@),
    {
        Config {
            rootdir: raw.rootdir,
            destination: raw.destination,
            discover: paths_of(raw.discover),
            package_cache: paths_of(raw.package_cache),
            preview: raw.preview,
            local: raw.local,
        }
    }

    /// Parses a TOML configuration.
    pub fn parse(content: &str) -> (config: Result<Config, ConfigError>)
        ensures
            match toml_document(content@) {
                None => config matches Err(ConfigError::Syntax(_)),
                Some(document) => distinct_document(document) && match raw_of(document) {
                    Ok(raw) => config matches Ok(c) && c@ == config_of(raw) && distinct_names(
                        c@.preview,
                    ) && distinct_names(c@.local),
                    Err(name) => config matches Err(ConfigError::Field(f)) && f@ == name,
                },
            },
    {
        let document = match read_document(content) {
            Ok(document) => document,
            Err(error) => return Err(ConfigError::Syntax(error)),
        };
        let raw = RawConfig::from_document(&document)?;
        let config = Config::from(raw);
        proof {
            use_type_invariant(&config.preview);
            use_type_invariant(&config.local);
        }
        Ok(config)
    }

    /// The place of a path: it is relative to the root directory, if there is
    /// one.
    pub fn place(&self, path: &String) -> (place: Place)
        ensures
            place@ == place_of(self@, path@),
    {
        Place {
            root: match &self.rootdir {
                Some(root) => Some(root.clone()),
                None => None,
            },
            path: path.clone(),
        }
    }

    /// Turns the configuration into the list of packages to gather.
    pub fn into_entries(self) -> (entries: Vec<PackageEntry>)
        ensures
            entry_views(entries@) == config_entries(self@),
            entries@.len() == self.preview@.len() + self.local@.len(),
            forall|i: int|
                0 <= i < self.preview@.len() ==> entry_views(entries@).contains(
                    EntryView::Preview {
                        name: (#[trigger] self.preview@[i]).0,
                        version: self.preview@[i].1,
                    },
                ),
            forall|i: int|
                0 <= i < self.local@.len() ==> entry_views(entries@).contains(
                    EntryView::Local {
                        name: (#[trigger] self.local@[i]).0,
                        dir: self.local@[i].1,
                    },
                ),
    {
        proof {
            law_every_configured_package_is_an_entry(self@);
        }
        let mut entries: Vec<PackageEntry> = Vec::new();
        let preview = self.preview.entries;
        let local = self.local.entries;
        for i in 0..preview.len()
            invariant
                entries@.len() == i,
                forall|j: int|
                    0 <= j < i ==> (#[trigger] entries@[j])@ == (EntryView::Preview {
                        name: preview@[j].0@,
                        version: preview@[j].1@,
                    }),
        {
            let (name, version) = (preview[i].0.clone(), preview[i].1.clone());
            entries.push(PackageEntry::Preview { name, version });
        }
        for i in 0..local.len()
            invariant
                entries@.len() == preview@.len() + i,
                forall|j: int|
                    0 <= j < preview@.len() ==> (#[trigger] entries@[j])@ == (EntryView::Preview {
                        name: preview@[j].0@,
                        version: preview@[j].1@,
                    }),
                forall|j: int|
                    preview@.len() <= j < preview@.len() + i ==> (#[trigger] entries@[j])@ == (
                    EntryView::Local {
                        name: local@[j - preview@.len()].0@,
                        dir: local@[j - preview@.len()].1@,
                    }),
        {
            let (name, dir) = (local[i].0.clone(), local[i].1.clone());
            entries.push(PackageEntry::Local { name, dir });
        }
        assert(entry_views(entries@) =~= config_entries(self@));
        entries
    }
}

/// Pairs in which no name stands twice make the table that they are.
pub proof fn law_distinct_pairs_stay(pairs: Seq<(Seq<char>, Seq<char>)>)
    requires
        distinct_names(pairs),
    ensures
        entered(pairs) == pairs,
    decreases pairs.len(),
{
    if pairs.len() > 0 {
        let front = pairs.drop_last();
        let last = pairs.last();
        assert forall|i: int, j: int| 0 <= i < j < front.len() implies (#[trigger] front[i]).0 != (
        #[trigger] front[j]).0 by {
            assert(pairs[i].0 != pairs[j].0);
        }
        law_distinct_pairs_stay(front);
        if names(front).contains(last.0) {
            let i = choose|i: int| 0 <= i < names(front).len() && names(front)[i] == last.0;
            assert(pairs[i].0 != pairs[pairs.len() - 1].0);
        }
        assert(front.push(last) =~= pairs);
    }
}

proof fn lemma_lookup<A>(pairs: Seq<(Seq<char>, A)>, name: Seq<char>, i: int)
    requires
        0 <= i < pairs.len(),
        pairs[i].0 == name,
        forall|j: int| 0 <= j < i ==> (#[trigger] pairs[j]).0 != name,
    ensures
        lookup(pairs, name) == Some(pairs[i].1),
    decreases i,
{
    if i > 0 {
        let rest = pairs.skip(1);
        assert(forall|j: int| 0 <= j < rest.len() ==> #[trigger] rest[j] == pairs[j + 1]);
        lemma_lookup(rest, name, i - 1);
    }
}

proof fn lemma_first_named<A>(pairs: Seq<(Seq<char>, A)>, name: Seq<char>) -> (i: int)
    requires
        names(pairs).contains(name),
    ensures
        0 <= i < pairs.len(),
        pairs[i].0 == name,
        forall|j: int| 0 <= j < i ==> (#[trigger] pairs[j]).0 != name,
    decreases pairs.len(),
{
    if pairs[0].0 == name {
        0
    } else {
        let rest = pairs.skip(1);
        let k = choose|k: int| 0 <= k < names(pairs).len() && names(pairs)[k] == name;
        assert(names(rest)[k - 1] == name);
        let i = lemma_first_named(rest, name);
        assert forall|j: int| 0 <= j < i + 1 implies (#[trigger] pairs[j]).0 != name by {
            if j > 0 {
                assert(rest[j - 1] == pairs[j]);
            }
        }
        i + 1
    }
}

proof fn lemma_with_entry(pairs: Seq<(Seq<char>, Seq<char>)>, name: Seq<char>, text: Seq<char>)
    ensures
        lookup(with_entry(pairs, name, text), name) == Some(text),
        distinct_names(pairs) ==> distinct_names(with_entry(pairs, name, text)),
{
    let table = with_entry(pairs, name, text);
    if names(pairs).contains(name) {
        let i = lemma_first_named(pairs, name);
        assert forall|j: int| 0 <= j < i implies (#[trigger] table[j]).0 != name by {
            assert(pairs[j].0 != name);
        }
        lemma_lookup(table, name, i);
        assert(forall|j: int| 0 <= j < table.len() ==> (#[trigger] table[j]).0 == pairs[j].0);
    } else {
        assert forall|j: int| 0 <= j < pairs.len() implies (#[trigger] pairs[j]).0 != name by {
            assert(names(pairs)[j] == pairs[j].0);
        }
        lemma_lookup(table, name, pairs.len() as int);
    }
}

} // verus!
