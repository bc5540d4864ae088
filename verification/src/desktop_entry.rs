//! Desktop entries: what a `.desktop` file says about an application, and
//! how it is launched.
use vstd::prelude::*;

use crate::completions::EntryCache;
use crate::mime_apps::{self, MimeApps};
use crate::mime_map;
use crate::mime_type::MimeType;
use crate::paths;
use crate::text::{
    self, chars_eq, chars_of, extend_strings, last_segment_chars, split_chars, string_of, strings_of,
    trim_quotes_chars, words_of,
};

verus! {

#[verifier::external_type_specification]
#[verifier::external_body]
pub struct ExEntry(freedesktop_entry_parser::Entry);

#[verifier::external_type_specification]
#[verifier::external_body]
pub struct ExParseError(freedesktop_entry_parser::ParseError);

/// The values that a parsed entry holds: for a section and an attribute, the
/// value of the attribute without parameter, as `AttrSelector::attr` reports it.
pub uninterp spec fn entry_values(entry: freedesktop_entry_parser::Entry) -> Map<(Seq<char>, Seq<char>), Seq<char>>;

/// What `freedesktop_entry_parser::Entry::parse` makes of the bytes of a
/// file: `None` where it refuses them, else the values of the entry.
pub uninterp spec fn parsed_entry(bytes: Seq<u8>) -> Option<Map<(Seq<char>, Seq<char>), Seq<char>>>;

/// Calls `freedesktop_entry_parser::Entry::parse`. The contract claims only
/// that success and the values found are those named by `parsed_entry`.
#[verifier::external_body]
fn parse_entry(bytes: &[u8]) -> (res: Result<freedesktop_entry_parser::Entry, freedesktop_entry_parser::ParseError>)
    ensures
        res is Ok <==> parsed_entry(bytes@) is Some,
        res matches Ok(e) ==> entry_values(e) == parsed_entry(bytes@)->0,
{
    freedesktop_entry_parser::Entry::parse(bytes.to_vec())
}

/// Calls `Entry::section(section).attr(name)` and copies the value. The
/// contract claims that the value is the one that `entry_values` holds.
#[verifier::external_body]
fn entry_attr(entry: &freedesktop_entry_parser::Entry, section: &str, name: &str) -> (res: Option<String>)
    ensures
        match res {
            Some(v) => entry_values(*entry).contains_key((section@, name@)) && entry_values(*entry)[(
            section@,
            name@,
            )] == v@,
            None => !entry_values(*entry).contains_key((section@, name@)),
        },
{
    match entry.section(section).attr(name) {
        Some(v) => Some(v.to_string()),
        None => None,
    }
}

/// What a desktop entry says, as text.
pub struct EntryView {
    pub name: Seq<char>,
    pub file_name: Seq<char>,
    pub no_display: bool,
    pub command: Seq<char>,
    pub use_terminal: bool,
    pub categories: Set<Seq<char>>,
}

/// An application's desktop entry.
pub struct DesktopEntry {
    pub name: String,
    pub file_name: String,
    pub no_display: bool,
    command: String,
    use_terminal: bool,
    categories: Vec<String>,
}

impl View for DesktopEntry {
    type V = EntryView;

    closed spec fn view(&self) -> EntryView {
        EntryView {
            name: self.name@,
            file_name: self.file_name@,
            no_display: self.no_display,
            command: self.command@,
            use_terminal: self.use_terminal,
            categories: mime_map::strings_view(self.categories@).to_set(),
        }
    }
}

/// Why a desktop entry could not be loaded.
pub enum LoadError {
    /// The file is not a valid desktop entry file.
    Parse { path: String },
    /// A required key of the `Desktop Entry` section is missing or empty.
    MissingKey { path: String, key: String },
}

/// A value that counts as given: present and not empty.
pub open spec fn present(v: Option<Seq<char>>) -> Option<Seq<char>> {
    match v {
        Some(s) => if s.len() > 0 {
            Some(s)
        } else {
            None
        },
        None => None,
    }
}

/// A flag that is given as `true`.
pub open spec fn is_true(v: Option<Seq<char>>) -> bool {
    present(v) == Some("true"@)
}

/// The first required key that is not given: `Exec`, then `Name`.
pub open spec fn missing_key(exec: Option<Seq<char>>, name: Option<Seq<char>>) -> Option<Seq<char>> {
    if present(exec) is None {
        Some("Exec"@)
    } else if present(name) is None {
        Some("Name"@)
    } else {
        None
    }
}

/// The entry that the values of the `Desktop Entry` section describe.
pub open spec fn entry_view(
    path: Seq<char>,
    exec: Option<Seq<char>>,
    name: Option<Seq<char>>,
    terminal: Option<Seq<char>>,
    categories: Option<Seq<char>>,
    no_display: Option<Seq<char>>,
) -> EntryView {
    EntryView {
        name: name->0,
        file_name: paths::file_name(path)->0,
        no_display: is_true(no_display),
        command: exec->0,
        use_terminal: is_true(terminal),
        categories: match present(categories) {
            Some(c) => text::split(c, ';').to_set(),
            None => Set::empty(),
        },
    }
}

/// The value of `key` in the `Desktop Entry` section of parsed values.
pub open spec fn section_value(m: Map<(Seq<char>, Seq<char>), Seq<char>>, key: Seq<char>) -> Option<Seq<char>> {
    if m.contains_key(("Desktop Entry"@, key)) {
        Some(m[("Desktop Entry"@, key)])
    } else {
        None
    }
}

pub open spec fn opt_view(v: Option<String>) -> Option<Seq<char>> {
    match v {
        Some(s) => Some(s@),
        None => None,
    }
}

fn is_true_value(v: &Option<String>) -> (res: bool)
    ensures
        res == is_true(opt_view(*v)),
{
    match v {
        Some(s) => {
            let cs = chars_of(s.as_str());
            let t = chars_of("true");
            cs.len() > 0 && chars_eq(&cs, &t)
        },
        None => false,
    }
}

/// The result of building an entry from the values of its section: the
/// entry they describe, or the first required key that is missing.
pub open spec fn load_outcome(
    res: Result<DesktopEntry, LoadError>,
    path: Seq<char>,
    exec: Option<Seq<char>>,
    name: Option<Seq<char>>,
    terminal: Option<Seq<char>>,
    categories: Option<Seq<char>>,
    no_display: Option<Seq<char>>,
) -> bool {
    match res {
        Ok(e) => missing_key(exec, name) == None::<Seq<char>> && e@ == entry_view(
            path,
            exec,
            name,
            terminal,
            categories,
            no_display,
        ),
        Err(LoadError::MissingKey { path: p, key }) => missing_key(exec, name) == Some(key@) && p@ == path,
        Err(LoadError::Parse { path: _ }) => false,
    }
}

/// The result is the error for a file that does not parse.
pub open spec fn is_parse_error(res: Result<DesktopEntry, LoadError>, path: Seq<char>) -> bool {
    match res {
        Err(LoadError::Parse { path: p }) => p@ == path,
        _ => false,
    }
}

impl DesktopEntry {
    /// Builds an entry from the values of its `Desktop Entry` section: `Exec`
    /// and `Name` are required and must not be empty; `Terminal` and
    /// `NoDisplay` count when they are `true`; `Categories` is a list
    /// separated by `;`.
    pub fn from_values(
        path: &str,
        exec: Option<String>,
        name: Option<String>,
        terminal: Option<String>,
        categories: Option<String>,
        no_display: Option<String>,
    ) -> (res: Result<DesktopEntry, LoadError>)
        requires
            paths::file_name(path@) != None::<Seq<char>>,
        ensures
            load_outcome(
                res,
                path@,
                opt_view(exec),
                opt_view(name),
                opt_view(terminal),
                opt_view(categories),
                opt_view(no_display),
            ),
    {
        let file_name = match paths::file_name_of(path) {
            Some(f) => f,
            None => String::new(),
        };
        let command = match exec {
            Some(c) if !c.as_str().is_empty() => c,
            _ => {
                return Err(LoadError::MissingKey { path: path.to_owned(), key: "Exec".to_owned() });
            },
        };
        let entry_name = match name {
            Some(n) if !n.as_str().is_empty() => n,
            _ => {
                return Err(LoadError::MissingKey { path: path.to_owned(), key: "Name".to_owned() });
            },
        };
        let use_terminal = is_true_value(&terminal);
        let hidden = is_true_value(&no_display);
        let cats: Vec<String> = match categories {
            Some(c) if !c.as_str().is_empty() => {
                let cs = chars_of(c.as_str());
                let parts = split_chars(&cs, ';');
                let v = strings_of(&parts);
                assert(mime_map::strings_view(v@) =~= text::split(c@, ';'));
                v
            },
            _ => {
                let v: Vec<String> = Vec::new();
                assert(mime_map::strings_view(v@) =~= Seq::<Seq<char>>::empty());
                v
            },
        };
        let e = DesktopEntry { name: entry_name, file_name, no_display: hidden, command, use_terminal, categories: cats };
        assert(e@.categories == entry_view(path@, opt_view(exec), opt_view(name), opt_view(terminal),
            opt_view(categories), opt_view(no_display)).categories);
        Ok(e)
    }

    /// Loads a desktop entry from the bytes of its file at `path`.
    pub fn load(path: &str, contents: &[u8]) -> (res: Result<DesktopEntry, LoadError>)
        requires
            paths::file_name(path@) != None::<Seq<char>>,
        ensures
            match parsed_entry(contents@) {
                None => is_parse_error(res, path@),
                Some(m) => load_outcome(
                    res,
                    path@,
                    section_value(m, "Exec"@),
                    section_value(m, "Name"@),
                    section_value(m, "Terminal"@),
                    section_value(m, "Categories"@),
                    section_value(m, "NoDisplay"@),
                ),
            },
    {
        let entry = match parse_entry(contents) {
            Ok(e) => e,
            Err(_) => {
                return Err(LoadError::Parse { path: path.to_owned() });
            },
        };
        let exec = entry_attr(&entry, "Desktop Entry", "Exec");
        let name = entry_attr(&entry, "Desktop Entry", "Name");
        let terminal = entry_attr(&entry, "Desktop Entry", "Terminal");
        let categories = entry_attr(&entry, "Desktop Entry", "Categories");
        let no_display = entry_attr(&entry, "Desktop Entry", "NoDisplay");
        DesktopEntry::from_values(path, exec, name, terminal, categories, no_display)
    }
}


/// The first value that is present.
pub open spec fn first_some<T>(s: Seq<Option<T>>) -> Option<T>
    decreases s.len(),
{
    if s.len() == 0 {
        None
    } else if s[0] is Some {
        s[0]
    } else {
        first_some(s.drop_first())
    }
}

pub open spec fn opt_views(v: Seq<Option<String>>) -> Seq<Option<Seq<char>>> {
    v.map_values(|o: Option<String>| opt_view(o))
}

pub open spec fn loaded_views(v: Seq<Option<DesktopEntry>>) -> Seq<Option<EntryView>> {
    v.map_values(
        |o: Option<DesktopEntry>|
            match o {
                Some(e) => Some(e@),
                None => None,
            },
    )
}

/// Why no installed default application was found for a type.
pub enum PathError {
    /// No application is the default for the type.
    NoDefault { mime: String },
    /// The one default application is not installed.
    NotInstalled { name: String, mime: String },
    /// None of the several default applications is installed.
    NoneInstalled { names: Vec<String>, mime: String },
}

/// The outcome of looking for the installed default application of `mime`,
/// where `installed[i]` is where the `i`th default was found, if it was.
pub open spec fn path_outcome(
    res: Result<String, PathError>,
    defaults: Option<Seq<Seq<char>>>,
    mime: Seq<char>,
    installed: Seq<Option<Seq<char>>>,
) -> bool {
    match defaults {
        None => res matches Err(PathError::NoDefault { mime: m }) && m@ == mime,
        Some(names) => {
            let n = if names.len() < installed.len() { names.len() as int } else { installed.len() as int };
            match first_some(installed.take(n)) {
                Some(p) => res matches Ok(r) && r@ == p,
                None => if names.len() == 1 {
                    res matches Err(PathError::NotInstalled { name, mime: m }) && name@ == names[0] && m@ == mime
                } else {
                    res matches Err(PathError::NoneInstalled { names: ns, mime: m }) && mime_map::strings_view(ns@)
                        == names && m@ == mime
                },
            }
        },
    }
}

/// The data file that a desktop entry file name is looked up as: `applications/NAME`.
pub open spec fn data_file_of(name: Seq<char>) -> Seq<char> {
    "applications/"@ + name
}

/// The data files to look for, one per desktop entry file name.
pub fn data_file_candidates(names: &Vec<String>) -> (res: Vec<String>)
    ensures
        res@.len() == names@.len(),
        forall|i: int| 0 <= i < names@.len() ==> #[trigger] res@[i]@ == data_file_of(names@[i]@),
{
    let prefix = chars_of("applications/");
    let mut res: Vec<String> = Vec::new();
    let mut i: usize = 0;
    while i < names.len()
        invariant
            i <= names@.len(),
            prefix@ == "applications/"@,
            res@.len() == i,
            forall|k: int| 0 <= k < i ==> #[trigger] res@[k]@ == data_file_of(names@[k]@),
        decreases names@.len() - i,
    {
        let mut cs = prefix.clone();
        let n = chars_of(names[i].as_str());
        text::extend_chars(&mut cs, &n);
        res.push(string_of(cs.as_slice()));
        i = i + 1;
    }
    res
}

/// Whether `cats` holds `category`.
fn has_category(cats: &Vec<String>, category: &str) -> (res: bool)
    ensures
        res == mime_map::strings_view(cats@).to_set().contains(category@),
{
    let wanted = category.to_owned();
    let mut i: usize = 0;
    while i < cats.len()
        invariant
            i <= cats@.len(),
            wanted@ == category@,
            forall|k: int| 0 <= k < i ==> cats@[k]@ != category@,
        decreases cats@.len() - i,
    {
        if cats[i] == wanted {
            assert(mime_map::strings_view(cats@)[i as int] == category@);
            return true;
        }
        i = i + 1;
    }
    assert(!mime_map::strings_view(cats@).contains(category@)) by {
        if mime_map::strings_view(cats@).contains(category@) {
            let k = choose|k: int| 0 <= k < cats@.len() && mime_map::strings_view(cats@)[k] == category@;
            assert(cats@[k]@ == category@);
        }
    }
    false
}

impl DesktopEntry {
    /// Looks for the installed default application of `mime_type`: the
    /// defaults registered for it (or for its wildcard type), the first one
    /// that was found installed. `installed[i]` is where the `i`th default's
    /// data file was found, if it was.
    pub fn path_from_mimetype(
        mime_apps: &MimeApps,
        mime_type: &MimeType,
        installed: &Vec<Option<String>>,
    ) -> (res: Result<String, PathError>)
        ensures
            path_outcome(
                res,
                mime_apps::default_entries_of(mime_apps@.0, mime_type@, mime_type.top_level()),
                mime_type@,
                opt_views(installed@),
            ),
    {
        let mime = mime_type.as_str().to_owned();
        let names = match mime_apps.default_entries(mime_type) {
            Some(v) => v,
            None => {
                return Err(PathError::NoDefault { mime });
            },
        };
        let n = if names.len() < installed.len() { names.len() } else { installed.len() };
        let ghost all = opt_views(installed@);
        let ghost names_view = mime_map::strings_view(names@);
        let mut i: usize = 0;
        assert(all.take(n as int).skip(0) =~= all.take(n as int));
        while i < n
            invariant
                i <= n,
                n <= installed@.len(),
                n == (if names_view.len() < all.len() { names_view.len() as int } else { all.len() as int }),
                names_view == mime_map::strings_view(names@),
                all.len() == installed@.len(),
                mime_apps::default_entries_of(mime_apps@.0, mime_type@, mime_type.top_level()) == Some(names_view),
                mime@ == mime_type@,
                all == opt_views(installed@),
                first_some(all.take(n as int)) == first_some(all.take(n as int).skip(i as int)),
            decreases n - i,
        {
            let ghost rest = all.take(n as int).skip(i as int);
            assert(rest.drop_first() =~= all.take(n as int).skip(i + 1));
            assert(rest[0] == opt_view(installed@[i as int]));
            match &installed[i] {
                Some(p) => {
                    assert(first_some(rest) == Some(p@));
                    return Ok(p.clone());
                },
                None => {},
            }
            i = i + 1;
        }
        assert(all.take(n as int).skip(n as int).len() == 0);
        if names.len() == 1 {
            Err(PathError::NotInstalled { name: names[0].clone(), mime })
        } else {
            let mut copy: Vec<String> = Vec::new();
            text::extend_strings(&mut copy, names);
            assert(mime_map::strings_view(copy@) =~= mime_map::strings_view(names@));
            Err(PathError::NoneInstalled { names: copy, mime })
        }
    }

    /// The entry to take for a category: the first of `loaded` that could be
    /// loaded (`None` stands for one that could not) and is in `category`.
    pub fn guess_from_category(loaded: Vec<Option<DesktopEntry>>, category: &str) -> (res: Option<DesktopEntry>)
        ensures
            match first_in_category(loaded_views(loaded@), category@) {
                Some(e) => res matches Some(d) && d@ == e,
                None => res is None,
            },
    {
        let mut entries = loaded;
        let ghost all = loaded_views(entries@);
        let mut i: usize = 0;
        assert(all.skip(0) =~= all);
        while i < entries.len()
            invariant
                i <= entries@.len(),
                all == loaded_views(entries@),
                all == loaded_views(loaded@),
                first_in_category(all, category@) == first_in_category(all.skip(i as int), category@),
            decreases entries@.len() - i,
        {
            let ghost rest = all.skip(i as int);
            assert(rest.drop_first() =~= all.skip(i + 1));
            assert(rest[0] == all[i as int]);
            let in_category = match &entries[i] {
                Some(d) => has_category(&d.categories, category),
                None => false,
            };
            if in_category {
                let ghost before = entries@;
                let found = entries.remove(i);
                assert(found == before[i as int]);
                match found {
                    Some(d) => {
                        return Some(d);
                    },
                    None => {},
                }
            }
            i = i + 1;
        }
        None
    }
}

/// The first loaded entry that is in `category`.
pub open spec fn first_in_category(es: Seq<Option<EntryView>>, category: Seq<char>) -> Option<EntryView>
    decreases es.len(),
{
    if es.len() == 0 {
        None
    } else if es[0] matches Some(e) && e.categories.contains(category) {
        es[0]
    } else {
        first_in_category(es.drop_first(), category)
    }
}

/// No desktop entry is known for an executable name.
pub struct NameError {
    pub name: String,
}

impl DesktopEntry {
    /// The path of the desktop entry that runs the executable `name`, as the
    /// completion cache records it.
    pub fn try_from_name(cache: &EntryCache, name: &str) -> (res: Result<String, NameError>)
        ensures
            match res {
                Ok(p) => cache.model().contains_key(name@) && cache.model()[name@].1 == p@,
                Err(e) => !cache.model().contains_key(name@) && e.name@ == name@,
            },
    {
        match cache.get(name) {
            Some(p) => Ok(p.clone()),
            None => Err(NameError { name: name.to_owned() }),
        }
    }
}

/// The extension of a desktop entry file.
pub open spec fn desktop_extension() -> Seq<char> {
    seq!['.', 'd', 'e', 's', 'k', 't', 'o', 'p']
}

/// The file name that an application name stands for: the name itself when
/// it ends in `.desktop`, else the name with `.desktop` added.
pub open spec fn desktop_file_name(name: Seq<char>) -> Seq<char> {
    if name.len() >= 8 && name.subrange(name.len() - 8, name.len() as int) == desktop_extension() {
        name
    } else {
        name + desktop_extension()
    }
}

/// The data file to look for when `name` is the file name of a desktop
/// entry: `applications/NAME.desktop`.
pub fn desktop_file_candidate(name: &str) -> (res: String)
    ensures
        res@ == data_file_of(desktop_file_name(name@)),
{
    let cs = chars_of(name);
    let ext = vec!['.', 'd', 'e', 's', 'k', 't', 'o', 'p'];
    assert(ext@ =~= desktop_extension());
    let n = cs.len();
    let mut has_ext = n >= 8;
    let mut k: usize = 0;
    while has_ext && k < 8
        invariant
            n == cs@.len(),
            ext@ == desktop_extension(),
            k <= 8,
            has_ext ==> n >= 8 && forall|j: int| 0 <= j < k ==> cs@[n - 8 + j] == ext@[j],
            !has_ext ==> !(n >= 8 && cs@.subrange(n - 8, n as int) == desktop_extension()),
        decreases 8 - k,
    {
        if cs[n - 8 + k] != ext[k] {
            proof {
                assert(cs@.subrange(n - 8, n as int)[k as int] == cs@[n - 8 + k]);
            }
            has_ext = false;
        }
        k = k + 1;
    }
    if has_ext {
        assert(cs@.subrange(n - 8, n as int) =~= desktop_extension());
    }
    let mut out = chars_of("applications/");
    text::extend_chars(&mut out, &cs);
    if !has_ext {
        text::extend_chars(&mut out, &ext);
    }
    assert(out@ =~= data_file_of(desktop_file_name(name@)));
    string_of(out.as_slice())
}

impl DesktopEntry {
    /// The path of the desktop entry that `name` stands for: the entry whose
    /// file name it is, when `found` says where that file was found, else the
    /// one that runs the executable `name`, as the completion cache records it.
    pub fn guess_from_name(found: Option<String>, cache: &EntryCache, name: &str) -> (res: Result<String, NameError>)
        ensures
            match found {
                Some(p) => res matches Ok(q) && q@ == p@,
                None => match res {
                    Ok(p) => cache.model().contains_key(name@) && cache.model()[name@].1 == p@,
                    Err(e) => !cache.model().contains_key(name@) && e.name@ == name@,
                },
            },
    {
        match found {
            Some(p) => Ok(p),
            None => DesktopEntry::try_from_name(cache, name),
        }
    }
}

/// Where to look for a terminal emulator when no default one is set.
pub enum TerminalSearch {
    /// The desktop entry that runs this executable (from `$TERMINAL`).
    ByName(String),
    /// The first desktop entry in this category.
    ByCategory(String),
}

/// The terminal to look for when no default is set: the one that
/// `$TERMINAL` names, else one in the category `TerminalEmulator`.
pub fn terminal_search(terminal_var: Option<String>) -> (res: TerminalSearch)
    ensures
        match terminal_var {
            Some(t) => res matches TerminalSearch::ByName(n) && n@ == t@,
            None => res matches TerminalSearch::ByCategory(c) && c@ == "TerminalEmulator"@,
        },
{
    match terminal_var {
        Some(t) => TerminalSearch::ByName(t),
        None => TerminalSearch::ByCategory("TerminalEmulator".to_owned()),
    }
}

/// The media type whose default application is the terminal emulator.
pub fn terminal_mime_type() -> (res: Option<MimeType>)
    ensures
        match res {
            Some(m) => crate::mime_type::parsed_mime("x-scheme-handler/terminal"@) == Some((m@, m.top_level())),
            None => crate::mime_type::parsed_mime("x-scheme-handler/terminal"@) is None,
        },
{
    MimeType::parse("x-scheme-handler/terminal")
}

/// The terminal emulator to use. `from_default` is the outcome of loading
/// the default terminal application, when one is set and installed (`None`
/// inside when it could not be loaded): it is taken if it loads, and there is
/// no terminal if it does not. With no default, `from_search` (what
/// `terminal_search` found) is taken.
pub fn get_terminal(
    from_default: Option<Option<DesktopEntry>>,
    from_search: Option<DesktopEntry>,
) -> (res: Option<DesktopEntry>)
    ensures
        match from_default {
            Some(Some(d)) => res matches Some(r) && r@ == d@,
            Some(None) => res is None,
            None => match from_search {
                Some(d) => res matches Some(r) && r@ == d@,
                None => res is None,
            },
        },
{
    match from_default {
        Some(loaded) => loaded,
        None => from_search,
    }
}

/// A field code that stands for all the arguments: `%F` or `%U`.
pub open spec fn is_list_code(w: Seq<char>) -> bool {
    w == seq!['%', 'F'] || w == seq!['%', 'U']
}

/// A field code that stands for one argument: `%f` or `%u`.
pub open spec fn is_single_code(w: Seq<char>) -> bool {
    w == seq!['%', 'f'] || w == seq!['%', 'u']
}

/// The name of the executable that a command runs: scanning its words from
/// the end, the first word after a field code (`%f`, `%F`, `%u`, `%U`) that
/// does not start with `-`, without quotes around it and without its
/// directories.
pub open spec fn exe_name_from(ws: Seq<Seq<char>>, found: bool) -> Option<Seq<char>>
    decreases ws.len(),
{
    if ws.len() == 0 {
        None
    } else {
        let c = ws.last();
        if !found && (is_list_code(c) || is_single_code(c)) {
            exe_name_from(ws.drop_last(), true)
        } else if found && !(c.len() > 0 && c[0] == '-') {
            Some(text::last_segment(text::trim_quotes(c)))
        } else {
            exe_name_from(ws.drop_last(), found)
        }
    }
}

pub open spec fn executable_name_of(command: Seq<char>) -> Option<Seq<char>> {
    exe_name_from(text::words(command), false)
}

fn is_code(w: &Vec<char>) -> (res: (bool, bool))
    ensures
        res.0 == is_list_code(w@),
        res.1 == is_single_code(w@),
{
    if w.len() != 2 || w[0] != '%' {
        return (false, false);
    }
    let c = w[1];
    proof {
        assert(w@ == seq!['%', c]);
    }
    (c == 'F' || c == 'U', c == 'f' || c == 'u')
}

/// What running an entry comes to.
pub struct Launch {
    /// The program to start.
    pub program: String,
    /// Its arguments.
    pub args: Vec<String>,
    /// Replace this process with the program (it takes the terminal), rather
    /// than start it detached.
    pub replace_process: bool,
    /// Whether a later launch may still take the terminal.
    pub consume_terminal_after: bool,
}

/// The decision for one run of an entry.
pub enum ExecPlan {
    /// The entry needs a terminal and none was found.
    MissingTerminal,
    /// The command takes one file at a time: run the entry once per argument
    /// (`DesktopEntry::execute_runs`).
    PerArgument,
    /// Start this.
    Launch(Launch),
}

/// How the words after the program take the arguments: `%F` and `%U` stand
/// for all of them, `%f` and `%u` for the one argument (`None` when there are
/// several: the entry is then run once per argument); other words are kept.
/// Also says whether some field code took the arguments.
pub open spec fn scan(comps: Seq<Seq<char>>, input: Seq<Seq<char>>) -> Option<(Seq<Seq<char>>, bool)>
    decreases comps.len(),
{
    if comps.len() == 0 {
        Some((Seq::<Seq<char>>::empty(), false))
    } else {
        match scan(comps.drop_last(), input) {
            None => None,
            Some((args, took)) => {
                let w = comps.last();
                if is_list_code(w) {
                    Some((args + input, true))
                } else if is_single_code(w) {
                    if input.len() > 1 {
                        None
                    } else {
                        Some((args.push(input[0]), true))
                    }
                } else {
                    Some((args.push(w), took))
                }
            }
        }
    }
}

/// Once the arguments call for one run per argument, later words do not change it.
proof fn lemma_scan_none_extends(comps: Seq<Seq<char>>, input: Seq<Seq<char>>, n: int)
    requires
        0 <= n <= comps.len(),
        scan(comps.take(n), input) is None,
    ensures
        scan(comps, input) is None,
    decreases comps.len(),
{
    if n == comps.len() {
        assert(comps.take(n) =~= comps);
    } else {
        assert(comps.drop_last().take(n) =~= comps.take(n));
        lemma_scan_none_extends(comps.drop_last(), input, n);
    }
}

/// The arguments call for one run per argument only where there are several
/// and some word stands for one.
proof fn lemma_scan_none(comps: Seq<Seq<char>>, input: Seq<Seq<char>>)
    requires
        scan(comps, input) is None,
    ensures
        input.len() > 1,
        comps.len() > 0,
    decreases comps.len(),
{
    if comps.len() > 0 && scan(comps.drop_last(), input) is None {
        lemma_scan_none(comps.drop_last(), input);
    }
}

/// Scans the words of `ws` from `start` on, appending to `args` what they
/// stand for; `None` when the entry is to be run once per argument, else
/// whether a field code took the arguments.
fn scan_words(ws: &Vec<Vec<char>>, start: usize, input_arguments: &Vec<String>, args: &mut Vec<String>) -> (res: Option<bool>)
    requires
        start <= ws@.len(),
        input_arguments@.len() > 0 || forall|j: int| start <= j < ws@.len() ==> !is_single_code(#[trigger] ws@[j]@),
    ensures
        ({
            let comps = ws@.subrange(start as int, ws@.len() as int).map_values(|w: Vec<char>| w@);
            match scan(comps, mime_map::strings_view(input_arguments@)) {
                None => res is None,
                Some((acc, took)) => res == Some(took) && mime_map::strings_view(final(args)@)
                    == mime_map::strings_view(old(args)@) + acc,
            }
        }),
{
    let ghost comps = ws@.subrange(start as int, ws@.len() as int).map_values(|w: Vec<char>| w@);
    let ghost input = mime_map::strings_view(input_arguments@);
    let ghost base = mime_map::strings_view(args@);
    let ghost mut acc = Seq::<Seq<char>>::empty();
    let mut took = false;
    let mut k: usize = start;
    assert(comps.take(0) =~= Seq::<Seq<char>>::empty());
    while k < ws.len()
        invariant
            start <= k <= ws@.len(),
            comps == ws@.subrange(start as int, ws@.len() as int).map_values(|w: Vec<char>| w@),
            input == mime_map::strings_view(input_arguments@),
            input_arguments@.len() > 0 || forall|j: int| start <= j < ws@.len() ==> !is_single_code(#[trigger] ws@[j]@),
            scan(comps.take(k - start), input) == Some((acc, took)),
            mime_map::strings_view(args@) == base + acc,
        decreases ws@.len() - k,
    {
        let w = &ws[k];
        let ghost pre = comps.take(k - start);
        assert(comps[k - start] == w@);
        assert(comps.take(k + 1 - start).drop_last() =~= pre);
        assert(comps.take(k + 1 - start).last() == w@);
        let (list, single) = is_code(w);
        if list {
            extend_strings(args, input_arguments);
            took = true;
            proof {
                acc = acc + input;
            }
        } else if single {
            if input_arguments.len() > 1 {
                proof {
                    assert(input.len() > 1);
                    assert(scan(comps.take(k + 1 - start), input) is None);
                    lemma_scan_none_extends(comps, input, k + 1 - start);
                }
                return None;
            }
            let a = input_arguments[0].clone();
            let ghost before = args@;
            args.push(a);
            took = true;
            proof {
                acc = acc.push(input[0]);
                assert(mime_map::strings_view(args@) =~= mime_map::strings_view(before).push(input[0]));
            }
        } else {
            let ghost before = args@;
            args.push(string_of(w.as_slice()));
            proof {
                acc = acc.push(w@);
                assert(mime_map::strings_view(args@) =~= mime_map::strings_view(before).push(w@));
            }
        }
        proof {
            assert(mime_map::strings_view(args@) =~= base + acc);
        }
        k = k + 1;
    }
    assert(comps.take(ws@.len() - start) =~= comps);
    Some(took)
}

/// The entry runs in a terminal that has to be started for it.
pub open spec fn needs_terminal(e: EntryView, consume_terminal: bool) -> bool {
    e.use_terminal && !consume_terminal
}

/// The words of the command that are scanned for field codes: all of them
/// when a terminal runs the command, else those after the program.
pub open spec fn components(e: EntryView, consume_terminal: bool) -> Seq<Seq<char>> {
    if needs_terminal(e, consume_terminal) {
        text::words(e.command)
    } else {
        text::words(e.command).drop_first()
    }
}

/// The inputs on which running an entry is defined: where the entry needs a
/// terminal and none was found, all of them (nothing is run); else there
/// must be a program to run, and an argument for `%f` and `%u` when the
/// command holds one.
pub open spec fn can_execute(e: EntryView, input_len: nat, consume_terminal: bool, has_terminal: bool) -> bool {
    ||| (needs_terminal(e, consume_terminal) && !has_terminal)
    ||| {
        &&& (needs_terminal(e, consume_terminal) || text::words(e.command).len() > 0)
        &&& (input_len > 0 || forall|k: int|
            0 <= k < components(e, consume_terminal).len() ==> !is_single_code(
                #[trigger] components(e, consume_terminal)[k],
            ))
    }
}

/// The plan for running entry `e` on `input`.
pub open spec fn exec_plan_ok(
    res: ExecPlan,
    e: EntryView,
    input: Seq<Seq<char>>,
    consume_terminal: bool,
    terminal: Option<EntryView>,
) -> bool {
    let needs = needs_terminal(e, consume_terminal);
    if needs && terminal is None {
        res is MissingTerminal
    } else {
        match scan(components(e, consume_terminal), input) {
            None => res is PerArgument,
            Some((args, took)) => match res {
                ExecPlan::Launch(l) => {
                    &&& l.program@ == (if needs {
                        terminal->0.command
                    } else {
                        text::words(e.command)[0]
                    })
                    &&& mime_map::strings_view(l.args@) == (if needs {
                        seq![seq!['-', 'e']]
                    } else {
                        Seq::<Seq<char>>::empty()
                    }) + args + (if took {
                        Seq::<Seq<char>>::empty()
                    } else {
                        input
                    })
                    &&& l.replace_process == (e.use_terminal && consume_terminal)
                    &&& l.consume_terminal_after == (consume_terminal && !l.replace_process)
                },
                _ => false,
            },
        }
    }
}

/// Law: only one program takes over the terminal. After a launch that
/// replaced this process, the next run of any entry, given the flag that
/// the launch handed on, starts its program detached.
pub proof fn lemma_terminal_taken_once(
    first: ExecPlan,
    e1: EntryView,
    input1: Seq<Seq<char>>,
    consume_terminal: bool,
    terminal1: Option<EntryView>,
    second: ExecPlan,
    e2: EntryView,
    input2: Seq<Seq<char>>,
    terminal2: Option<EntryView>,
)
    requires
        exec_plan_ok(first, e1, input1, consume_terminal, terminal1),
        first matches ExecPlan::Launch(l) && l.replace_process,
        exec_plan_ok(second, e2, input2, first->Launch_0.consume_terminal_after, terminal2),
    ensures
        second matches ExecPlan::Launch(l) ==> !l.replace_process,
        first->Launch_0.consume_terminal_after == false,
{
}

/// Whether a later run may still take over the terminal after `plan`, run
/// when it could (`consume_terminal`).
pub open spec fn flag_after(plan: ExecPlan, consume_terminal: bool) -> bool {
    match plan {
        ExecPlan::Launch(l) => l.consume_terminal_after,
        _ => consume_terminal,
    }
}

/// The flag handed on through the runs of `plans`, one after the other.
pub open spec fn flag_after_all(plans: Seq<ExecPlan>, consume_terminal: bool) -> bool
    decreases plans.len(),
{
    if plans.len() == 0 {
        consume_terminal
    } else {
        flag_after(plans.last(), flag_after_all(plans.drop_last(), consume_terminal))
    }
}

/// The runs of an entry once per argument: the `i`th is the plan for the
/// `i`th argument alone, run with the flag that the runs before it handed on.
pub open spec fn runs_ok(
    plans: Seq<ExecPlan>,
    e: EntryView,
    input: Seq<Seq<char>>,
    consume_terminal: bool,
    terminal: Option<EntryView>,
) -> bool {
    &&& plans.len() == input.len()
    &&& forall|i: int|
        0 <= i < plans.len() ==> exec_plan_ok(
            #[trigger] plans[i],
            e,
            seq![input[i]],
            flag_after_all(plans.take(i), consume_terminal),
            terminal,
        )
}

pub open spec fn opt_entry_view(t: Option<&DesktopEntry>) -> Option<EntryView> {
    match t {
        Some(d) => Some(d@),
        None => None,
    }
}

impl DesktopEntry {
    /// The application's name (`Name`).
    pub fn name(&self) -> (res: &String)
        ensures
            res@ == self@.name,
    {
        &self.name
    }

    /// The name of the entry's file.
    pub fn file_name(&self) -> (res: &String)
        ensures
            res@ == self@.file_name,
    {
        &self.file_name
    }

    /// Whether the entry asks not to be shown (`NoDisplay=true`).
    pub fn no_display(&self) -> (res: bool)
        ensures
            res == self@.no_display,
    {
        self.no_display
    }

    /// The command line of the `Exec` key.
    pub closed spec fn command_view(self) -> Seq<char> {
        self.command@
    }

    /// The name of the executable that the entry's command runs, as one would
    /// type it in a terminal: the word before the field code, stripped of
    /// quotes and directories. It never holds a `/`.
    pub fn executable_name(&self) -> (res: Option<String>)
        ensures
            opt_view(res) == executable_name_of(self@.command),
            res matches Some(n) ==> !n@.contains('/') && forall|k: int|
                0 <= k < n@.len() ==> !text::is_whitespace(#[trigger] n@[k]),
    {
        let cs = chars_of(self.command.as_str());
        let ws = words_of(&cs);
        let ghost all = text::words(self@.command);
        let mut found = false;
        let mut i: usize = ws.len();
        assert(all.take(i as int) =~= all);
        while i > 0
            invariant
                i <= ws@.len(),
                ws@.len() == all.len(),
                forall|k: int| 0 <= k < ws@.len() ==> #[trigger] ws@[k]@ == all[k],
                all == text::words(self@.command),
                executable_name_of(self@.command) == exe_name_from(all.take(i as int), found),
            decreases i,
        {
            let w = &ws[i - 1];
            assert(all.take(i as int).drop_last() =~= all.take(i - 1));
            assert(all.take(i as int).last() == w@);
            let (list, single) = is_code(w);
            if !found && (list || single) {
                found = true;
            } else if found && !(w.len() > 0 && w[0] == '-') {
                let trimmed = trim_quotes_chars(w);
                let last = last_segment_chars(&trimmed);
                proof {
                    text::lemma_words_shape(self@.command);
                    assert(ws@[i - 1]@ == all[i - 1]);
                    assert forall|k: int| 0 <= k < last@.len() implies !text::is_whitespace(#[trigger] last@[k]) by {
                        let c = last@[k];
                        assert(last@.contains(c));
                        assert(w@.contains(c));
                        let m = choose|m: int| 0 <= m < w@.len() && w@[m] == c;
                        assert(all[i - 1][m] == c);
                    }
                    text::lemma_split_excludes(trimmed@, '/');
                    text::lemma_split_nonempty(trimmed@, '/');
                    let p = text::split(trimmed@, '/');
                    assert(p[p.len() - 1] == p.last());
                }
                return Some(string_of(last.as_slice()));
            }
            i = i - 1;
        }
        None
    }

    /// Whether the entry runs in a terminal that has to be started for it.
    pub fn needs_terminal(&self, consume_terminal: bool) -> (res: bool)
        ensures
            res == needs_terminal(self@, consume_terminal),
    {
        self.use_terminal && !consume_terminal
    }

    /// Whether `execute` is defined on these inputs: where a terminal is
    /// needed and `has_terminal` says none was found, always; else when there
    /// is a program to run, and an argument for `%f` and `%u` when the
    /// command holds one.
    pub fn can_execute(&self, input_len: usize, consume_terminal: bool, has_terminal: bool) -> (res: bool)
        ensures
            res == can_execute(self@, input_len as nat, consume_terminal, has_terminal),
    {
        let needs = self.use_terminal && !consume_terminal;
        if needs && !has_terminal {
            return true;
        }
        let cs = chars_of(self.command.as_str());
        let ws = words_of(&cs);
        if !needs && ws.len() == 0 {
            return false;
        }
        if input_len > 0 {
            return true;
        }
        let start: usize = if needs { 0 } else { 1 };
        let ghost comps = components(self@, consume_terminal);
        let ghost all = text::words(self@.command);
        assert(comps =~= all.subrange(start as int, all.len() as int));
        let mut k: usize = start;
        while k < ws.len()
            invariant
                start <= k <= ws@.len(),
                ws@.len() == all.len(),
                forall|j: int| 0 <= j < ws@.len() ==> #[trigger] ws@[j]@ == all[j],
                comps == all.subrange(start as int, all.len() as int),
                comps == components(self@, consume_terminal),
                all == text::words(self@.command),
                input_len == 0,
                needs_terminal(self@, consume_terminal) || all.len() > 0,
                !(needs_terminal(self@, consume_terminal) && !has_terminal),
                forall|j: int| 0 <= j < k - start ==> !is_single_code(#[trigger] comps[j]),
            decreases ws@.len() - k,
        {
            let (_, single) = is_code(&ws[k]);
            assert(comps[k - start] == ws@[k as int]@);
            if single {
                return false;
            }
            k = k + 1;
        }
        true
    }

    /// Decides how to run the entry on `input_arguments`. `consume_terminal`
    /// says whether a program may still take over this terminal; `terminal`
    /// is the terminal emulator's entry, looked up when the entry runs in a
    /// terminal that cannot be taken.
    pub fn execute(
        &self,
        input_arguments: &Vec<String>,
        consume_terminal: bool,
        terminal: Option<&DesktopEntry>,
    ) -> (res: ExecPlan)
        requires
            can_execute(self@, input_arguments@.len(), consume_terminal, terminal is Some),
        ensures
            exec_plan_ok(res, self@, mime_map::strings_view(input_arguments@), consume_terminal, opt_entry_view(terminal)),
            res is PerArgument ==> input_arguments@.len() > 1 && text::words(self@.command).len() > 0,
    {
        let needs = self.use_terminal && !consume_terminal;
        let ghost input = mime_map::strings_view(input_arguments@);
        let cs = chars_of(self.command.as_str());
        let ws = words_of(&cs);
        let ghost all = text::words(self@.command);
        let ghost comps = components(self@, consume_terminal);
        let mut args: Vec<String> = Vec::new();
        let start: usize = if needs { 0 } else { 1 };
        let program = if needs {
            match terminal {
                None => {
                    return ExecPlan::MissingTerminal;
                },
                Some(t) => {
                    args.push("-e".to_owned());
                    proof {
                        reveal_strlit("-e");
                        assert("-e"@ =~= seq!['-', 'e']);
                        assert(mime_map::strings_view(args@) =~= seq![seq!['-', 'e']]);
                    }
                    t.command.clone()
                },
            }
        } else {
            assert(mime_map::strings_view(args@) =~= Seq::<Seq<char>>::empty());
            string_of(ws[0].as_slice())
        };
        proof {
            let c2 = ws@.subrange(start as int, ws@.len() as int).map_values(|w: Vec<char>| w@);
            assert(c2 =~= comps);
            if input_arguments@.len() == 0 {
                assert forall|j: int| start <= j < ws@.len() implies !is_single_code(#[trigger] ws@[j]@) by {
                    assert(comps[j - start] == ws@[j]@);
                }
            }
        }
        let ghost base = mime_map::strings_view(args@);
        let scanned = scan_words(&ws, start, input_arguments, &mut args);
        let took = match scanned {
            None => {
                proof {
                    lemma_scan_none(comps, input);
                }
                return ExecPlan::PerArgument;
            },
            Some(t) => t,
        };
        let ghost acc = match scan(comps, input) {
            Some((a, _)) => a,
            None => Seq::<Seq<char>>::empty(),
        };
        if !took {
            extend_strings(&mut args, input_arguments);
        }
        let replace = self.use_terminal && consume_terminal;
        proof {
            assert(mime_map::strings_view(args@) =~= base + acc + (if took {
                Seq::<Seq<char>>::empty()
            } else {
                input
            }));
        }
        ExecPlan::Launch(
            Launch {
                program,
                args,
                replace_process: replace,
                consume_terminal_after: consume_terminal && !replace,
            },
        )
    }

    /// Runs the entry once per argument, as `execute` asks for a command
    /// whose `%f` or `%u` takes one argument: the plans for each argument
    /// alone, in order, each run with the flag that the runs before it handed
    /// on, and the flag handed on after the last.
    pub fn execute_runs(
        &self,
        input_arguments: &Vec<String>,
        consume_terminal: bool,
        terminal: Option<&DesktopEntry>,
    ) -> (res: (Vec<ExecPlan>, bool))
        requires
            text::words(self@.command).len() > 0,
        ensures
            runs_ok(res.0@, self@, mime_map::strings_view(input_arguments@), consume_terminal, opt_entry_view(terminal)),
            res.1 == flag_after_all(res.0@, consume_terminal),
    {
        let ghost input = mime_map::strings_view(input_arguments@);
        let mut plans: Vec<ExecPlan> = Vec::new();
        let mut consume = consume_terminal;
        let mut i: usize = 0;
        while i < input_arguments.len()
            invariant
                i <= input_arguments@.len(),
                input == mime_map::strings_view(input_arguments@),
                text::words(self@.command).len() > 0,
                plans@.len() == i,
                consume == flag_after_all(plans@, consume_terminal),
                forall|j: int|
                    0 <= j < i ==> exec_plan_ok(
                        #[trigger] plans@[j],
                        self@,
                        seq![input[j]],
                        flag_after_all(plans@.take(j), consume_terminal),
                        opt_entry_view(terminal),
                    ),
            decreases input_arguments@.len() - i,
        {
            let mut single: Vec<String> = Vec::new();
            single.push(input_arguments[i].clone());
            assert(mime_map::strings_view(single@) =~= seq![input[i as int]]);
            let plan = self.execute(&single, consume, terminal);
            let next = match &plan {
                ExecPlan::Launch(l) => l.consume_terminal_after,
                _ => consume,
            };
            let ghost before = plans@;
            plans.push(plan);
            proof {
                assert(plans@.drop_last() =~= before);
                assert(plans@.take(i as int) =~= before);
                assert forall|j: int| 0 <= j < i implies plans@.take(j) =~= before.take(j) by {}
            }
            consume = next;
            i = i + 1;
        }
        (plans, consume)
    }
}


/// A field code of a command: `%f`, `%F`, `%u` or `%U`.
pub open spec fn is_field_code(w: Seq<char>) -> bool {
    ||| w == seq!['%', 'f']
    ||| w == seq!['%', 'F']
    ||| w == seq!['%', 'u']
    ||| w == seq!['%', 'U']
}

/// Some word is a field code.
pub open spec fn has_field_code(ws: Seq<Seq<char>>) -> bool {
    exists|k: int| 0 <= k < ws.len() && is_field_code(ws[k])
}

/// What a word of the command stands for: all the arguments for `%F` and
/// `%U`, the one argument for `%f` and `%u`, and any other word itself.
pub open spec fn word_expansion(w: Seq<char>, input: Seq<Seq<char>>) -> Seq<Seq<char>> {
    if w == seq!['%', 'F'] || w == seq!['%', 'U'] {
        input
    } else if w == seq!['%', 'f'] || w == seq!['%', 'u'] {
        seq![input[0]]
    } else {
        seq![w]
    }
}

/// Law: scanning the words keeps every word that is not a field code, in its
/// place, and puts the arguments in place of each field code; it asks for one
/// run per argument exactly when there are several arguments and a `%f` or
/// `%u`, and says that the arguments were taken exactly when some field code
/// is among the words.
pub proof fn lemma_scan_expands(comps: Seq<Seq<char>>, input: Seq<Seq<char>>)
    ensures
        scan(comps, input) is None <==> input.len() > 1 && exists|k: int|
            0 <= k < comps.len() && (comps[k] == seq!['%', 'f'] || comps[k] == seq!['%', 'u']),
        scan(comps, input) matches Some((args, took)) ==> args == comps.map_values(
            |w: Seq<char>| word_expansion(w, input),
        ).flatten() && (took <==> has_field_code(comps)),
    decreases comps.len(),
{
    broadcast use Seq::lemma_flatten_push;

    if comps.len() > 0 {
        let init = comps.drop_last();
        let w = comps.last();
        lemma_scan_expands(init, input);
        let f = |w: Seq<char>| word_expansion(w, input);
        assert(comps.map_values(f) =~= init.map_values(f).push(f(w)));
        assert(init.map_values(f).push(f(w)).flatten() =~= init.map_values(f).flatten() + f(w));
        assert forall|k: int| 0 <= k < init.len() implies #[trigger] init[k] == comps[k] by {}
        if exists|k: int| 0 <= k < comps.len() && (comps[k] == seq!['%', 'f'] || comps[k] == seq!['%', 'u']) {
            let k = choose|k: int| 0 <= k < comps.len() && (comps[k] == seq!['%', 'f'] || comps[k] == seq!['%', 'u']);
            if k < init.len() {
                assert(init[k] == comps[k]);
            }
        }
        if exists|k: int| 0 <= k < comps.len() && is_field_code(comps[k]) {
            let k = choose|k: int| 0 <= k < comps.len() && is_field_code(comps[k]);
            if k < init.len() {
                assert(init[k] == comps[k]);
            }
        }
        if let Some((args, took)) = scan(comps, input) {
            match scan(init, input) {
                Some((a0, t0)) => {
                    if w == seq!['%', 'F'] || w == seq!['%', 'U'] {
                    } else if w == seq!['%', 'f'] || w == seq!['%', 'u'] {
                        assert(a0.push(input[0]) =~= a0 + seq![input[0]]);
                    } else {
                        assert(a0.push(w) =~= a0 + seq![w]);
                    }
                },
                None => {},
            }
        }
    } else {
        assert(comps.map_values(|w: Seq<char>| word_expansion(w, input)) =~= Seq::<Seq<Seq<char>>>::empty());
    }
}

/// Law: what running an entry launches. Where a terminal is needed and none
/// was found nothing is launched. A command that takes one run per argument
/// has several arguments and a `%f` or `%u`. Otherwise the launch runs the
/// entry's program (or the terminal with `-e` and the whole command), with
/// every other word of the command in its place, the arguments in place of
/// each field code, and the arguments at the end where there is no field
/// code.
pub proof fn lemma_execute_launches(
    plan: ExecPlan,
    e: EntryView,
    input: Seq<Seq<char>>,
    consume_terminal: bool,
    terminal: Option<EntryView>,
)
    requires
        exec_plan_ok(plan, e, input, consume_terminal, terminal),
    ensures
        plan is MissingTerminal <==> e.use_terminal && !consume_terminal && terminal is None,
        plan is PerArgument ==> input.len() > 1 && exists|k: int|
            0 <= k < passed_words(e, consume_terminal).len() && (#[trigger] passed_words(e, consume_terminal)[k]
                == seq!['%', 'f'] || passed_words(e, consume_terminal)[k] == seq!['%', 'u']),
        plan matches ExecPlan::Launch(l) ==> l.program@ == (if e.use_terminal && !consume_terminal {
            terminal->0.command
        } else {
            text::words(e.command)[0]
        }),
        plan matches ExecPlan::Launch(l) ==> mime_map::strings_view(l.args@) == (if e.use_terminal
            && !consume_terminal {
            seq![seq!['-', 'e']]
        } else {
            Seq::<Seq<char>>::empty()
        }) + passed_words(e, consume_terminal).map_values(|w: Seq<char>| word_expansion(w, input)).flatten() + (
        if has_field_code(passed_words(e, consume_terminal)) {
            Seq::<Seq<char>>::empty()
        } else {
            input
        }),
        plan matches ExecPlan::Launch(l) ==> l.replace_process == (e.use_terminal && consume_terminal),
{
    let ws = passed_words(e, consume_terminal);
    let comps = components(e, consume_terminal);
    assert(comps == ws);
    lemma_scan_expands(comps, input);
    if plan is PerArgument {
        let k = choose|k: int| 0 <= k < ws.len() && (ws[k] == seq!['%', 'f'] || ws[k] == seq!['%', 'u']);
        assert(ws[k] == seq!['%', 'f'] || ws[k] == seq!['%', 'u']);
    }
}

/// The words of a command that are passed on to the program that runs it:
/// all of them when a terminal runs the command, else those after the
/// program.
pub open spec fn passed_words(e: EntryView, consume_terminal: bool) -> Seq<Seq<char>> {
    if e.use_terminal && !consume_terminal {
        text::words(e.command)
    } else {
        text::words(e.command).subrange(1, text::words(e.command).len() as int)
    }
}

/// Law: an entry that needs no terminal, or has one, and that has a program
/// to run can be run on any non-empty list of arguments; several arguments
/// for a `%f` or `%u` give one run per argument.
pub proof fn lemma_can_execute_with_arguments(
    e: EntryView,
    input_len: nat,
    consume_terminal: bool,
    has_terminal: bool,
)
    requires
        input_len >= 1,
        (e.use_terminal && !consume_terminal) || text::words(e.command).len() > 0,
    ensures
        can_execute(e, input_len, consume_terminal, has_terminal),
{
}

/// Law: a loaded entry holds what its `Desktop Entry` section says: its
/// program and name are the `Exec` and `Name` values, it runs in a terminal
/// exactly when `Terminal` is `true` and is hidden exactly when `NoDisplay`
/// is `true` (an absent key counts as `false`), and its file name is the last
/// part of its path.
pub proof fn lemma_loaded_entry(
    res: Result<DesktopEntry, LoadError>,
    path: Seq<char>,
    exec: Option<Seq<char>>,
    name: Option<Seq<char>>,
    terminal: Option<Seq<char>>,
    categories: Option<Seq<char>>,
    no_display: Option<Seq<char>>,
)
    requires
        load_outcome(res, path, exec, name, terminal, categories, no_display),
        paths::file_name(path) != None::<Seq<char>>,
    ensures
        res matches Ok(d) ==> {
            &&& exec == Some(d@.command) && d@.command.len() > 0
            &&& name == Some(d@.name) && d@.name.len() > 0
            &&& (d@.use_terminal <==> terminal == Some(seq!['t', 'r', 'u', 'e']))
            &&& (d@.no_display <==> no_display == Some(seq!['t', 'r', 'u', 'e']))
            &&& Some(d@.file_name) == paths::file_name(path)
        },
        res is Ok <==> (exec matches Some(x) && x.len() > 0) && (name matches Some(y) && y.len() > 0),
{
    reveal_strlit("true");
    assert("true"@ =~= seq!['t', 'r', 'u', 'e']);
    reveal_strlit("Exec");
    reveal_strlit("Name");
}

/// Law: the name of the executable is taken from the word before the last
/// field code: the nearest one before it that does not start with `-`,
/// without quotes and directories; none where the command has no field code
/// or only options before it.
pub proof fn lemma_executable_name(command: Seq<char>)
    ensures
        ({
            let ws = text::words(command);
            &&& executable_name_of(command) matches Some(n) ==> exists|j: int, k: int|
                0 <= k < j < ws.len() && is_field_code(#[trigger] ws[j]) && (forall|i: int|
                    j < i < ws.len() ==> !is_field_code(#[trigger] ws[i])) && !(ws[k].len() > 0 && ws[k][0]
                    == '-') && (forall|i: int| k < i < j ==> (#[trigger] ws[i]).len() > 0 && ws[i][0] == '-')
                    && n == text::last_segment(text::trim_quotes(#[trigger] ws[k]))
            &&& executable_name_of(command) is None ==> forall|j: int, k: int|
                0 <= k < j < ws.len() && is_field_code(#[trigger] ws[j]) && (forall|i: int|
                    j < i < ws.len() ==> !is_field_code(#[trigger] ws[i])) ==> (#[trigger] ws[k]).len() > 0
                    && ws[k][0] == '-'
        }),
{
    lemma_name_before_code(text::words(command));
}

proof fn lemma_name_after_code(ws: Seq<Seq<char>>)
    ensures
        exe_name_from(ws, true) matches Some(n) ==> exists|k: int|
            0 <= k < ws.len() && !(ws[k].len() > 0 && ws[k][0] == '-') && (forall|i: int|
                k < i < ws.len() ==> (#[trigger] ws[i]).len() > 0 && ws[i][0] == '-') && n == text::last_segment(
                text::trim_quotes(#[trigger] ws[k]),
            ),
        exe_name_from(ws, true) is None ==> forall|k: int| 0 <= k < ws.len() ==> (#[trigger] ws[k]).len() > 0 && ws[k][0] == '-',
    decreases ws.len(),
{
    if ws.len() > 0 {
        let init = ws.drop_last();
        lemma_name_after_code(init);
        let c = ws.last();
        if !(c.len() > 0 && c[0] == '-') {
            assert(ws[ws.len() - 1] == c);
        } else {
            if let Some(n) = exe_name_from(ws, true) {
                let k = choose|k: int|
                    0 <= k < init.len() && !(init[k].len() > 0 && init[k][0] == '-') && (forall|i: int|
                        k < i < init.len() ==> (#[trigger] init[i]).len() > 0 && init[i][0] == '-') && n
                        == text::last_segment(text::trim_quotes(#[trigger] init[k]));
                assert(ws[k] == init[k]);
                assert forall|i: int| k < i < ws.len() implies (#[trigger] ws[i]).len() > 0 && ws[i][0] == '-' by {
                    if i < init.len() {
                        assert(ws[i] == init[i]);
                    }
                }
            } else {
                assert forall|k: int| 0 <= k < ws.len() implies (#[trigger] ws[k]).len() > 0 && ws[k][0] == '-' by {
                    if k < init.len() {
                        assert(ws[k] == init[k]);
                    }
                }
            }
        }
    }
}

#[verifier::rlimit(60)]
proof fn lemma_name_before_code(ws: Seq<Seq<char>>)
    ensures
        exe_name_from(ws, false) matches Some(n) ==> exists|j: int, k: int|
            0 <= k < j < ws.len() && is_field_code(#[trigger] ws[j]) && (forall|i: int|
                j < i < ws.len() ==> !is_field_code(#[trigger] ws[i])) && !(ws[k].len() > 0 && ws[k][0] == '-')
                && (forall|i: int| k < i < j ==> (#[trigger] ws[i]).len() > 0 && ws[i][0] == '-') && n
                == text::last_segment(text::trim_quotes(#[trigger] ws[k])),
        exe_name_from(ws, false) is None ==> forall|j: int, k: int|
            0 <= k < j < ws.len() && is_field_code(#[trigger] ws[j]) && (forall|i: int|
                j < i < ws.len() ==> !is_field_code(#[trigger] ws[i])) ==> (#[trigger] ws[k]).len() > 0 && ws[k][0]
                == '-',
    decreases ws.len(),
{
    if ws.len() > 0 {
        let init = ws.drop_last();
        let c = ws.last();
        let last = ws.len() - 1;
        assert(ws[last] == c);
        assert forall|i: int| 0 <= i < init.len() implies #[trigger] ws[i] == init[i] by {}
        if is_list_code(c) || is_single_code(c) {
            lemma_name_after_code(init);
            if let Some(n) = exe_name_from(ws, false) {
                let k = choose|k: int|
                    0 <= k < init.len() && !(init[k].len() > 0 && init[k][0] == '-') && (forall|i: int|
                        k < i < init.len() ==> (#[trigger] init[i]).len() > 0 && init[i][0] == '-') && n
                        == text::last_segment(text::trim_quotes(#[trigger] init[k]));
                assert(is_field_code(ws[last]));
                assert(ws[k] == init[k]);
                assert(exists|j: int, k2: int|
                    0 <= k2 < j < ws.len() && is_field_code(#[trigger] ws[j]) && (forall|i: int|
                        j < i < ws.len() ==> !is_field_code(#[trigger] ws[i])) && !(ws[k2].len() > 0 && ws[k2][0] == '-')
                        && (forall|i: int| k2 < i < j ==> (#[trigger] ws[i]).len() > 0 && ws[i][0] == '-') && n
                        == text::last_segment(text::trim_quotes(#[trigger] ws[k2]))) by {
                    assert(0 <= k < last < ws.len());
                }
            } else {
                assert forall|j: int, k: int|
                    0 <= k < j < ws.len() && is_field_code(#[trigger] ws[j]) && (forall|i: int|
                        j < i < ws.len() ==> !is_field_code(#[trigger] ws[i])) implies (#[trigger] ws[k]).len() > 0
                        && ws[k][0] == '-' by {
                    if j < last {
                        assert(is_field_code(ws[last]));
                    }
                    assert(init[k] == ws[k]);
                }
            }
        } else {
            lemma_name_before_code(init);
            assert(!is_field_code(c));
            if let Some(n) = exe_name_from(ws, false) {
                let (j, k) = choose|j: int, k: int|
                    0 <= k < j < init.len() && is_field_code(#[trigger] init[j]) && (forall|i: int|
                        j < i < init.len() ==> !is_field_code(#[trigger] init[i])) && !(init[k].len() > 0 && init[k][0]
                        == '-') && (forall|i: int| k < i < j ==> (#[trigger] init[i]).len() > 0 && init[i][0] == '-')
                        && n == text::last_segment(text::trim_quotes(#[trigger] init[k]));
                assert(ws[j] == init[j] && ws[k] == init[k]);
                assert forall|i: int| j < i < ws.len() implies !is_field_code(#[trigger] ws[i]) by {
                    if i < init.len() {
                        assert(ws[i] == init[i]);
                    }
                }
                assert forall|i: int| k < i < j implies (#[trigger] ws[i]).len() > 0 && ws[i][0] == '-' by {
                    assert(ws[i] == init[i]);
                }
            } else {
                assert forall|j: int, k: int|
                    0 <= k < j < ws.len() && is_field_code(#[trigger] ws[j]) && (forall|i: int|
                        j < i < ws.len() ==> !is_field_code(#[trigger] ws[i])) implies (#[trigger] ws[k]).len() > 0
                        && ws[k][0] == '-' by {
                    assert(j != last);
                    assert(init[j] == ws[j] && init[k] == ws[k]);
                    assert forall|i: int| j < i < init.len() implies !is_field_code(#[trigger] init[i]) by {
                        assert(init[i] == ws[i]);
                    }
                }
            }
        }
    }
}

} // verus!
