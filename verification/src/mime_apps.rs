//! The `mimeapps.list` file: which applications are the defaults for which
//! media types.
use vstd::prelude::*;

use crate::mime_map::{self, MimeMap};
use crate::mime_type::{self, MimeType};
use crate::text::{
    self, chars_eq, chars_of, extend_chars, extend_joined, lines_of, split_once_chars,
    split_terminator_chars, string_of, strings_of,
};

verus! {

/// The section of `mimeapps.list` that a line belongs to.
#[derive(Clone, Copy, PartialEq, Eq, Structural)]
pub enum Section {
    /// Before any known section header.
    Unset,
    /// `[Default Applications]`
    Default,
    /// `[Added Associations]`
    Added,
    /// `[Removed Associations]`
    Removed,
}

/// The three maps of `mimeapps.list`: defaults, added and removed associations.
pub type AppsModel = (
    Map<Seq<char>, Seq<Seq<char>>>,
    Map<Seq<char>, Seq<Seq<char>>>,
    Map<Seq<char>, Seq<Seq<char>>>,
);

pub open spec fn default_header() -> Seq<char> {
    "[Default Applications]"@
}

pub open spec fn added_header() -> Seq<char> {
    "[Added Associations]"@
}

pub open spec fn removed_header() -> Seq<char> {
    "[Removed Associations]"@
}

/// The section that a header line opens, if the line is one.
pub open spec fn header_section(line: Seq<char>) -> Option<Section> {
    if line == default_header() {
        Some(Section::Default)
    } else if line == added_header() {
        Some(Section::Added)
    } else if line == removed_header() {
        Some(Section::Removed)
    } else {
        None
    }
}

/// Records `names` for the type `key` in the map of `section`.
pub open spec fn associate(m: AppsModel, section: Section, key: Seq<char>, names: Seq<Seq<char>>) -> AppsModel {
    match section {
        Section::Default => (m.0.insert(key, names), m.1, m.2),
        Section::Added => (m.0, m.1.insert(key, names), m.2),
        Section::Removed => (m.0, m.1, m.2.insert(key, names)),
        Section::Unset => m,
    }
}

/// The defaults registered for a type: those of the type itself, else those
/// of its wildcard type.
pub open spec fn default_entries_of(
    defaults: Map<Seq<char>, Seq<Seq<char>>>,
    mime: Seq<char>,
    top: Seq<char>,
) -> Option<Seq<Seq<char>>> {
    if defaults.contains_key(mime) {
        Some(defaults[mime])
    } else {
        match mime_type::parsed_mime(mime_type::wildcard_text(top)) {
            Some((w, _)) => if defaults.contains_key(w) {
                Some(defaults[w])
            } else {
                None
            },
            None => None,
        }
    }
}

/// What one line does to the section being read and to the maps: a header
/// switches the section, an empty line is skipped, and a line `type=a;b;`
/// whose type the `mime` crate accepts registers the names for that type;
/// under `[Default Applications]` only a line that lists one or more names
/// does, since the defaults hold only types with an application.
pub open spec fn load_step(st: (Section, AppsModel), line: Seq<char>) -> (Section, AppsModel) {
    let section = match header_section(line) {
        Some(s) => s,
        None => st.0,
    };
    if header_section(line) is None && line.len() == 0 {
        st
    } else {
        match text::split_once(line, '=') {
            None => (section, st.1),
            Some((key, names)) => match mime_type::parsed_mime(key) {
                None => (section, st.1),
                Some((t, _)) => if text::split_terminator(names, ';').len() == 0 && section == Section::Default {
                    (section, st.1)
                } else {
                    (section, associate(st.1, section, t, text::split_terminator(names, ';')))
                },
            },
        }
    }
}

/// The state after reading `ls` from `st`.
pub open spec fn load_from(st: (Section, AppsModel), ls: Seq<Seq<char>>) -> (Section, AppsModel)
    decreases ls.len(),
{
    if ls.len() == 0 {
        st
    } else {
        load_step(load_from(st, ls.drop_last()), ls.last())
    }
}

pub open spec fn empty_model() -> AppsModel {
    (Map::empty(), Map::empty(), Map::empty())
}

/// Every type of a map has one or more names.
pub open spec fn map_lists_nonempty(m: Map<Seq<char>, Seq<Seq<char>>>) -> bool {
    forall|k: Seq<char>| #[trigger] m.contains_key(k) ==> m[k].len() > 0
}

/// Every default type has one or more names.
pub open spec fn defaults_nonempty(m: AppsModel) -> bool {
    map_lists_nonempty(m.0)
}

/// Every type of the three maps reads back as the parser left it.
pub open spec fn apps_keys_read_back(m: AppsModel) -> bool {
    mime_map::keys_read_back(m.0) && mime_map::keys_read_back(m.1) && mime_map::keys_read_back(m.2)
}

/// The maps that reading the text of a `mimeapps.list` gives.
pub open spec fn parse_mimeapps(content: Seq<char>) -> AppsModel {
    load_from((Section::Unset, empty_model()), text::lines(content)).1
}

/// The line `type=a;b` that records the names of one type.
pub open spec fn entry_line(p: (Seq<char>, Seq<Seq<char>>)) -> Seq<char> {
    p.0 + seq!['='] + text::join(p.1, ';')
}

/// A section: its header, then one line per type.
pub open spec fn section_lines(header: Seq<char>, ps: Seq<(Seq<char>, Seq<Seq<char>>)>) -> Seq<Seq<char>> {
    seq![header] + ps.map_values(|p: (Seq<char>, Seq<Seq<char>>)| entry_line(p))
}

/// The lines of a written `mimeapps.list`: the three sections, an empty
/// line after each but the last.
pub open spec fn save_lines(
    d: Seq<(Seq<char>, Seq<Seq<char>>)>,
    a: Seq<(Seq<char>, Seq<Seq<char>>)>,
    r: Seq<(Seq<char>, Seq<Seq<char>>)>,
) -> Seq<Seq<char>> {
    section_lines(default_header(), d) + seq![Seq::<char>::empty()] + section_lines(added_header(), a)
        + seq![Seq::<char>::empty()] + section_lines(removed_header(), r)
}

/// The text of a written `mimeapps.list`.
pub open spec fn save_text(
    d: Seq<(Seq<char>, Seq<Seq<char>>)>,
    a: Seq<(Seq<char>, Seq<Seq<char>>)>,
    r: Seq<(Seq<char>, Seq<Seq<char>>)>,
) -> Seq<char> {
    text::concat_lines(save_lines(d, a, r))
}

/// The media types that have one or more applications registered as default.
pub struct MimeApps {
    /// The default applications of each type. `load` and the methods of
    /// `MimeApps` keep every list here non-empty (`defaults_nonempty`); an
    /// insert made on the map directly is held to no such rule.
    pub defaults: MimeMap,
    // Kept only so that the file can be written back whole.
    _added_associations: MimeMap,
    _removed_associations: MimeMap,
}

impl View for MimeApps {
    type V = AppsModel;

    closed spec fn view(&self) -> AppsModel {
        (self.defaults.model(), self._added_associations.model(), self._removed_associations.model())
    }
}

impl MimeApps {
    /// No associations at all.
    pub fn new() -> (res: MimeApps)
        ensures
            res@ == empty_model(),
            apps_keys_read_back(res@),
    {
        MimeApps { defaults: MimeMap::new(), _added_associations: MimeMap::new(), _removed_associations: MimeMap::new() }
    }

    /// Registers `names` as the default applications of `mime`, replacing
    /// what was registered for it. An empty list registers nothing: the
    /// defaults hold only types with one or more applications.
    pub fn insert_default(&mut self, mime: MimeType, names: Vec<String>)
        ensures
            names@.len() == 0 ==> final(self)@ == old(self)@,
            names@.len() > 0 ==> final(self)@ == (
                old(self)@.0.insert(mime@, mime_map::strings_view(names@)),
                old(self)@.1,
                old(self)@.2,
            ),
            defaults_nonempty(old(self)@) ==> defaults_nonempty(final(self)@),
            apps_keys_read_back(final(self)@),
    {
        if names.len() > 0 {
            self.defaults.insert(mime, names);
        }
        proof {
            use_type_invariant(&self.defaults);
            use_type_invariant(&self._added_associations);
            use_type_invariant(&self._removed_associations);
            self.defaults.lemma_pairs_model();
            self._added_associations.lemma_pairs_model();
            self._removed_associations.lemma_pairs_model();
        }
    }


    /// The file names registered as defaults for `mime`, or else for the
    /// wildcard type of its top-level type (`text/*` for `text/html`).
    pub fn default_entries(&self, mime: &MimeType) -> (res: Option<&Vec<String>>)
        ensures
            match res {
                Some(v) => default_entries_of(self@.0, mime@, mime.top_level()) == Some(mime_map::strings_view(v@)),
                None => default_entries_of(self@.0, mime@, mime.top_level()) == None::<Seq<Seq<char>>>,
            },
    {
        match self.defaults.get(mime) {
            Some(v) => Some(v),
            None => match mime_type::wildcard_of(mime) {
                Some(w) => self.defaults.get(&w),
                None => None,
            },
        }
    }

    /// The pairs of the three maps, in the order they are kept.
    pub closed spec fn pairs(self) -> (
        Seq<(Seq<char>, Seq<Seq<char>>)>,
        Seq<(Seq<char>, Seq<Seq<char>>)>,
        Seq<(Seq<char>, Seq<Seq<char>>)>,
    ) {
        (self.defaults.pairs(), self._added_associations.pairs(), self._removed_associations.pairs())
    }

    /// The maps are those that the pairs build.
    pub proof fn lemma_view_pairs(self)
        ensures
            self@ == (
                mime_map::map_of(self.pairs().0),
                mime_map::map_of(self.pairs().1),
                mime_map::map_of(self.pairs().2),
            ),
    {
    }

    /// The text that `mimeapps.list` is overwritten with: each section with
    /// its header and a line `type=a;b` per type, every type once, the
    /// sections separated by an empty line. Where no type has parameters and
    /// every list of names is storable, reading the text back gives the same
    /// maps.
    pub fn to_text(&self) -> (res: String)
        ensures
            res@ == save_text(self.pairs().0, self.pairs().1, self.pairs().2),
            mime_map::keys_unique(self.pairs().0),
            mime_map::keys_unique(self.pairs().1),
            mime_map::keys_unique(self.pairs().2),
            model_writable(self@) ==> parse_mimeapps(res@) == self@,
    {
        let mut out: Vec<char> = Vec::new();
        write_section(&mut out, "[Default Applications]", &self.defaults);
        out.push('\n');
        write_section(&mut out, "[Added Associations]", &self._added_associations);
        out.push('\n');
        write_section(&mut out, "[Removed Associations]", &self._removed_associations);
        proof {
            let d = section_lines(default_header(), self.pairs().0);
            let a = section_lines(added_header(), self.pairs().1);
            let r = section_lines(removed_header(), self.pairs().2);
            let e = seq![Seq::<char>::empty()];
            text::lemma_concat_lines_single(Seq::<char>::empty());
            assert(Seq::<char>::empty().push('\n') =~= seq!['\n']);
            text::lemma_concat_lines_append(d, e);
            text::lemma_concat_lines_append(d + e, a);
            text::lemma_concat_lines_append(d + e + a, e);
            text::lemma_concat_lines_append(d + e + a + e, r);
            assert(out@ =~= save_text(self.pairs().0, self.pairs().1, self.pairs().2));
            use_type_invariant(&self.defaults);
            use_type_invariant(&self._added_associations);
            use_type_invariant(&self._removed_associations);
            self.defaults.lemma_pairs_model();
            self._added_associations.lemma_pairs_model();
            self._removed_associations.lemma_pairs_model();
            self.lemma_view_pairs();
            if model_writable(self@) {
                lemma_writable_pairs(self.pairs().0);
                lemma_writable_pairs(self.pairs().1);
                lemma_writable_pairs(self.pairs().2);
                lemma_save_text_parses_back(self.pairs().0, self.pairs().1, self.pairs().2);
            }
        }
        string_of(out.as_slice())
    }

    /// Registers the names listed in `desktop_entries` (separated and possibly
    /// ended by `;`) for `mime` in the map of `section`. Outside any section
    /// nothing changes, and neither do the defaults where no name is listed.
    pub fn add_association(&mut self, section: Section, mime: MimeType, desktop_entries: &Vec<char>)
        ensures
            text::split_terminator(desktop_entries@, ';').len() == 0 && section == Section::Default
                ==> final(self)@ == old(self)@,
            !(text::split_terminator(desktop_entries@, ';').len() == 0 && section == Section::Default)
                ==> final(self)@ == associate(
                old(self)@,
                section,
                mime@,
                text::split_terminator(desktop_entries@, ';'),
            ),
            defaults_nonempty(old(self)@) ==> defaults_nonempty(final(self)@),
            apps_keys_read_back(final(self)@),
    {
        let parts = split_terminator_chars(desktop_entries, ';');
        let names = strings_of(&parts);
        assert(mime_map::strings_view(names@) =~= text::split_terminator(desktop_entries@, ';'));
        if names.len() > 0 || section != Section::Default {
            match section {
                Section::Default => self.defaults.insert(mime, names),
                Section::Added => self._added_associations.insert(mime, names),
                Section::Removed => self._removed_associations.insert(mime, names),
                Section::Unset => {},
            }
        }
        proof {
            use_type_invariant(&self.defaults);
            use_type_invariant(&self._added_associations);
            use_type_invariant(&self._removed_associations);
            self.defaults.lemma_pairs_model();
            self._added_associations.lemma_pairs_model();
            self._removed_associations.lemma_pairs_model();
        }
    }

    /// Reads the text of a `mimeapps.list` file. Lines that are neither a
    /// header nor `type=entries` with a valid type are skipped.
    pub fn load(content: &str) -> (res: MimeApps)
        ensures
            res@ == parse_mimeapps(content@),
            defaults_nonempty(res@),
            apps_keys_read_back(res@),
    {
        let mut mime_apps = MimeApps::new();
        let chars = chars_of(content);
        let ls = lines_of(&chars);
        let default_h = chars_of("[Default Applications]");
        let added_h = chars_of("[Added Associations]");
        let removed_h = chars_of("[Removed Associations]");
        let mut section = Section::Unset;
        let ghost all = text::lines(content@);
        assert(ls@.map_values(|l: Vec<char>| l@) =~= all);
        let mut i: usize = 0;
        while i < ls.len()
            invariant
                i <= ls@.len(),
                ls@.len() == all.len(),
                forall|k: int| 0 <= k < ls@.len() ==> #[trigger] ls@[k]@ == all[k],
                default_h@ == default_header(),
                added_h@ == added_header(),
                removed_h@ == removed_header(),
                (section, mime_apps@) == load_from((Section::Unset, empty_model()), all.take(i as int)),
                defaults_nonempty(mime_apps@),
                apps_keys_read_back(mime_apps@),
            decreases ls@.len() - i,
        {
            let line = &ls[i];
            assert(all.take(i + 1).drop_last() =~= all.take(i as int));
            assert(all.take(i + 1).last() == line@);
            let is_header = if chars_eq(line, &default_h) {
                section = Section::Default;
                true
            } else if chars_eq(line, &added_h) {
                section = Section::Added;
                true
            } else if chars_eq(line, &removed_h) {
                section = Section::Removed;
                true
            } else {
                false
            };
            if !is_header && line.len() == 0 {
                i = i + 1;
                continue;
            }
            match split_once_chars(line, '=') {
                None => {},
                Some((key, names)) => {
                    let key_str = string_of(key.as_slice());
                    match MimeType::parse(key_str.as_str()) {
                        None => {},
                        Some(mime) => {
                            mime_apps.add_association(section, mime, &names);
                        },
                    }
                },
            }
            i = i + 1;
        }
        assert(all.take(ls@.len() as int) =~= all);
        mime_apps
    }
}


/// Appends a section: its header and a line per type of `m`.
fn write_section(out: &mut Vec<char>, header: &str, m: &MimeMap)
    ensures
        final(out)@ == old(out)@ + text::concat_lines(section_lines(header@, m.pairs())),
{
    let ghost start = out@;
    let ghost ps = m.pairs();
    let h = chars_of(header);
    extend_chars(out, &h);
    out.push('\n');
    assert(text::concat_lines(section_lines(header@, ps.take(0))) =~= header@.push('\n')) by {
        assert(section_lines(header@, ps.take(0)) =~= seq![header@]);
        text::lemma_concat_lines_single(header@);
    }
    let mut i: usize = 0;
    while i < m.len()
        invariant
            i <= ps.len(),
            ps == m.pairs(),
            out@ == start + text::concat_lines(section_lines(header@, ps.take(i as int))),
        decreases ps.len() - i,
    {
        let (key, names) = m.pair(i);
        let k = chars_of(key.as_str());
        let ghost before = out@;
        extend_chars(out, &k);
        out.push('=');
        extend_joined(out, names, ';');
        out.push('\n');
        proof {
            assert(names@.map_values(|p: String| p@) =~= ps[i as int].1);
            let prev = section_lines(header@, ps.take(i as int));
            let next = section_lines(header@, ps.take(i + 1));
            assert(next =~= prev.push(entry_line(ps[i as int])));
            assert(next.drop_last() =~= prev);
            assert(out@ =~= before + entry_line(ps[i as int]).push('\n'));
        }
        i = i + 1;
    }
    assert(ps.take(ps.len() as int) =~= ps);
}


/// A list of names that reads back as written: no name holds `;` or a line
/// break, and the last one, if any, is not empty and does not end in `\r`
/// (which reading a line drops). An empty list is written as `type=`.
pub open spec fn names_storable(ns: Seq<Seq<char>>) -> bool {
    &&& forall|j: int| 0 <= j < ns.len() ==> !(#[trigger] ns[j]).contains(';') && !ns[j].contains('\n')
    &&& ns.len() > 0 ==> ns.last().len() > 0 && ns.last().last() != '\r'
}

/// A pair that reads back as written: a type text without parameters (no
/// `=`) that the `mime` crate gives back unchanged, and storable names.
pub open spec fn storable(p: (Seq<char>, Seq<Seq<char>>)) -> bool {
    &&& !p.0.contains('=')
    &&& mime_type::text_reads_back(p.0)
    &&& names_storable(p.1)
}

/// Maps that read back as written: no type has parameters, and every list
/// of names is storable.
pub open spec fn map_writable(m: Map<Seq<char>, Seq<Seq<char>>>) -> bool {
    forall|k: Seq<char>| #[trigger] m.contains_key(k) ==> !k.contains('=') && names_storable(m[k])
}

/// Maps that read back as written: all three writable, and every default
/// type with one or more names (a default without any is not read back).
pub open spec fn model_writable(m: AppsModel) -> bool {
    map_writable(m.0) && map_writable(m.1) && map_writable(m.2) && defaults_nonempty(m)
}

pub open spec fn all_storable(ps: Seq<(Seq<char>, Seq<Seq<char>>)>) -> bool {
    forall|i: int| 0 <= i < ps.len() ==> storable(#[trigger] ps[i])
}

/// The pairs of a writable map whose keys read back are storable.
proof fn lemma_writable_pairs(ps: Seq<(Seq<char>, Seq<Seq<char>>)>)
    requires
        forall|i: int|
            0 <= i < ps.len() ==> mime_map::map_of(ps).contains_key(#[trigger] ps[i].0)
                && mime_map::map_of(ps)[ps[i].0] == ps[i].1,
        mime_map::keys_read_back(mime_map::map_of(ps)),
        map_writable(mime_map::map_of(ps)),
    ensures
        all_storable(ps),
        map_lists_nonempty(mime_map::map_of(ps)) ==> forall|i: int| 0 <= i < ps.len() ==> (#[trigger] ps[i]).1.len() > 0,
{
    assert forall|i: int| 0 <= i < ps.len() implies storable(#[trigger] ps[i]) by {
        assert(mime_map::map_of(ps).contains_key(ps[i].0));
    }
    if map_lists_nonempty(mime_map::map_of(ps)) {
        assert forall|i: int| 0 <= i < ps.len() implies (#[trigger] ps[i]).1.len() > 0 by {
            assert(mime_map::map_of(ps).contains_key(ps[i].0));
        }
    }
}

/// Records the pairs one after the other in the map of `section`.
pub open spec fn associate_all(m: AppsModel, section: Section, ps: Seq<(Seq<char>, Seq<Seq<char>>)>) -> AppsModel
    decreases ps.len(),
{
    if ps.len() == 0 {
        m
    } else {
        let p = ps.last();
        associate(associate_all(m, section, ps.drop_last()), section, p.0, p.1)
    }
}

proof fn lemma_headers()
    ensures
        default_header().len() > 0,
        added_header().len() > 0,
        removed_header().len() > 0,
        !default_header().contains('='),
        !added_header().contains('='),
        !removed_header().contains('='),
        !default_header().contains('\n'),
        !added_header().contains('\n'),
        !removed_header().contains('\n'),
        default_header().last() == ']',
        added_header().last() == ']',
        removed_header().last() == ']',
        header_section(default_header()) == Some(Section::Default),
        header_section(added_header()) == Some(Section::Added),
        header_section(removed_header()) == Some(Section::Removed),
{
    reveal_strlit("[Default Applications]");
    reveal_strlit("[Added Associations]");
    reveal_strlit("[Removed Associations]");
    assert(default_header() != added_header()) by {
        assert(default_header()[1] != added_header()[1]);
    }
    assert(default_header() != removed_header()) by {
        assert(default_header()[1] != removed_header()[1]);
    }
    assert(added_header() != removed_header()) by {
        assert(added_header()[1] != removed_header()[1]);
    }
}

proof fn lemma_load_from_single(st: (Section, AppsModel), line: Seq<char>)
    ensures
        load_from(st, seq![line]) == load_step(st, line),
{
    assert(seq![line].drop_last() =~= Seq::<Seq<char>>::empty());
    assert(load_from(st, Seq::<Seq<char>>::empty()) == st);
}

proof fn lemma_load_from_append(st: (Section, AppsModel), a: Seq<Seq<char>>, b: Seq<Seq<char>>)
    ensures
        load_from(st, a + b) == load_from(load_from(st, a), b),
    decreases b.len(),
{
    if b.len() == 0 {
        assert(a + b =~= a);
    } else {
        lemma_load_from_append(st, a, b.drop_last());
        assert((a + b).drop_last() =~= a + b.drop_last());
        assert((a + b).last() == b.last());
    }
}

/// Reading the line of a storable pair records the pair in the current section.
proof fn lemma_entry_step(st: (Section, AppsModel), p: (Seq<char>, Seq<Seq<char>>))
    requires
        storable(p),
        st.0 == Section::Default ==> p.1.len() > 0,
    ensures
        load_step(st, entry_line(p)) == (st.0, associate(st.1, st.0, p.0, p.1)),
{
    lemma_headers();
    let line = entry_line(p);
    let j = text::join(p.1, ';');
    assert(line == p.0 + seq!['='] + j);
    assert(line[p.0.len() as int] == '=');
    assert(line.contains('='));
    assert(header_section(line) is None);
    text::lemma_split_once_concat(p.0, '=', j);
    assert forall|k: int| 0 <= k < p.1.len() implies !(#[trigger] p.1[k]).contains(';') by {}
    text::lemma_split_terminator_join(p.1, ';');
}

/// The text of a storable pair's line is a line that `lines` gives back unchanged.
proof fn lemma_entry_line_plain(p: (Seq<char>, Seq<Seq<char>>))
    requires
        storable(p),
    ensures
        text::plain_line(entry_line(p)),
{
    let j = text::join(p.1, ';');
    let line = entry_line(p);
    assert forall|k: int| 0 <= k < p.1.len() implies !(#[trigger] p.1[k]).contains('\n') by {}
    text::lemma_join_excludes(p.1, ';', '\n');
    assert(!line.contains('\n')) by {
        if line.contains('\n') {
            let i = choose|i: int| 0 <= i < line.len() && line[i] == '\n';
            if i < p.0.len() {
                assert(p.0[i] == '\n');
            } else if i > p.0.len() {
                assert(j[i - p.0.len() - 1] == '\n');
            }
        }
    }
    if p.1.len() == 0 {
        assert(line.last() == '=');
    } else {
        text::lemma_join_last(p.1, ';');
        assert(line.last() == j.last());
    }
}

/// Reading a section from any state leaves its pairs recorded in its map.
proof fn lemma_load_section(
    st: (Section, AppsModel),
    header: Seq<char>,
    section: Section,
    ps: Seq<(Seq<char>, Seq<Seq<char>>)>,
)
    requires
        header_section(header) == Some(section),
        !header.contains('='),
        all_storable(ps),
        section == Section::Default ==> forall|i: int| 0 <= i < ps.len() ==> (#[trigger] ps[i]).1.len() > 0,
    ensures
        load_from(st, section_lines(header, ps)) == (section, associate_all(st.1, section, ps)),
    decreases ps.len(),
{
    if ps.len() == 0 {
        assert(section_lines(header, ps) =~= seq![header]);
        lemma_load_from_single(st, header);
        text::lemma_split_once_none(header, '=');
    } else {
        let init = ps.drop_last();
        assert forall|i: int| 0 <= i < init.len() implies storable(#[trigger] init[i]) by {
            assert(init[i] == ps[i]);
        }
        assert forall|i: int| 0 <= i < init.len() && section == Section::Default implies (#[trigger] init[i]).1.len() > 0 by {
            assert(init[i] == ps[i]);
        }
        lemma_load_section(st, header, section, init);
        let sl = section_lines(header, ps);
        assert(sl.drop_last() =~= section_lines(header, init));
        assert(sl.last() == entry_line(ps.last()));
        assert(storable(ps.last()) && (section == Section::Default ==> ps.last().1.len() > 0)) by {
            assert(ps[ps.len() - 1] == ps.last());
        }
        lemma_entry_step(load_from(st, section_lines(header, init)), ps.last());
    }
}

/// A section's map built from nothing is the map of its pairs; the other
/// maps stay as they are.
proof fn lemma_associate_all(m: AppsModel, section: Section, ps: Seq<(Seq<char>, Seq<Seq<char>>)>)
    ensures
        section == Section::Default && m.0 == Map::<Seq<char>, Seq<Seq<char>>>::empty() ==> associate_all(
            m,
            section,
            ps,
        ) == (mime_map::map_of(ps), m.1, m.2),
        section == Section::Added && m.1 == Map::<Seq<char>, Seq<Seq<char>>>::empty() ==> associate_all(
            m,
            section,
            ps,
        ) == (m.0, mime_map::map_of(ps), m.2),
        section == Section::Removed && m.2 == Map::<Seq<char>, Seq<Seq<char>>>::empty() ==> associate_all(
            m,
            section,
            ps,
        ) == (m.0, m.1, mime_map::map_of(ps)),
    decreases ps.len(),
{
    if ps.len() > 0 {
        lemma_associate_all(m, section, ps.drop_last());
    }
}

/// Law: the text written for three lists of storable pairs reads back as
/// the maps that the pairs make.
pub proof fn lemma_save_text_parses_back(
    d: Seq<(Seq<char>, Seq<Seq<char>>)>,
    a: Seq<(Seq<char>, Seq<Seq<char>>)>,
    r: Seq<(Seq<char>, Seq<Seq<char>>)>,
)
    requires
        all_storable(d),
        all_storable(a),
        all_storable(r),
        forall|i: int| 0 <= i < d.len() ==> (#[trigger] d[i]).1.len() > 0,
    ensures
        parse_mimeapps(save_text(d, a, r)) == (mime_map::map_of(d), mime_map::map_of(a), mime_map::map_of(r)),
{
    lemma_headers();
    let ls = save_lines(d, a, r);
    let e = seq![Seq::<char>::empty()];
    let sd = section_lines(default_header(), d);
    let sa = section_lines(added_header(), a);
    let sr = section_lines(removed_header(), r);
    assert(ls == sd + e + sa + e + sr);
    assert forall|k: int| 0 <= k < ls.len() implies text::plain_line(#[trigger] ls[k]) by {
        let n1 = sd.len();
        let n2 = n1 + 1 + sa.len();
        if k == 0 {
            assert(ls[k] == default_header());
        } else if k < n1 {
            assert(ls[k] == entry_line(d[k - 1]));
            lemma_entry_line_plain(d[k - 1]);
        } else if k == n1 {
            assert(ls[k].len() == 0);
        } else if k == n1 + 1 {
            assert(ls[k] == added_header());
        } else if k < n2 {
            assert(ls[k] == entry_line(a[k - n1 - 2]));
            lemma_entry_line_plain(a[k - n1 - 2]);
        } else if k == n2 {
            assert(ls[k].len() == 0);
        } else if k == n2 + 1 {
            assert(ls[k] == removed_header());
        } else {
            assert(ls[k] == entry_line(r[k - n2 - 2]));
            lemma_entry_line_plain(r[k - n2 - 2]);
        }
    }
    text::lemma_lines_concat_lines(ls);
    let st0 = (Section::Unset, empty_model());
    lemma_load_from_append(st0, sd + e + sa + e, sr);
    lemma_load_from_append(st0, sd + e + sa, e);
    lemma_load_from_append(st0, sd + e, sa);
    lemma_load_from_append(st0, sd, e);
    lemma_load_section(st0, default_header(), Section::Default, d);
    let st1 = load_from(st0, sd);
    lemma_load_from_single(st1, Seq::<char>::empty());
    assert(load_from(st1, e) == st1);
    lemma_load_section(st1, added_header(), Section::Added, a);
    let st2 = load_from(st1, sa);
    lemma_load_from_single(st2, Seq::<char>::empty());
    assert(load_from(st2, e) == st2);
    lemma_load_section(st2, removed_header(), Section::Removed, r);
    lemma_associate_all(empty_model(), Section::Default, d);
    lemma_associate_all(st1.1, Section::Added, a);
    lemma_associate_all(st2.1, Section::Removed, r);
}

} // verus!
